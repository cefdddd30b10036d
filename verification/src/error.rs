//! Unified error type.

use vstd::prelude::*;

verus! {

/// An I/O error of the standard library, carried through opaquely.
#[verifier::external_type_specification]
#[verifier::external_body]
pub struct ExIoError(std::io::Error);

#[derive(Debug)]
pub enum AxcError {
    Io(std::io::Error),
    InvalidMagic,
    InvalidHeader(String),
    InvalidChunk(String),
    ChecksumMismatch { chunk_id: u64, expected: u32, got: u32 },
    DecompressionBomb { output_size: u64, limit: u64 },
    PathTraversal(String),
    UnsupportedVersion(u8),
    CorruptIndex,
    CodecError(String),
    EmptyArchive,
    FileNotFound(String),
}

impl From<std::io::Error> for AxcError {
    fn from(e: std::io::Error) -> (r: Self) {
        AxcError::Io(e)
    }
}

impl vstd::std_specs::convert::FromSpecImpl<std::io::Error> for AxcError {
    open spec fn obeys_from_spec() -> bool {
        true
    }

    open spec fn from_spec(v: std::io::Error) -> Self {
        AxcError::Io(v)
    }
}

/// What an error says, with its texts as character sequences.
pub enum Failure {
    Io(std::io::Error),
    InvalidMagic,
    InvalidHeader(Seq<char>),
    InvalidChunk(Seq<char>),
    ChecksumMismatch { chunk_id: u64, expected: u32, got: u32 },
    DecompressionBomb { output_size: u64, limit: u64 },
    PathTraversal(Seq<char>),
    UnsupportedVersion(u8),
    CorruptIndex,
    CodecError(Seq<char>),
    EmptyArchive,
    FileNotFound(Seq<char>),
}

impl View for AxcError {
    type V = Failure;

    open spec fn view(&self) -> Failure {
        match self {
            AxcError::Io(e) => Failure::Io(*e),
            AxcError::InvalidMagic => Failure::InvalidMagic,
            AxcError::InvalidHeader(s) => Failure::InvalidHeader(s@),
            AxcError::InvalidChunk(s) => Failure::InvalidChunk(s@),
            AxcError::ChecksumMismatch { chunk_id, expected, got } => Failure::ChecksumMismatch {
                chunk_id: *chunk_id,
                expected: *expected,
                got: *got,
            },
            AxcError::DecompressionBomb { output_size, limit } => Failure::DecompressionBomb {
                output_size: *output_size,
                limit: *limit,
            },
            AxcError::PathTraversal(s) => Failure::PathTraversal(s@),
            AxcError::UnsupportedVersion(v) => Failure::UnsupportedVersion(*v),
            AxcError::CorruptIndex => Failure::CorruptIndex,
            AxcError::CodecError(s) => Failure::CodecError(s@),
            AxcError::EmptyArchive => Failure::EmptyArchive,
            AxcError::FileNotFound(s) => Failure::FileNotFound(s@),
        }
    }
}

/// The kinds of I/O failure that reading an in-memory archive can meet.
#[derive(Clone, Copy, Debug, PartialEq, Eq)]
pub enum IoFailure {
    /// Fewer bytes remain than a record needs.
    UnexpectedEof,
    /// A position before the start of the archive, or past what a position
    /// can hold, was asked for.
    InvalidSeek,
}

/// The I/O error that the standard library builds for a kind of failure.
pub uninterp spec fn io_error_of(kind: IoFailure) -> std::io::Error;

/// The failure of an I/O error of the given kind.
pub open spec fn io_failure(kind: IoFailure) -> Failure {
    Failure::Io(io_error_of(kind))
}

/// Builds the standard library's I/O error of the given kind with
/// `std::io::Error::from(std::io::ErrorKind)` (kind `UnexpectedEof`, or
/// `InvalidInput` for a bad seek); the value is opaque and is named by
/// `io_error_of`, which depends on the kind alone.
#[verifier::external_body]
pub(crate) fn io_error(kind: IoFailure) -> (e: std::io::Error)
    ensures
        e == io_error_of(kind),
{
    match kind {
        IoFailure::UnexpectedEof => std::io::Error::from(std::io::ErrorKind::UnexpectedEof),
        IoFailure::InvalidSeek => std::io::Error::from(std::io::ErrorKind::InvalidInput),
    }
}

/// A lower-case hexadecimal digit.
pub open spec fn hex_digit(d: nat) -> char {
    if d < 10 {
        (48 + d) as char
    } else {
        (87 + d) as char
    }
}

/// `{:#04x}` of a byte: "0x" and two lower-case hexadecimal digits.
pub open spec fn hex_byte_text(b: u8) -> Seq<char> {
    seq!['0', 'x', hex_digit(b as nat / 16), hex_digit(b as nat % 16)]
}

/// The decimal digits of `n`, without leading zeros.
pub open spec fn decimal_text(n: nat) -> Seq<char>
    decreases n,
{
    if n < 10 {
        seq![(48 + n) as char]
    } else {
        decimal_text(n / 10) + seq![(48 + n % 10) as char]
    }
}

/// The one-character text of a hexadecimal digit.
fn digit_str(d: u8) -> (s: &'static str)
    requires
        d < 16,
    ensures
        s@ == seq![hex_digit(d as nat)],
{
    match d {
        0 => {
            proof {
                reveal_strlit("0");
            }
            "0"
        },
        1 => {
            proof {
                reveal_strlit("1");
            }
            "1"
        },
        2 => {
            proof {
                reveal_strlit("2");
            }
            "2"
        },
        3 => {
            proof {
                reveal_strlit("3");
            }
            "3"
        },
        4 => {
            proof {
                reveal_strlit("4");
            }
            "4"
        },
        5 => {
            proof {
                reveal_strlit("5");
            }
            "5"
        },
        6 => {
            proof {
                reveal_strlit("6");
            }
            "6"
        },
        7 => {
            proof {
                reveal_strlit("7");
            }
            "7"
        },
        8 => {
            proof {
                reveal_strlit("8");
            }
            "8"
        },
        9 => {
            proof {
                reveal_strlit("9");
            }
            "9"
        },
        10 => {
            proof {
                reveal_strlit("a");
            }
            "a"
        },
        11 => {
            proof {
                reveal_strlit("b");
            }
            "b"
        },
        12 => {
            proof {
                reveal_strlit("c");
            }
            "c"
        },
        13 => {
            proof {
                reveal_strlit("d");
            }
            "d"
        },
        14 => {
            proof {
                reveal_strlit("e");
            }
            "e"
        },
        _ => {
            proof {
                reveal_strlit("f");
            }
            "f"
        },
    }
}

/// A byte as `{:#04x}` writes it: "0x" followed by two lower-case
/// hexadecimal digits.
pub(crate) fn hex_byte(b: u8) -> (s: String)
    ensures
        s@ == hex_byte_text(b),
{
    let mut s = String::from_str("0x");
    proof {
        reveal_strlit("0x");
    }
    s.append(digit_str(b / 16));
    s.append(digit_str(b % 16));
    assert(s@ =~= hex_byte_text(b));
    s
}

/// An integer as `{}` writes it: its decimal digits without leading zeros.
pub(crate) fn decimal(n: u64) -> (s: String)
    ensures
        s@ == decimal_text(n as nat),
    decreases n,
{
    if n < 10 {
        String::from_str(digit_str(n as u8))
    } else {
        let mut s = decimal(n / 10);
        s.append(digit_str((n % 10) as u8));
        s
    }
}

} // verus!
