//! rANS (range Asymmetric Numeral Systems) entropy coder.
//!
//! State x lies in [L, bL) with L = TABLE_SIZE = 2^TABLE_LOG and b = 256.
//! The encoder runs backwards over the input, renormalising by emitting the
//! low byte of x while x >= 256 * f(s), then applying
//! x = (x / f(s)) * L + c(s) + x % f(s). The final state is appended as
//! eight bytes and the whole byte stream is reversed, so the decoder reads
//! it forwards: it takes the state from the first eight bytes, then for each
//! symbol looks the slot x % L up, steps x = f(s) * (x / L) + slot - c(s),
//! and refills x with the next byte while x < L.

use vstd::prelude::*;

use crate::bytes::{get_le16, get_le32, le16, le32, push_le16, push_le32, read_le16, read_le32};
use crate::error::AxcError;
use vstd::arithmetic::power2::{lemma2_to64, lemma_pow2_adds, lemma_pow2_strictly_increases, pow2};

verus! {

pub const TABLE_LOG: u32 = 11;

/// L = 2^TABLE_LOG.
pub const TABLE_SIZE: u32 = 2048;

const MAX_SYM: usize = 256;

// ── Frequencies ───────────────────────────────────────────────────────────────

/// Number of occurrences of `s` in `data`.
pub open spec fn occurrences(data: Seq<u8>, s: u8) -> nat
    decreases data.len(),
{
    if data.len() == 0 {
        0
    } else {
        occurrences(data.drop_last(), s) + if data.last() == s { 1nat } else { 0nat }
    }
}

/// Sum of the first `n` entries of `s`.
pub open spec fn sum_prefix(s: Seq<u32>, n: nat) -> nat
    decreases n,
{
    if n == 0 {
        0
    } else {
        sum_prefix(s, (n - 1) as nat) + s[n - 1] as nat
    }
}

/// Sum of a frequency table of 256 entries.
pub open spec fn freq_sum(f: Seq<u32>) -> nat {
    sum_prefix(f, 256)
}

/// Counts the occurrences of each byte value.
pub fn count_freq(data: &[u8]) -> (f: [u32; 256])
    requires
        data@.len() <= u32::MAX,
    ensures
        forall|s: u8| #[trigger] f@[s as int] == occurrences(data@, s),
{
    let mut f = [0u32; 256];
    let mut i: usize = 0;
    while i < data.len()
        invariant
            i <= data@.len(),
            data@.len() <= u32::MAX,
            forall|s: u8| #[trigger] f@[s as int] == occurrences(data@.take(i as int), s),
            forall|s: u8| #[trigger] f@[s as int] <= i,
        decreases data@.len() - i,
    {
        let b = data[i];
        proof {
            assert(data@.take(i + 1).drop_last() =~= data@.take(i as int));
            assert(data@.take(i + 1).last() == b);
        }
        let old_f = f;
        f[b as usize] = f[b as usize] + 1;
        assert forall|s: u8| #[trigger] f@[s as int] == occurrences(data@.take(i + 1), s) by {
            if s != b {
                assert(f@[s as int] == old_f@[s as int]);
            }
        }
        assert forall|s: u8| #[trigger] f@[s as int] <= i + 1 by {
            if s != b {
                assert(f@[s as int] == old_f@[s as int]);
            }
        }
        i = i + 1;
    }
    assert(data@.take(data@.len() as int) =~= data@);
    f
}

// ── Normalisation ─────────────────────────────────────────────────────────────

/// The share of symbol `i` scaled to the table size: max(1, raw[i] * L / total).
pub open spec fn floor_share(raw: Seq<u32>, i: int) -> nat {
    let q = (raw[i] as nat * 2048) / freq_sum(raw);
    if q >= 1 { q } else { 1 }
}

/// What the scaling of symbol `i` left over: raw[i] * L mod total.
pub open spec fn share_rem(raw: Seq<u32>, i: int) -> nat {
    (raw[i] as nat * 2048) % freq_sum(raw)
}

/// Sum of the floor shares of the present symbols among the first `n`.
pub open spec fn assigned_prefix(raw: Seq<u32>, n: nat) -> nat
    decreases n,
{
    if n == 0 {
        0
    } else {
        assigned_prefix(raw, (n - 1) as nat) + if raw[n - 1] > 0 {
            floor_share(raw, n - 1)
        } else {
            0
        }
    }
}

pub open spec fn assigned(raw: Seq<u32>) -> nat {
    assigned_prefix(raw, 256)
}

/// Symbol `j` comes before symbol `i` when the deficit is handed out:
/// larger remainder first, ties by smaller index.
pub open spec fn ahead_desc(raw: Seq<u32>, j: int, i: int) -> bool {
    raw[j] > 0 && (share_rem(raw, j) > share_rem(raw, i) || (share_rem(raw, j) == share_rem(raw, i)
        && j < i))
}

/// Symbol `j` comes before symbol `i` when the excess is taken back:
/// smaller remainder first, ties by smaller index.
pub open spec fn ahead_asc(raw: Seq<u32>, j: int, i: int) -> bool {
    raw[j] > 0 && (share_rem(raw, j) < share_rem(raw, i) || (share_rem(raw, j) == share_rem(raw, i)
        && j < i))
}

/// Number of symbols among the first `n` ahead of `i` in the deficit order.
pub open spec fn rank_desc(raw: Seq<u32>, i: int, n: nat) -> nat
    decreases n,
{
    if n == 0 {
        0
    } else {
        rank_desc(raw, i, (n - 1) as nat) + if ahead_desc(raw, n - 1, i) { 1nat } else { 0nat }
    }
}

/// Number of symbols among the first `n` ahead of `i` in the excess order
/// whose floor share can still give one up.
pub open spec fn reducible_ahead(raw: Seq<u32>, i: int, n: nat) -> nat
    decreases n,
{
    if n == 0 {
        0
    } else {
        reducible_ahead(raw, i, (n - 1) as nat) + if ahead_asc(raw, n - 1, i) && floor_share(
            raw,
            n - 1,
        ) > 1 {
            1nat
        } else {
            0nat
        }
    }
}

/// The normalised frequency of symbol `i`: its floor share, plus one for the
/// first (L - assigned) symbols in the deficit order when the floor shares
/// fall short of L, or minus one for the first (assigned - L) symbols in the
/// excess order whose share exceeds one when they overshoot L.
pub open spec fn normalised(raw: Seq<u32>, i: int) -> nat {
    let a = assigned(raw);
    if freq_sum(raw) == 0 || raw[i] == 0 {
        0
    } else if a < 2048 {
        floor_share(raw, i) + if rank_desc(raw, i, 256) < 2048 - a { 1nat } else { 0nat }
    } else if a > 2048 {
        if floor_share(raw, i) > 1 && reducible_ahead(raw, i, 256) < a - 2048 {
            (floor_share(raw, i) - 1) as nat
        } else {
            floor_share(raw, i)
        }
    } else {
        floor_share(raw, i)
    }
}

proof fn lemma_sum_prefix_mono(s: Seq<u32>, m: nat, n: nat)
    requires
        m <= n,
    ensures
        sum_prefix(s, m) <= sum_prefix(s, n),
    decreases n,
{
    if m < n {
        lemma_sum_prefix_mono(s, m, (n - 1) as nat);
    }
}

proof fn lemma_sum_prefix_bound(s: Seq<u32>, n: nat)
    ensures
        sum_prefix(s, n) <= n * 0xFFFF_FFFF,
    decreases n,
{
    if n > 0 {
        lemma_sum_prefix_bound(s, (n - 1) as nat);
    }
}

proof fn lemma_entry_le_sum(s: Seq<u32>, i: int, n: nat)
    requires
        0 <= i < n,
    ensures
        s[i] <= sum_prefix(s, n),
    decreases n,
{
    if i < n - 1 {
        lemma_entry_le_sum(s, i, (n - 1) as nat);
    } else {
        lemma_sum_prefix_mono(s, (n - 1) as nat, (n - 1) as nat);
    }
}

proof fn lemma_floor_share_bound(raw: Seq<u32>, i: int)
    requires
        0 <= i < 256,
        raw.len() == 256,
        freq_sum(raw) > 0,
    ensures
        1 <= floor_share(raw, i) <= 2048,
        share_rem(raw, i) < freq_sum(raw),
{
    let t = freq_sum(raw);
    lemma_entry_le_sum(raw, i, 256);
    let e = raw[i] as nat * 2048;
    assert(e <= t * 2048) by (nonlinear_arith)
        requires
            raw[i] <= t,
            e == raw[i] as nat * 2048,
    ;
    assert(e / t <= 2048) by (nonlinear_arith)
        requires
            e <= t * 2048,
            t > 0,
    ;
}

proof fn lemma_assigned_bound(raw: Seq<u32>, n: nat)
    requires
        n <= 256,
        raw.len() == 256,
        freq_sum(raw) > 0,
    ensures
        assigned_prefix(raw, n) <= n * 2048,
    decreases n,
{
    if n > 0 {
        lemma_assigned_bound(raw, (n - 1) as nat);
        lemma_floor_share_bound(raw, n - 1);
    }
}

proof fn lemma_count_bound_desc(raw: Seq<u32>, i: int, n: nat)
    ensures
        rank_desc(raw, i, n) <= n,
    decreases n,
{
    if n > 0 {
        lemma_count_bound_desc(raw, i, (n - 1) as nat);
    }
}

proof fn lemma_count_bound_asc(raw: Seq<u32>, i: int, n: nat)
    ensures
        reducible_ahead(raw, i, n) <= n,
    decreases n,
{
    if n > 0 {
        lemma_count_bound_asc(raw, i, (n - 1) as nat);
    }
}

/// Scales symbol counts so that they sum to TABLE_SIZE, keeping every
/// present symbol at least at one: floor shares, the deficit or excess
/// handed out once per symbol by remainder, then any slot still over or
/// short of L taken from or given to the largest entry.
pub fn normalise(raw: &[u32; 256]) -> (norm: [u32; 256])
    ensures
        norm@ == normalised_table(raw@),
        freq_sum(raw@) > 0 ==> freq_sum(norm@) == 2048,
        forall|i: int| 0 <= i < 256 ==> (#[trigger] raw@[i] > 0 <==> norm@[i] > 0),
        forall|i: int| 0 <= i < 256 ==> #[trigger] norm@[i] <= 2048,
{
    let ghost r = raw@;
    // total
    let mut total: u64 = 0;
    let mut i: usize = 0;
    while i < MAX_SYM
        invariant
            i <= 256,
            r == raw@,
            r.len() == 256,
            total == sum_prefix(r, i as nat),
        decreases 256 - i,
    {
        proof {
            lemma_sum_prefix_bound(r, (i + 1) as nat);
        }
        total = total + raw[i] as u64;
        i = i + 1;
    }
    if total == 0 {
        let zeros = [0u32; 256];
        proof {
            assert forall|i: int| 0 <= i < 256 implies r[i] == 0 by {
                lemma_entry_le_sum(r, i, 256);
            }
            lemma_normalised_table(r);
            assert(zeros@ =~= normalised_table(r));
        }
        return zeros;
    }
    // floor shares and remainders
    let mut norm = [0u32; 256];
    let mut rem = [0u64; 256];
    let mut assigned_sum: u32 = 0;
    i = 0;
    while i < MAX_SYM
        invariant
            i <= 256,
            r == raw@,
            r.len() == 256,
            total == freq_sum(r),
            total > 0,
            assigned_sum == assigned_prefix(r, i as nat),
            assigned_sum <= i * 2048,
            forall|j: int|
                0 <= j < i ==> #[trigger] norm@[j] == (if r[j] > 0 {
                    floor_share(r, j)
                } else {
                    0
                }),
            forall|j: int| 0 <= j < i ==> r[j] > 0 ==> #[trigger] rem@[j] == share_rem(r, j),
            forall|j: int| i <= j < 256 ==> #[trigger] norm@[j] == 0,
        decreases 256 - i,
    {
        let rv = raw[i];
        if rv != 0 {
            proof {
                lemma_floor_share_bound(r, i as int);
            }
            let exact: u64 = rv as u64 * 2048;
            let q = exact / total;
            let floor: u32 = if q >= 1 { q as u32 } else { 1 };
            norm[i] = floor;
            rem[i] = exact % total;
            assigned_sum = assigned_sum + floor;
        }
        i = i + 1;
    }
    let need: u32 = TABLE_SIZE;
    let floor_arr = norm;
    let ghost floors = norm@;
    let ghost rems = rem@;
    if assigned_sum < need {
        let deficit: u32 = need - assigned_sum;
        i = 0;
        while i < MAX_SYM
            invariant
                i <= 256,
                r == raw@,
                r.len() == 256,
                total == freq_sum(r),
                total > 0,
                assigned_sum == assigned(r),
                assigned_sum < 2048,
                deficit == 2048 - assigned_sum,
                rems == rem@,
                forall|j: int| 0 <= j < 256 ==> r[j] > 0 ==> #[trigger] rems[j] == share_rem(r, j),
                forall|j: int|
                    0 <= j < 256 ==> #[trigger] floors[j] == (if r[j] > 0 {
                        floor_share(r, j)
                    } else {
                        0
                    }),
                forall|j: int| 0 <= j < i ==> #[trigger] norm@[j] == normalised(r, j),
                forall|j: int| i <= j < 256 ==> #[trigger] norm@[j] == floors[j],
            decreases 256 - i,
        {
            if raw[i] != 0 {
                let ri = rem[i];
                let mut rank: u32 = 0;
                let mut j: usize = 0;
                while j < MAX_SYM
                    invariant
                        j <= 256,
                        i < 256,
                        r == raw@,
                        r.len() == 256,
                        r[i as int] > 0,
                        rems == rem@,
                        ri == share_rem(r, i as int),
                        forall|k: int|
                            0 <= k < 256 ==> r[k] > 0 ==> #[trigger] rems[k] == share_rem(r, k),
                        rank == rank_desc(r, i as int, j as nat),
                        rank <= j,
                    decreases 256 - j,
                {
                    let rj = rem[j];
                    if raw[j] != 0 && (rj > ri || (rj == ri && j < i)) {
                        rank = rank + 1;
                    }
                    j = j + 1;
                }
                if rank < deficit {
                    proof {
                        lemma_floor_share_bound(r, i as int);
                    }
                    norm[i] = norm[i] + 1;
                }
            }
            i = i + 1;
        }
    } else if assigned_sum > need {
        let excess: u32 = assigned_sum - need;
        i = 0;
        while i < MAX_SYM
            invariant
                i <= 256,
                r == raw@,
                r.len() == 256,
                total == freq_sum(r),
                total > 0,
                assigned_sum == assigned(r),
                assigned_sum > 2048,
                excess == assigned_sum - 2048,
                rems == rem@,
                floors == floor_arr@,
                forall|j: int| 0 <= j < 256 ==> r[j] > 0 ==> #[trigger] rems[j] == share_rem(r, j),
                forall|j: int|
                    0 <= j < 256 ==> #[trigger] floors[j] == (if r[j] > 0 {
                        floor_share(r, j)
                    } else {
                        0
                    }),
                forall|j: int| 0 <= j < i ==> #[trigger] norm@[j] == normalised(r, j),
                forall|j: int| i <= j < 256 ==> #[trigger] norm@[j] == floors[j],
            decreases 256 - i,
        {
            if raw[i] != 0 && norm[i] > 1 {
                let ri = rem[i];
                let mut ahead: u32 = 0;
                let mut j: usize = 0;
                while j < MAX_SYM
                    invariant
                        j <= 256,
                        i < 256,
                        r == raw@,
                        r.len() == 256,
                        total == freq_sum(r),
                        total > 0,
                        r[i as int] > 0,
                        rems == rem@,
                        ri == share_rem(r, i as int),
                        forall|k: int|
                            0 <= k < 256 ==> r[k] > 0 ==> #[trigger] rems[k] == share_rem(r, k),
                        forall|k: int|
                            0 <= k < 256 ==> #[trigger] floors[k] == (if r[k] > 0 {
                                floor_share(r, k)
                            } else {
                                0
                            }),
                        floors == floor_arr@,
                        ahead == reducible_ahead(r, i as int, j as nat),
                        ahead <= j,
                    decreases 256 - j,
                {
                    let rj = rem[j];
                    if raw[j] != 0 && (rj < ri || (rj == ri && j < i)) && floor_arr[j] > 1 {
                        ahead = ahead + 1;
                    }
                    j = j + 1;
                }
                if ahead < excess {
                    norm[i] = norm[i] - 1;
                }
            }
            i = i + 1;
        }
    }
    assert(norm@ =~= first_pass_table(r));
    proof {
        lemma_normalised_table(r);
        assert forall|i: int| 0 <= i < 256 implies #[trigger] norm@[i] <= 2049 by {
            lemma_normalised_entry(r, i);
        }
    }
    settle_table(&mut norm);
    norm
}

/// Brings the table's sum to L as `settle` does.
fn settle_table(norm: &mut [u32; 256])
    requires
        freq_sum(old(norm)@) > 0,
        forall|i: int| 0 <= i < 256 ==> #[trigger] old(norm)@[i] <= 2049,
    ensures
        final(norm)@ == settle(old(norm)@, sum_gap(old(norm)@)),
{
    let ghost target = settle(norm@, sum_gap(norm@));
    let mut sum: u32 = 0;
    let mut i: usize = 0;
    while i < MAX_SYM
        invariant
            i <= 256,
            norm@.len() == 256,
            forall|k: int| 0 <= k < 256 ==> #[trigger] norm@[k] <= 2049,
            sum == sum_prefix(norm@, i as nat),
            sum <= i * 2049,
        decreases 256 - i,
    {
        sum = sum + norm[i];
        i = i + 1;
    }
    while sum != 2048
        invariant
            norm@.len() == 256,
            sum == freq_sum(norm@),
            sum > 0,
            sum <= 256 * 2049,
            settle(norm@, sum_gap(norm@)) == target,
        decreases sum_gap(norm@),
    {
        let mut m: usize = 0;
        let mut j: usize = 1;
        while j < MAX_SYM
            invariant
                1 <= j <= 256,
                m < j,
                norm@.len() == 256,
                m == largest_index(norm@, j as nat),
            decreases 256 - j,
        {
            if norm[j] > norm[m] {
                m = j;
            }
            j = j + 1;
        }
        proof {
            lemma_largest_index(norm@, 256);
        }
        let ghost before = norm@;
        if sum > 2048 {
            assert(before[m as int] >= 2) by (nonlinear_arith)
                requires
                    sum > 2048,
                    sum <= 256 * before[m as int],
            ;
            norm[m] = norm[m] - 1;
            proof {
                lemma_sum_update(before, 256, m as int, (before[m as int] - 1) as u32);
                assert(norm@ == before.update(m as int, (before[m as int] - 1) as u32));
            }
            sum = sum - 1;
        } else {
            proof {
                lemma_entry_le_sum(before, m as int, 256);
            }
            norm[m] = norm[m] + 1;
            proof {
                lemma_sum_update(before, 256, m as int, (before[m as int] + 1) as u32);
                assert(norm@ == before.update(m as int, (before[m as int] + 1) as u32));
            }
            sum = sum + 1;
        }
    }
}

// ── CDF + alias lookup ────────────────────────────────────────────────────────

/// The symbol whose slot range [cdf(s), cdf(s+1)) holds `slot`, searching
/// from `s`; zero when no range holds it.
pub open spec fn alias_from(freq: Seq<u32>, slot: nat, s: nat) -> nat
    decreases 256 - s,
{
    if s >= 256 {
        0
    } else if slot < sum_prefix(freq, s + 1) {
        s
    } else {
        alias_from(freq, slot, s + 1)
    }
}

/// The symbol the decoder reads off slot `slot`.
pub open spec fn alias_symbol(freq: Seq<u32>, slot: nat) -> nat {
    alias_from(freq, slot, 0)
}

/// Every entry of the table fits in sixteen bits.
pub open spec fn freq_entries_small(freq: Seq<u32>) -> bool {
    forall|i: int| 0 <= i < 256 ==> #[trigger] freq[i] <= 0xFFFF
}

proof fn lemma_sum_small(freq: Seq<u32>, n: nat)
    requires
        freq_entries_small(freq),
        n <= 256,
    ensures
        sum_prefix(freq, n) <= n * 0xFFFF,
    decreases n,
{
    if n > 0 {
        lemma_sum_small(freq, (n - 1) as nat);
    }
}

fn build_cdf(freq: &[u32; 256]) -> (c: [u32; 257])
    requires
        freq_entries_small(freq@),
    ensures
        forall|s: int| 0 <= s <= 256 ==> #[trigger] c@[s] == sum_prefix(freq@, s as nat),
{
    let mut c = [0u32; 257];
    let mut i: usize = 0;
    while i < MAX_SYM
        invariant
            i <= 256,
            freq_entries_small(freq@),
            forall|s: int| 0 <= s <= i ==> #[trigger] c@[s] == sum_prefix(freq@, s as nat),
        decreases 256 - i,
    {
        proof {
            lemma_sum_small(freq@, (i + 1) as nat);
        }
        c[i + 1] = c[i] + freq[i];
        i = i + 1;
    }
    c
}

proof fn lemma_alias_in_range(freq: Seq<u32>, slot: nat, t: nat, k: nat)
    requires
        t < 256,
        k <= t,
        sum_prefix(freq, t) <= slot < sum_prefix(freq, t + 1),
    ensures
        alias_from(freq, slot, k) == t,
    decreases t - k,
{
    if k < t {
        lemma_sum_prefix_mono(freq, k + 1, t);
        lemma_alias_in_range(freq, slot, t, k + 1);
    }
}

proof fn lemma_alias_beyond(freq: Seq<u32>, slot: nat, k: nat)
    requires
        k <= 256,
        slot >= sum_prefix(freq, 256),
    ensures
        alias_from(freq, slot, k) == 0,
    decreases 256 - k,
{
    if k < 256 {
        lemma_sum_prefix_mono(freq, k + 1, 256);
        lemma_alias_beyond(freq, slot, k + 1);
    }
}

fn build_alias(freq: &[u32; 256]) -> (a: Vec<u8>)
    requires
        freq_sum(freq@) <= 2048,
    ensures
        a@.len() == 2048,
        forall|p: int| 0 <= p < 2048 ==> #[trigger] a@[p] as nat == alias_symbol(freq@, p as nat),
{
    let mut a: Vec<u8> = vec![0u8; 2048];
    let mut pos: u32 = 0;
    let mut s: usize = 0;
    while s < MAX_SYM
        invariant
            s <= 256,
            a@.len() == 2048,
            freq_sum(freq@) <= 2048,
            pos == sum_prefix(freq@, s as nat),
            forall|p: int| 0 <= p < pos ==> #[trigger] a@[p] as nat == alias_symbol(freq@, p as nat),
            forall|p: int| pos <= p < 2048 ==> #[trigger] a@[p] == 0,
        decreases 256 - s,
    {
        proof {
            lemma_sum_prefix_mono(freq@, (s + 1) as nat, 256);
        }
        let fs = freq[s];
        let mut k: u32 = 0;
        while k < fs
            invariant
                s < 256,
                k <= fs,
                fs == freq@[s as int],
                a@.len() == 2048,
                sum_prefix(freq@, (s + 1) as nat) <= 2048,
                pos == sum_prefix(freq@, s as nat) + k,
                forall|p: int|
                    0 <= p < pos ==> #[trigger] a@[p] as nat == alias_symbol(freq@, p as nat),
                forall|p: int| pos <= p < 2048 ==> #[trigger] a@[p] == 0,
            decreases fs - k,
        {
            proof {
                lemma_alias_in_range(freq@, pos as nat, s as nat, 0);
            }
            a.set(pos as usize, s as u8);
            pos = pos + 1;
            k = k + 1;
        }
        s = s + 1;
    }
    proof {
        assert forall|p: int| 0 <= p < 2048 implies #[trigger] a@[p] as nat == alias_symbol(
            freq@,
            p as nat,
        ) by {
            if p >= pos {
                lemma_alias_beyond(freq@, p as nat, 0);
            }
        }
    }
    a
}

// ── Freq header ───────────────────────────────────────────────────────────────

/// Bits 0..n of presence-bitmap byte `j`: bit b is set when symbol 8j+b is
/// present.
pub open spec fn bitmap_bits(freq: Seq<u32>, j: int, n: nat) -> u8
    decreases n,
{
    if n == 0 {
        0
    } else {
        bitmap_bits(freq, j, (n - 1) as nat) | if freq[8 * j + n - 1] > 0 {
            (1u8 << ((n - 1) as u8))
        } else {
            0u8
        }
    }
}

/// The 32-byte presence bitmap.
pub open spec fn freq_bitmap(freq: Seq<u32>) -> Seq<u8> {
    Seq::new(32, |j: int| bitmap_bits(freq, j, 8))
}

/// The sixteen-bit little-endian frequencies of the present symbols among
/// the first `n`, in symbol order.
pub open spec fn freq_entries(freq: Seq<u32>, n: nat) -> Seq<u8>
    decreases n,
{
    if n == 0 {
        seq![]
    } else {
        freq_entries(freq, (n - 1) as nat) + if freq[n - 1] > 0 {
            le16(freq[n - 1] as u16)
        } else {
            seq![]
        }
    }
}

/// The serialised frequency header: bitmap, then the present frequencies.
pub open spec fn freq_header(freq: Seq<u32>) -> Seq<u8> {
    freq_bitmap(freq) + freq_entries(freq, 256)
}

proof fn lemma_bitmap_step(old_byte: u8, n: u8, set: bool)
    requires
        n < 8,
    ensures
        (if set { old_byte | (1u8 << n) } else { old_byte }) == (old_byte | if set {
            1u8 << n
        } else {
            0u8
        }),
{
    assert(old_byte | 0u8 == old_byte) by (bit_vector);
}

fn ser_freq(freq: &[u32; 256]) -> (out: Vec<u8>)
    ensures
        out@ == freq_header(freq@),
{
    let mut bmap = [0u8; 32];
    let mut i: usize = 0;
    while i < MAX_SYM
        invariant
            i <= 256,
            forall|j: int|
                0 <= j < 32 ==> #[trigger] bmap@[j] == bitmap_bits(
                    freq@,
                    j,
                    (if i <= 8 * j {
                        0
                    } else if i >= 8 * j + 8 {
                        8
                    } else {
                        i - 8 * j
                    }) as nat,
                ),
        decreases 256 - i,
    {
        let jj = i / 8;
        let n = i % 8;
        assert(i >> 3 == i / 8 && i & 7 == i % 8) by (bit_vector);
        let ghost old_b = bmap@;
        if freq[i] > 0 {
            bmap[i >> 3] = bmap[i >> 3] | (1u8 << (i & 7));
        }
        proof {
            lemma_bitmap_step(old_b[jj as int], n as u8, freq@[i as int] > 0);
            assert(8 * jj + n == i);
            assert forall|j: int| 0 <= j < 32 implies #[trigger] bmap@[j] == bitmap_bits(
                freq@,
                j,
                (if i + 1 <= 8 * j {
                    0
                } else if i + 1 >= 8 * j + 8 {
                    8
                } else {
                    i + 1 - 8 * j
                }) as nat,
            ) by {
                if j != jj {
                    assert(bmap@[j] == old_b[j]);
                }
            }
        }
        i = i + 1;
    }
    let mut out: Vec<u8> = Vec::with_capacity(32 + 512);
    let mut j: usize = 0;
    while j < 32
        invariant
            j <= 32,
            out@ =~= freq_bitmap(freq@).take(j as int),
            forall|k: int| 0 <= k < 32 ==> #[trigger] bmap@[k] == bitmap_bits(freq@, k, 8),
        decreases 32 - j,
    {
        out.push(bmap[j]);
        j = j + 1;
    }
    i = 0;
    while i < MAX_SYM
        invariant
            i <= 256,
            out@ =~= freq_bitmap(freq@) + freq_entries(freq@, i as nat),
        decreases 256 - i,
    {
        if freq[i] > 0 {
            push_le16(&mut out, freq[i] as u16);
        }
        i = i + 1;
    }
    out
}

/// Whether bit `i` of the presence bitmap at the start of `data` is set.
pub open spec fn bitmap_bit(data: Seq<u8>, i: int) -> bool {
    data[i / 8] & (1u8 << ((i % 8) as u8)) != 0
}

/// Parses the frequencies of symbols i..256 with the next entry at `pos`:
/// the frequencies and the position after the header, or the message of the
/// failure.
pub open spec fn deser_from(data: Seq<u8>, i: nat, pos: nat) -> Result<(Seq<u32>, nat), Seq<char>>
    decreases 256 - i,
{
    if i >= 256 {
        Ok((seq![], pos))
    } else if bitmap_bit(data, i as int) {
        if pos + 2 > data.len() {
            Err("freq hdr truncated"@)
        } else {
            match deser_from(data, i + 1, pos + 2) {
                Ok((rest, p)) => Ok((seq![get_le16(data, pos as int) as u32] + rest, p)),
                Err(m) => Err(m),
            }
        }
    } else {
        match deser_from(data, i + 1, pos) {
            Ok((rest, p)) => Ok((seq![0u32] + rest, p)),
            Err(m) => Err(m),
        }
    }
}

/// Parses a frequency header.
pub open spec fn spec_deser_freq(data: Seq<u8>) -> Result<(Seq<u32>, nat), Seq<char>> {
    if data.len() < 32 {
        Err("freq hdr short"@)
    } else {
        deser_from(data, 0, 32)
    }
}

/// `done` followed by what `deser_from` makes of the rest.
pub open spec fn deser_joined(done: Seq<u32>, r: Result<(Seq<u32>, nat), Seq<char>>) -> Result<(Seq<u32>, nat), Seq<char>> {
    match r {
        Ok((rest, p)) => Ok((done + rest, p)),
        Err(m) => Err(m),
    }
}

fn deser_freq(data: &[u8]) -> (res: Result<([u32; 256], usize), AxcError>)
    ensures
        match spec_deser_freq(data@) {
            Ok((f, p)) => res matches Ok((freq, pos)) && freq@ == f && pos == p,
            Err(m) => res matches Err(AxcError::CodecError(msg)) && msg@ == m,
        },
        res matches Ok((freq, pos)) ==> freq_entries_small(freq@) && 32 <= pos <= data@.len(),
{
    if data.len() < 32 {
        return Err(AxcError::CodecError("freq hdr short".to_owned()));
    }
    let mut freq = [0u32; 256];
    let mut pos: usize = 32;
    let mut i: usize = 0;
    while i < MAX_SYM
        invariant
            i <= 256,
            32 <= pos <= data@.len(),
            data@.len() >= 32,
            deser_from(data@, 0, 32) == deser_joined(freq@.take(i as int), deser_from(data@, i as nat, pos as nat)),
            forall|k: int| 0 <= k < i ==> #[trigger] freq@[k] <= 0xFFFF,
            forall|k: int| i <= k < 256 ==> #[trigger] freq@[k] == 0,
        decreases 256 - i,
    {
        assert(i >> 3 == i / 8 && i & 7 == i % 8 && i / 8 < 32) by (bit_vector)
            requires i < 256;
        let ghost old_f = freq@;
        let ghost old_pos = pos;
        let bit: u8 = 1u8 << ((i & 7) as u8);
        assert(bit == 1u8 << ((i % 8) as u8));
        if data[i >> 3] & bit != 0 {
            if data.len() - pos < 2 {
                return Err(AxcError::CodecError("freq hdr truncated".to_owned()));
            }
            let v = read_le16(data, pos);
            freq[i] = v as u32;
            pos = pos + 2;
            proof {
                assert(freq@.take(i + 1) =~= old_f.take(i as int) + seq![v as u32]);
                match deser_from(data@, (i + 1) as nat, pos as nat) {
                    Ok((rest, p)) => {
                        assert(old_f.take(i as int) + (seq![v as u32] + rest) =~= freq@.take(i + 1)
                            + rest);
                    },
                    Err(_) => {},
                }
            }
        } else {
            proof {
                assert(freq@.take(i + 1) =~= old_f.take(i as int) + seq![0u32]);
                match deser_from(data@, (i + 1) as nat, pos as nat) {
                    Ok((rest, p)) => {
                        assert(old_f.take(i as int) + (seq![0u32] + rest) =~= freq@.take(i + 1)
                            + rest);
                    },
                    Err(_) => {},
                }
            }
        }
        i = i + 1;
    }
    proof {
        assert(freq@.take(256) =~= freq@);
        assert(freq@.take(256) + seq![] =~= freq@);
    }
    Ok((freq, pos))
}

// ── Encode ────────────────────────────────────────────────────────────────────

/// The symbol counts of `input` as a table.
pub open spec fn count_table(input: Seq<u8>) -> Seq<u32> {
    Seq::new(256, |s: int| occurrences(input, s as u8) as u32)
}

/// The table after the rounding pass: each present symbol's floor share,
/// with the deficit handed out or the excess taken back once per symbol.
pub open spec fn first_pass_table(raw: Seq<u32>) -> Seq<u32> {
    Seq::new(256, |i: int| normalised(raw, i) as u32)
}

/// The index of the largest of the first `n` entries (the first of equals).
pub open spec fn largest_index(s: Seq<u32>, n: nat) -> nat
    decreases n,
{
    if n <= 1 {
        0
    } else {
        let m = largest_index(s, (n - 1) as nat);
        if s[n - 1] > s[m as int] {
            (n - 1) as nat
        } else {
            m
        }
    }
}

/// How far a table's sum is from L (nothing to do for an empty table).
pub open spec fn sum_gap(s: Seq<u32>) -> nat {
    if freq_sum(s) == 0 {
        0
    } else if freq_sum(s) > 2048 {
        (freq_sum(s) - 2048) as nat
    } else {
        (2048 - freq_sum(s)) as nat
    }
}

/// Brings the sum of a table to L one slot at a time: each slot over L is
/// taken from, and each slot short of L given to, the largest entry.
pub open spec fn settle(s: Seq<u32>, steps: nat) -> Seq<u32>
    decreases steps,
{
    if steps == 0 {
        s
    } else {
        let m = largest_index(s, 256) as int;
        let t = if freq_sum(s) > 2048 {
            s.update(m, (s[m] - 1) as u32)
        } else {
            s.update(m, (s[m] + 1) as u32)
        };
        settle(t, (steps - 1) as nat)
    }
}

/// The normalised table of `raw`: the rounding pass, then settled to L.
pub open spec fn normalised_table(raw: Seq<u32>) -> Seq<u32> {
    settle(first_pass_table(raw), sum_gap(first_pass_table(raw)))
}

proof fn lemma_largest_index(s: Seq<u32>, n: nat)
    requires
        1 <= n <= s.len(),
    ensures
        largest_index(s, n) < n,
        forall|k: int| 0 <= k < n ==> #[trigger] s[k] <= s[largest_index(s, n) as int],
        sum_prefix(s, n) <= n * s[largest_index(s, n) as int],
    decreases n,
{
    if n > 1 {
        lemma_largest_index(s, (n - 1) as nat);
        let m = largest_index(s, (n - 1) as nat);
        let mm = largest_index(s, n);
        assert(s[m as int] <= s[mm as int] && s[n - 1] <= s[mm as int]);
        let a = s[m as int] as int;
        let b = s[mm as int] as int;
        let k = (n - 1) as int;
        assert(k * a <= k * b) by (nonlinear_arith)
            requires
                a <= b,
                k >= 1,
        ;
        assert(sum_prefix(s, n) == sum_prefix(s, (n - 1) as nat) + s[n - 1]);
        assert(k * b + b == n * b) by (nonlinear_arith)
            requires
                k == n - 1,
        ;
    } else {
        assert(sum_prefix(s, 1) == sum_prefix(s, 0) + s[0]);
    }
}

proof fn lemma_sum_update(s: Seq<u32>, n: nat, m: int, v: u32)
    requires
        0 <= m < s.len(),
        n <= s.len(),
    ensures
        sum_prefix(s.update(m, v), n) == sum_prefix(s, n) + (if m < n {
            v - s[m]
        } else {
            0
        }),
    decreases n,
{
    if n > 0 {
        lemma_sum_update(s, (n - 1) as nat, m, v);
    }
}

proof fn lemma_settle(s: Seq<u32>, steps: nat)
    requires
        s.len() == 256,
        freq_sum(s) > 0,
        steps == sum_gap(s),
    ensures
        settle(s, steps).len() == 256,
        freq_sum(settle(s, steps)) == 2048,
        forall|i: int| 0 <= i < 256 ==> (#[trigger] settle(s, steps)[i] > 0) == (s[i] > 0),
        forall|i: int| 0 <= i < 256 ==> #[trigger] settle(s, steps)[i] <= 2048,
    decreases steps,
{
    if steps == 0 {
        assert forall|i: int| 0 <= i < 256 implies #[trigger] s[i] <= 2048 by {
            lemma_entry_le_sum(s, i, 256);
        }
    } else {
        lemma_largest_index(s, 256);
        let m = largest_index(s, 256) as int;
        if freq_sum(s) > 2048 {
            assert(s[m] >= 2) by (nonlinear_arith)
                requires
                    freq_sum(s) > 2048,
                    freq_sum(s) <= 256 * s[m],
            ;
            let t = s.update(m, (s[m] - 1) as u32);
            lemma_sum_update(s, 256, m, (s[m] - 1) as u32);
            lemma_settle(t, (steps - 1) as nat);
        } else {
            assert(s[m] >= 1) by (nonlinear_arith)
                requires
                    freq_sum(s) > 0,
                    freq_sum(s) <= 256 * s[m],
            ;
            lemma_entry_le_sum(s, m, 256);
            let t = s.update(m, (s[m] + 1) as u32);
            lemma_sum_update(s, 256, m, (s[m] + 1) as u32);
            lemma_settle(t, (steps - 1) as nat);
        }
    }
}

/// The normalised table of a nonempty count table fills exactly L = 2048
/// slots, keeps every present symbol and only those, and no entry exceeds
/// L; an empty count table normalises to zeros.
pub proof fn lemma_normalised_table(raw: Seq<u32>)
    requires
        raw.len() == 256,
    ensures
        normalised_table(raw).len() == 256,
        freq_sum(raw) > 0 ==> freq_sum(normalised_table(raw)) == 2048,
        forall|i: int| 0 <= i < 256 ==> (#[trigger] normalised_table(raw)[i] > 0) == (raw[i] > 0),
        forall|i: int| 0 <= i < 256 ==> #[trigger] normalised_table(raw)[i] <= 2048,
{
    let f = first_pass_table(raw);
    assert forall|i: int| 0 <= i < 256 implies (#[trigger] f[i] > 0) == (raw[i] > 0) && f[i]
        <= 2049 by {
        lemma_normalised_entry(raw, i);
    }
    if freq_sum(raw) > 0 {
        let k = choose|k: int| 0 <= k < 256 && raw[k] > 0;
        assert(exists|k: int| 0 <= k < 256 && raw[k] > 0) by {
            if forall|k: int| 0 <= k < 256 ==> raw[k] == 0 {
                lemma_sum_zero(raw, 256);
            }
        }
        lemma_entry_le_sum(f, k, 256);
        lemma_settle(f, sum_gap(f));
    } else {
        assert forall|i: int| 0 <= i < 256 implies raw[i] == 0 by {
            lemma_entry_le_sum(raw, i, 256);
        }
        lemma_sum_zero(f, 256);
        assert(sum_gap(f) == 0);
    }
}

proof fn lemma_sum_zero(s: Seq<u32>, n: nat)
    requires
        n <= s.len(),
        forall|k: int| 0 <= k < n ==> s[k] == 0,
    ensures
        sum_prefix(s, n) == 0,
    decreases n,
{
    if n > 0 {
        lemma_sum_zero(s, (n - 1) as nat);
    }
}

/// Encoder renormalisation: emit the low byte of x while x >= 256 * fs.
/// Gives the reduced state and the bytes in emission order.
pub open spec fn renorm_emit(x: nat, fs: nat) -> (nat, Seq<u8>)
    decreases x,
{
    if fs > 0 && x >= fs * 256 {
        let (xr, b) = renorm_emit(x / 256, fs);
        (xr, seq![(x % 256) as u8] + b)
    } else {
        (x, seq![])
    }
}

/// One encoding step for a symbol of frequency `fs` and cumulative
/// frequency `cs`.
pub open spec fn encode_step(x: nat, fs: nat, cs: nat) -> (nat, Seq<u8>) {
    let (xr, b) = renorm_emit(x, fs);
    ((xr / fs) * 2048 + cs + xr % fs, b)
}

/// The encoder run over `input`, last symbol first, from state L: the final
/// state and the renormalisation bytes in emission order.
pub open spec fn encode_run(freq: Seq<u32>, input: Seq<u8>) -> (nat, Seq<u8>)
    decreases input.len(),
{
    if input.len() == 0 {
        (2048, seq![])
    } else {
        let (x, e) = encode_run(freq, input.drop_first());
        let s = input[0] as int;
        let (x2, b) = encode_step(x, freq[s] as nat, sum_prefix(freq, s as nat));
        (x2, e + b)
    }
}

/// Eight bytes, most significant first.
pub open spec fn be64(v: u64) -> Seq<u8> {
    seq![
        (v >> 56u64) as u8,
        ((v >> 48u64) & 0xff) as u8,
        ((v >> 40u64) & 0xff) as u8,
        ((v >> 32u64) & 0xff) as u8,
        ((v >> 24u64) & 0xff) as u8,
        ((v >> 16u64) & 0xff) as u8,
        ((v >> 8u64) & 0xff) as u8,
        (v & 0xff) as u8,
    ]
}

/// The big-endian value of the first eight bytes.
pub open spec fn get_be64(s: Seq<u8>) -> u64 {
    ((s[0] as u64) << 56u64) | ((s[1] as u64) << 48u64) | ((s[2] as u64) << 40u64) | ((
    s[3] as u64) << 32u64) | ((s[4] as u64) << 24u64) | ((s[5] as u64) << 16u64) | ((
    s[6] as u64) << 8u64) | (s[7] as u64)
}

/// The rANS byte stream of `input`: the final state, most significant byte
/// first, followed by the renormalisation bytes in reverse emission order.
pub open spec fn ans_stream(freq: Seq<u32>, input: Seq<u8>) -> Seq<u8> {
    let (x, e) = encode_run(freq, input);
    be64(x as u64) + e.reverse()
}

/// The encoding of `input`: frequency header, u32 payload length, payload.
pub open spec fn spec_ans_encode(input: Seq<u8>) -> Seq<u8> {
    if input.len() == 0 {
        seq![]
    } else {
        let freq = normalised_table(count_table(input));
        let st = ans_stream(freq, input);
        freq_header(freq) + le32(st.len() as u32) + st
    }
}

proof fn lemma_occurs(data: Seq<u8>, k: int)
    requires
        0 <= k < data.len(),
    ensures
        occurrences(data, data[k]) > 0,
    decreases data.len(),
{
    if k < data.len() - 1 {
        lemma_occurs(data.drop_last(), k);
    }
}

proof fn lemma_renorm_emit_bound(x: nat, fs: nat)
    requires
        fs > 0,
    ensures
        renorm_emit(x, fs).0 < fs * 256,
        renorm_emit(x, fs).0 <= x,
        renorm_emit(x, fs).1.len() <= x,
    decreases x,
{
    if x >= fs * 256 {
        lemma_renorm_emit_bound(x / 256, fs);
    }
}

/// rANS-encodes `input` with its normalised byte frequencies: frequency
/// header, u32 payload length, then the payload (initial decoder state and
/// renormalisation bytes).
pub fn ans_encode(input: &[u8]) -> (out: Vec<u8>)
    requires
        input@.len() <= u32::MAX,
    ensures
        out@ == spec_ans_encode(input@),
{
    if input.len() == 0 {
        return Vec::new();
    }
    let raw = count_freq(input);
    let freq = normalise(&raw);
    assert(raw@ =~= count_table(input@));
    assert(freq@ =~= normalised_table(count_table(input@)));
    proof {
        assert forall|i: int| 0 <= i < 256 implies #[trigger] freq@[i] <= 0xFFFF by {}
    }
    let cdf = build_cdf(&freq);
    let l: u64 = TABLE_SIZE as u64;
    let mut state: u64 = l;
    let mut stream: Vec<u8> = Vec::new();
    let mut i: usize = input.len();
    proof {
        lemma_sum_small(freq@, 256);
        assert(input@.skip(input@.len() as int) =~= seq![]);
    }
    while i > 0
        invariant
            i <= input@.len(),
            l == 2048,
            freq_entries_small(freq@),
            freq_sum(freq@) <= 256 * 0xFFFF,
            forall|s: int| 0 <= s <= 256 ==> #[trigger] cdf@[s] == sum_prefix(freq@, s as nat),
            forall|k: int| 0 <= k < 256 ==> (#[trigger] raw@[k] > 0 <==> freq@[k] > 0),
            raw@ == count_table(input@),
            forall|s: u8| #[trigger] raw@[s as int] == occurrences(input@, s),
            state < 0x10_0000 + 256 * 0xFFFF,
            (state as nat, stream@) == encode_run(freq@, input@.skip(i as int)),
        decreases i,
    {
        i = i - 1;
        let sym = input[i];
        let s = sym as usize;
        proof {
            lemma_occurs(input@, i as int);
            assert(input@.skip(i as int).drop_first() =~= input@.skip(i + 1));
            assert(input@.skip(i as int)[0] == sym);
            lemma_sum_prefix_mono(freq@, (s + 1) as nat, 256);
            assert(raw@[sym as int] == occurrences(input@, sym));
            assert(sum_prefix(freq@, (s + 1) as nat) == sum_prefix(freq@, s as nat) + freq@[s as int]);
        }
        let fs = freq[s] as u64;
        let cs = cdf[s] as u64;
        assert(fs > 0);
        assert(fs << 8u64 == fs * 256) by (bit_vector)
            requires
                fs <= 0xFFFF,
        ;
        let ghost x0 = state as nat;
        let ghost stream0 = stream@;
        while state >= (fs << 8)
            invariant
                fs > 0,
                fs <= 0xFFFF,
                fs << 8u64 == fs * 256,
                state <= x0,
                stream@ + renorm_emit(state as nat, fs as nat).1 == stream0 + renorm_emit(
                    x0,
                    fs as nat,
                ).1,
                renorm_emit(state as nat, fs as nat).0 == renorm_emit(x0, fs as nat).0,
            decreases state,
        {
            let b = state as u8;
            assert(b == (state % 256) as u8 && state >> 8u64 == state / 256) by (bit_vector)
                requires
                    b == state as u8,
            ;
            let ghost rest = renorm_emit((state / 256) as nat, fs as nat).1;
            stream.push(b);
            proof {
                assert(renorm_emit(state as nat, fs as nat).1 == seq![(state % 256) as u8] + rest);
                assert(stream@ + rest =~= stream@.drop_last() + (seq![b] + rest));
            }
            state = state >> 8;
        }
        proof {
            lemma_renorm_emit_bound(x0, fs as nat);
            assert(renorm_emit(state as nat, fs as nat) == (state as nat, Seq::<u8>::empty()));
            assert(stream@ =~= stream0 + renorm_emit(x0, fs as nat).1);
            assert(state / fs < 256) by (nonlinear_arith)
                requires
                    state < fs * 256,
                    fs > 0,
            ;
            assert(state % fs < fs) by (nonlinear_arith)
                requires
                    fs > 0,
            ;
            assert((state / fs) * 2048 <= 255 * 2048) by (nonlinear_arith)
                requires
                    state / fs < 256,
            ;
        }
        state = (state / fs) * l + cs + (state % fs);
    }
    // Final state, most significant byte first, then the renormalisation
    // bytes in reverse order.
    let mut payload: Vec<u8> = Vec::new();
    payload.push((state >> 56) as u8);
    payload.push(((state >> 48) & 0xff) as u8);
    payload.push(((state >> 40) & 0xff) as u8);
    payload.push(((state >> 32) & 0xff) as u8);
    payload.push(((state >> 24) & 0xff) as u8);
    payload.push(((state >> 16) & 0xff) as u8);
    payload.push(((state >> 8) & 0xff) as u8);
    payload.push((state & 0xff) as u8);
    assert(payload@ =~= be64(state));
    let mut j: usize = stream.len();
    while j > 0
        invariant
            j <= stream@.len(),
            payload@ =~= be64(state) + stream@.subrange(j as int, stream@.len() as int).reverse(),
        decreases j,
    {
        j = j - 1;
        payload.push(stream[j]);
        assert(stream@.subrange(j as int, stream@.len() as int).reverse() =~= stream@.subrange(
            j + 1,
            stream@.len() as int,
        ).reverse() + seq![stream@[j as int]]);
    }
    assert(stream@.subrange(0, stream@.len() as int) =~= stream@);
    assert(input@.skip(0) =~= input@);
    let hdr = ser_freq(&freq);
    let mut out: Vec<u8> = Vec::new();
    let mut k: usize = 0;
    while k < hdr.len()
        invariant
            k <= hdr@.len(),
            out@ =~= hdr@.take(k as int),
        decreases hdr@.len() - k,
    {
        out.push(hdr[k]);
        k = k + 1;
    }
    push_le32(&mut out, payload.len() as u32);
    k = 0;
    let ghost before = out@;
    while k < payload.len()
        invariant
            k <= payload@.len(),
            out@ =~= before + payload@.take(k as int),
        decreases payload@.len() - k,
    {
        out.push(payload[k]);
        k = k + 1;
    }
    assert(hdr@.take(hdr@.len() as int) =~= hdr@);
    assert(payload@.take(payload@.len() as int) =~= payload@);
    out
}

// ── Decode ────────────────────────────────────────────────────────────────────

/// Decoder refill: while x < L and bytes remain, shift the next byte in.
pub open spec fn refill(x: nat, payload: Seq<u8>, pos: nat) -> (nat, nat)
    decreases payload.len() - pos,
{
    if x < 2048 && pos < payload.len() {
        refill(x * 256 + payload[pos as int] as nat, payload, pos + 1)
    } else {
        (x, pos)
    }
}

/// The state after decoding one symbol from `x`, before the refill.
pub open spec fn decode_state(freq: Seq<u32>, x: nat) -> int {
    let slot = x % 2048;
    let s = alias_symbol(freq, slot);
    freq[s as int] * (x / 2048) + slot - sum_prefix(freq, s)
}

/// Decodes `n` symbols from state `x` with the next payload byte at `pos`.
pub open spec fn decode_run(freq: Seq<u32>, payload: Seq<u8>, x: nat, pos: nat, n: nat) -> Seq<u8>
    decreases n,
{
    if n == 0 {
        seq![]
    } else {
        let s = alias_symbol(freq, x % 2048);
        let (x2, p2) = refill(decode_state(freq, x) as nat, payload, pos);
        seq![s as u8] + decode_run(freq, payload, x2, p2, (n - 1) as nat)
    }
}

/// The frequency table and the payload of an encoded block, or the message
/// of the failure.
pub open spec fn ans_block(data: Seq<u8>) -> Result<(Seq<u32>, Seq<u8>), Seq<char>> {
    match spec_deser_freq(data) {
        Err(m) => Err(m),
        Ok((freq, hdr_end)) => {
            let rest = data.skip(hdr_end as int);
            if rest.len() < 4 {
                Err("missing payload len"@)
            } else {
                let plen = get_le32(rest, 0) as int;
                if 4 + plen > rest.len() {
                    Err("payload truncated"@)
                } else {
                    let payload = rest.subrange(4, 4 + plen);
                    if payload.len() < 8 {
                        Err("payload < 8 bytes"@)
                    } else {
                        Ok((freq, payload))
                    }
                }
            }
        },
    }
}

/// The decoding of `out_len` symbols from `data`.
pub open spec fn spec_ans_decode(data: Seq<u8>, out_len: nat) -> Result<Seq<u8>, Seq<char>> {
    if data.len() == 0 || out_len == 0 {
        Ok(seq![])
    } else {
        match ans_block(data) {
            Err(m) => Err(m),
            Ok((freq, payload)) => if freq_sum(freq) > 2048 {
                Err("frequency table exceeds 2048 slots"@)
            } else {
                Ok(decode_run(freq, payload, get_be64(payload) as nat, 8, out_len))
            },
        }
    }
}

proof fn lemma_alias_found(freq: Seq<u32>, slot: nat, k: nat)
    requires
        k <= 256,
        sum_prefix(freq, k) <= slot < sum_prefix(freq, 256),
    ensures
        alias_from(freq, slot, k) < 256,
        sum_prefix(freq, alias_from(freq, slot, k)) <= slot < sum_prefix(
            freq,
            alias_from(freq, slot, k) + 1,
        ),
    decreases 256 - k,
{
    if k < 256 {
        if slot >= sum_prefix(freq, k + 1) {
            lemma_alias_found(freq, slot, k + 1);
        }
    }
}

/// One decoding step stays within the bounds of the state it started from.
proof fn lemma_decode_state_bound(freq: Seq<u32>, x: nat)
    requires
        freq.len() == 256,
        freq_sum(freq) <= 2048,
    ensures
        alias_symbol(freq, x % 2048) < 256,
        sum_prefix(freq, alias_symbol(freq, x % 2048)) <= x % 2048,
        freq[alias_symbol(freq, x % 2048) as int] <= 2048,
        0 <= decode_state(freq, x) <= x,
{
    let slot = x % 2048;
    let s = alias_symbol(freq, slot);
    if slot < sum_prefix(freq, 256) {
        lemma_alias_found(freq, slot, 0);
    } else {
        lemma_alias_beyond(freq, slot, 0);
    }
    lemma_entry_le_sum(freq, s as int, 256);
    let fs = freq[s as int] as nat;
    let q = x / 2048;
    assert(fs * q <= 2048 * q) by (nonlinear_arith)
        requires
            fs <= 2048,
    ;
    assert(2048 * q + slot == x);
}

proof fn lemma_refill_bound(x: nat, payload: Seq<u8>, pos: nat)
    requires
        pos <= payload.len(),
    ensures
        refill(x, payload, pos).1 <= payload.len(),
        pos <= refill(x, payload, pos).1,
        refill(x, payload, pos).0 <= if x < 2048 { 2048 * 256 } else { x },
    decreases payload.len() - pos,
{
    if x < 2048 && pos < payload.len() {
        lemma_refill_bound(x * 256 + payload[pos as int] as nat, payload, pos + 1);
    }
}

/// Decodes `out_len` symbols from an encoded block; a block that is cut
/// short, or whose frequencies exceed the L slots, is refused with a codec
/// error.
pub fn ans_decode(data: &[u8], out_len: usize) -> (res: Result<Vec<u8>, AxcError>)
    ensures
        match spec_ans_decode(data@, out_len as nat) {
            Ok(v) => res matches Ok(o) && o@ == v,
            Err(m) => res matches Err(AxcError::CodecError(msg)) && msg@ == m,
        },
{
    if data.len() == 0 || out_len == 0 {
        return Ok(Vec::new());
    }
    let (freq, hdr_end) = match deser_freq(data) {
        Ok(r) => r,
        Err(e) => {
            return Err(e);
        },
    };
    let rest = vstd::slice::slice_subrange(data, hdr_end, data.len());
    if rest.len() < 4 {
        return Err(AxcError::CodecError("missing payload len".to_owned()));
    }
    let plen = read_le32(rest, 0) as usize;
    if plen > rest.len() - 4 {
        return Err(AxcError::CodecError("payload truncated".to_owned()));
    }
    let payload = vstd::slice::slice_subrange(rest, 4, 4 + plen);
    if payload.len() < 8 {
        return Err(AxcError::CodecError("payload < 8 bytes".to_owned()));
    }
    assert(rest@ =~= data@.skip(hdr_end as int));
    if !freq_fits_table(&freq) {
        return Err(AxcError::CodecError("frequency table exceeds 2048 slots".to_owned()));
    }
    let cdf = build_cdf(&freq);
    let alias = build_alias(&freq);
    let l: u64 = TABLE_SIZE as u64;

    // Initial state: the first eight payload bytes, most significant first.
    let mut x: u64 = ((payload[0] as u64) << 56) | ((payload[1] as u64) << 48) | ((
    payload[2] as u64) << 40) | ((payload[3] as u64) << 32) | ((payload[4] as u64) << 24) | ((
    payload[5] as u64) << 16) | ((payload[6] as u64) << 8) | (payload[7] as u64);
    let ghost x0 = x;
    let mut pos: usize = 8;
    let mut output: Vec<u8> = Vec::new();
    let mut i: usize = 0;
    while i < out_len
        invariant
            i <= out_len,
            l == 2048,
            output@.len() == i,
            8 <= pos <= payload@.len(),
            freq@.len() == 256,
            freq_sum(freq@) <= 2048,
            freq_entries_small(freq@),
            forall|s: int| 0 <= s <= 256 ==> #[trigger] cdf@[s] == sum_prefix(freq@, s as nat),
            alias@.len() == 2048,
            forall|p: int|
                0 <= p < 2048 ==> #[trigger] alias@[p] as nat == alias_symbol(freq@, p as nat),
            output@.take(i as int) + decode_run(
                freq@,
                payload@,
                x as nat,
                pos as nat,
                (out_len - i) as nat,
            ) == decode_run(freq@, payload@, x0 as nat, 8, out_len as nat),
        decreases out_len - i,
    {
        let slot = x % l;
        let s = alias[slot as usize] as usize;
        proof {
            lemma_decode_state_bound(freq@, x as nat);
        }
        let fs = freq[s] as u64;
        let cs = cdf[s] as u64;
        let ghost old_out = output@;
        output.push(s as u8);
        proof {
            assert(fs * (x / 2048) <= 2048 * (x / 2048)) by (nonlinear_arith)
                requires
                    fs <= 2048,
            ;
        }
        x = fs * (x / l) + slot - cs;
        let ghost x1 = x;
        let ghost pos1 = pos;
        while x < l && pos < payload.len()
            invariant
                l == 2048,
                pos1 <= pos <= payload@.len(),
                refill(x as nat, payload@, pos as nat) == refill(x1 as nat, payload@, pos1 as nat),
            decreases payload@.len() - pos,
        {
            let b = payload[pos];
            assert((x << 8u64) | (b as u64) == x * 256 + b) by (bit_vector)
                requires
                    x < 2048,
            ;
            x = (x << 8) | (b as u64);
            pos = pos + 1;
        }
        proof {
            assert(old_out.take(i as int) =~= old_out);
            assert(output@.take(i + 1) =~= old_out.take(i as int) + seq![s as u8]);
            let rest_run = decode_run(freq@, payload@, x as nat, pos as nat, (out_len - i - 1) as nat);
            assert(old_out.take(i as int) + (seq![s as u8] + rest_run) =~= output@.take(i + 1)
                + rest_run);
        }
        i = i + 1;
    }
    assert(output@.take(out_len as int) =~= output@);
    assert(output@ + decode_run(freq@, payload@, x as nat, pos as nat, 0) =~= output@);
    Ok(output)
}

// ── Round trip ────────────────────────────────────────────────────────────────

proof fn lemma_bit_or(y: u8, m: u8, b: u8)
    requires
        m < 8,
        b < 8,
    ensures
        ((y | (1u8 << m)) & (1u8 << b) != 0) == ((y & (1u8 << b) != 0) || b == m),
        (y | 0u8) == y,
        (0u8 & (1u8 << b)) == 0,
{
    assert(((y | (1u8 << m)) & (1u8 << b) != 0) == ((y & (1u8 << b) != 0) || b == m))
        by (bit_vector)
        requires
            m < 8,
            b < 8,
    ;
    assert((y | 0u8) == y) by (bit_vector);
    assert((0u8 & (1u8 << b)) == 0) by (bit_vector);
}

proof fn lemma_bitmap_bits(freq: Seq<u32>, j: int, n: nat, b: nat)
    requires
        n <= 8,
        b < 8,
    ensures
        (bitmap_bits(freq, j, n) & (1u8 << (b as u8)) != 0) == (b < n && freq[8 * j + b] > 0),
    decreases n,
{
    if n == 0 {
        lemma_bit_or(0, 0, b as u8);
    } else {
        lemma_bitmap_bits(freq, j, (n - 1) as nat, b);
        let y = bitmap_bits(freq, j, (n - 1) as nat);
        lemma_bit_or(y, (n - 1) as u8, b as u8);
    }
}

proof fn lemma_entries_prefix(freq: Seq<u32>, n: nat, m: nat)
    requires
        n <= m,
    ensures
        freq_entries(freq, m).subrange(0, freq_entries(freq, n).len() as int) == freq_entries(
            freq,
            n,
        ),
        freq_entries(freq, n).len() <= freq_entries(freq, m).len(),
    decreases m,
{
    if n < m {
        lemma_entries_prefix(freq, n, (m - 1) as nat);
        assert(freq_entries(freq, m).subrange(0, freq_entries(freq, n).len() as int)
            =~= freq_entries(freq, (m - 1) as nat).subrange(0, freq_entries(freq, n).len() as int));
    } else {
        assert(freq_entries(freq, m).subrange(0, freq_entries(freq, n).len() as int)
            =~= freq_entries(freq, m));
    }
}

proof fn lemma_deser_header(freq: Seq<u32>, tail: Seq<u8>, i: nat)
    requires
        freq.len() == 256,
        freq_entries_small(freq),
        i <= 256,
    ensures
        deser_from(freq_header(freq) + tail, i, 32 + freq_entries(freq, i).len()) == Ok::<
            (Seq<u32>, nat),
            Seq<char>,
        >((freq.subrange(i as int, 256), freq_header(freq).len())),
    decreases 256 - i,
{
    let data = freq_header(freq) + tail;
    let pos = 32 + freq_entries(freq, i).len();
    if i >= 256 {
        assert(freq.subrange(256, 256) =~= Seq::<u32>::empty());
    } else {
        lemma_deser_header(freq, tail, i + 1);
        lemma_entries_prefix(freq, i + 1, 256);
        let q = i / 8;
        let r = i % 8;
        assert(data[q as int] == bitmap_bits(freq, q as int, 8));
        lemma_bitmap_bits(freq, q as int, 8, r);
        assert(8 * q + r == i);
        assert(bitmap_bit(data, i as int) == (freq[i as int] > 0));
        let ent = freq_entries(freq, 256);
        let ei = freq_entries(freq, i);
        if freq[i as int] > 0 {
            assert(freq_entries(freq, i + 1) == ei + le16(freq[i as int] as u16));
            let v = freq[i as int] as u16;
            let e1 = freq_entries(freq, i + 1);
            assert(ent.subrange(0, e1.len() as int) == e1);
            assert(e1[ei.len() as int] == le16(v)[0]);
            assert(e1[ei.len() + 1 as int] == le16(v)[1]);
            assert(ent.subrange(0, e1.len() as int)[ei.len() as int] == ent[ei.len() as int]);
            assert(ent.subrange(0, e1.len() as int)[ei.len() + 1 as int] == ent[ei.len() + 1 as int]);
            assert(ent[ei.len() as int] == le16(v)[0]);
            assert(ent[ei.len() + 1 as int] == le16(v)[1]);
            assert(data[pos as int] == le16(v)[0]);
            assert(data[pos + 1 as int] == le16(v)[1]);
            crate::bytes::lemma_le16_roundtrip(v, seq![], seq![]);
            assert(seq![] + le16(v) + seq![] =~= le16(v));
            assert(get_le16(data, pos as int) == get_le16(le16(v), 0));
            assert(freq.subrange(i as int, 256) =~= seq![freq[i as int]] + freq.subrange(
                i + 1 as int,
                256,
            ));
        } else {
            assert(freq_entries(freq, i + 1) =~= ei);
            assert(freq.subrange(i as int, 256) =~= seq![0u32] + freq.subrange(i + 1 as int, 256));
        }
    }
}

/// A serialised frequency header parses back to the same table.
pub proof fn lemma_freq_header_roundtrip(freq: Seq<u32>, tail: Seq<u8>)
    requires
        freq.len() == 256,
        freq_entries_small(freq),
    ensures
        spec_deser_freq(freq_header(freq) + tail) == Ok::<(Seq<u32>, nat), Seq<char>>(
            (freq, freq_header(freq).len()),
        ),
{
    lemma_deser_header(freq, tail, 0);
    assert(freq_entries(freq, 0) =~= Seq::<u8>::empty());
    assert(freq.subrange(0, 256) =~= freq);
}

/// Every symbol of `input` has a nonzero frequency, and the frequencies of
/// the table fill the L slots exactly.
pub open spec fn table_covers(freq: Seq<u32>, input: Seq<u8>) -> bool {
    &&& freq.len() == 256
    &&& freq_sum(freq) == 2048
    &&& forall|k: int| 0 <= k < input.len() ==> #[trigger] freq[input[k] as int] > 0
}

proof fn lemma_renorm_emit_lower(x: nat, fs: nat)
    requires
        fs > 0,
        x >= fs,
    ensures
        renorm_emit(x, fs).0 >= fs,
    decreases x,
{
    if x >= fs * 256 {
        lemma_renorm_emit_lower(x / 256, fs);
    }
}

proof fn lemma_renorm_emit_len(x: nat, fs: nat)
    requires
        fs > 0,
        x < 2048 * 256,
    ensures
        renorm_emit(x, fs).1.len() <= 2,
{
    reveal_with_fuel(renorm_emit, 3);
    if x >= fs * 256 {
        let y = x / 256;
        if y >= fs * 256 {
            assert(y / 256 < 256);
            assert(y / 256 < fs * 256) by (nonlinear_arith)
                requires
                    y / 256 < 256,
                    fs > 0,
            ;
        }
    }
}

proof fn lemma_cs_fs_bound(freq: Seq<u32>, s: int)
    requires
        0 <= s < 256,
        freq_sum(freq) == 2048,
    ensures
        sum_prefix(freq, s as nat) + freq[s] <= 2048,
{
    lemma_sum_prefix_mono(freq, (s + 1) as nat, 256);
}

/// The encoder state stays in [L, 256 L) and each symbol adds at most two
/// renormalisation bytes.
proof fn lemma_encode_run_bound(freq: Seq<u32>, input: Seq<u8>)
    requires
        table_covers(freq, input),
    ensures
        2048 <= encode_run(freq, input).0 < 2048 * 256,
        encode_run(freq, input).1.len() <= 2 * input.len(),
    decreases input.len(),
{
    if input.len() > 0 {
        let tail = input.drop_first();
        assert forall|k: int| 0 <= k < tail.len() implies #[trigger] freq[tail[k] as int] > 0 by {
            assert(tail[k] == input[k + 1]);
        }
        lemma_encode_run_bound(freq, tail);
        let (x, e) = encode_run(freq, tail);
        let s = input[0] as int;
        let fs = freq[s] as nat;
        let cs = sum_prefix(freq, s as nat);
        assert(freq[input[0] as int] > 0);
        lemma_cs_fs_bound(freq, s);
        lemma_renorm_emit_bound(x, fs);
        lemma_renorm_emit_lower(x, fs);
        lemma_renorm_emit_len(x, fs);
        let xr = renorm_emit(x, fs).0;
        assert(1 <= xr / fs < 256) by (nonlinear_arith)
            requires
                fs <= xr < fs * 256,
                fs > 0,
        ;
        assert(xr % fs < fs) by (nonlinear_arith)
            requires
                fs > 0,
        ;
    }
}

/// Each emitted byte divides the state by 256: 256^(bytes emitted) times
/// the state left is at most the state before.
proof fn lemma_renorm_emit_weight(x: nat, fs: nat)
    requires
        fs > 0,
    ensures
        pow2(8 * renorm_emit(x, fs).1.len()) * renorm_emit(x, fs).0 <= x,
    decreases x,
{
    lemma2_to64();
    if x >= fs * 256 {
        let y = x / 256;
        lemma_renorm_emit_weight(y, fs);
        let (xr, b) = renorm_emit(y, fs);
        let k = b.len();
        lemma_pow2_adds(8 * k, 8);
        assert(8 * (k + 1) == 8 * k + 8);
        let p = pow2(8 * k);
        assert(256 * (p * xr) <= 256 * y) by (nonlinear_arith)
            requires
                p * xr <= y,
        ;
        assert(pow2(8 * (k + 1)) * xr == 256 * (p * xr)) by (nonlinear_arith)
            requires
                pow2(8 * (k + 1)) == p * 256,
        ;
        assert(256 * y <= x);
        assert(renorm_emit(x, fs).1.len() == k + 1);
        assert(renorm_emit(x, fs).0 == xr);
    } else {
        assert(renorm_emit(x, fs).1.len() == 0);
        assert(renorm_emit(x, fs).0 == x);
        assert(pow2(8 * 0) == 1);
    }
}

/// One encoding step multiplies 256^(bytes emitted) times the state by at
/// most 4096 = 2^12: a symbol never costs more than twelve bits.
proof fn lemma_encode_step_weight(x: nat, fs: nat, cs: nat)
    requires
        0 < fs,
        cs + fs <= 2048,
        x >= fs,
    ensures
        pow2(8 * encode_step(x, fs, cs).1.len()) * encode_step(x, fs, cs).0 <= 4096 * x,
{
    let (xr, b) = renorm_emit(x, fs);
    lemma_renorm_emit_weight(x, fs);
    lemma_renorm_emit_lower(x, fs);
    let q = xr / fs;
    let r = xr % fs;
    let x2 = q * 2048 + cs + r;
    assert(x2 == encode_step(x, fs, cs).0);
    assert(q >= 1 && fs * q + r == xr && r < fs) by (nonlinear_arith)
        requires
            xr >= fs,
            fs > 0,
            q == xr / fs,
            r == xr % fs,
    ;
    assert(x2 <= 4096 * xr) by (nonlinear_arith)
        requires
            x2 == q * 2048 + cs + r,
            cs + r < 2048,
            q >= 1,
            fs * q <= xr,
            fs >= 1,
    ;
    let p = pow2(8 * b.len());
    assert(p * x2 <= 4096 * x) by (nonlinear_arith)
        requires
            x2 <= 4096 * xr,
            p * xr <= x,
    ;
}

/// The encoder run over `n` symbols: 256^(bytes emitted) times the final
/// state is at most 2^(12 n) times the starting state L.
proof fn lemma_encode_run_weight(freq: Seq<u32>, input: Seq<u8>)
    requires
        table_covers(freq, input),
    ensures
        pow2(8 * encode_run(freq, input).1.len()) * encode_run(freq, input).0 <= pow2(
            12 * input.len(),
        ) * 2048,
    decreases input.len(),
{
    lemma2_to64();
    if input.len() > 0 {
        let tail = input.drop_first();
        assert forall|k: int| 0 <= k < tail.len() implies #[trigger] freq[tail[k] as int] > 0 by {
            assert(tail[k] == input[k + 1]);
        }
        lemma_encode_run_weight(freq, tail);
        lemma_encode_run_bound(freq, tail);
        let (x, e) = encode_run(freq, tail);
        let s = input[0] as int;
        let fs = freq[s] as nat;
        let cs = sum_prefix(freq, s as nat);
        assert(freq[input[0] as int] > 0);
        lemma_cs_fs_bound(freq, s);
        lemma_entry_le_sum(freq, s, 256);
        lemma_encode_step_weight(x, fs, cs);
        let (x2, b) = encode_step(x, fs, cs);
        let n1 = tail.len();
        lemma_pow2_adds(8 * e.len(), 8 * b.len());
        lemma_pow2_adds(12 * n1, 12);
        assert(8 * (e + b).len() == 8 * e.len() + 8 * b.len());
        assert(12 * input.len() == 12 * n1 + 12);
        let pe = pow2(8 * e.len());
        let pb = pow2(8 * b.len());
        let pn = pow2(12 * n1);
        assert(pe * pb * x2 <= pn * 2048 * 4096) by (nonlinear_arith)
            requires
                pb * x2 <= 4096 * x,
                pe * x <= pn * 2048,
        ;
        assert(pow2(8 * (e + b).len()) == pe * pb);
        assert(pow2(12 * input.len()) == pn * 4096);
        assert(pow2(8 * (e + b).len()) * x2 <= pow2(12 * input.len()) * 2048) by (
        nonlinear_arith)
            requires
                pow2(8 * (e + b).len()) == pe * pb,
                pow2(12 * input.len()) == pn * 4096,
                pe * pb * x2 <= pn * 2048 * 4096,
        ;
    }
}

/// The encoder emits at most one and a half bytes per symbol.
proof fn lemma_encode_run_len(freq: Seq<u32>, input: Seq<u8>)
    requires
        table_covers(freq, input),
    ensures
        2 * encode_run(freq, input).1.len() <= 3 * input.len(),
{
    lemma_encode_run_weight(freq, input);
    lemma_encode_run_bound(freq, input);
    let (x, e) = encode_run(freq, input);
    let a = 8 * e.len();
    let c = 12 * input.len();
    if a > c {
        lemma_pow2_strictly_increases(c, a);
        let pa = pow2(a);
        let pc = pow2(c);
        assert(pa * x > pc * 2048) by (nonlinear_arith)
            requires
                pa > pc,
                x >= 2048,
        ;
    }
}

/// Refilling from the decoder side undoes the encoder's renormalisation.
proof fn lemma_refill_inverts_renorm(x: nat, fs: nat, p: Seq<u8>, pos: nat)
    requires
        fs > 0,
        x < 2048 * 256,
        pos + renorm_emit(x, fs).1.len() <= p.len(),
        p.subrange(pos as int, (pos + renorm_emit(x, fs).1.len()) as int) == renorm_emit(x, fs).1.reverse(),
    ensures
        refill(renorm_emit(x, fs).0, p, pos) == refill(x, p, pos + renorm_emit(x, fs).1.len()),
    decreases x,
{
    if x >= fs * 256 {
        let y = x / 256;
        let (xr, b2) = renorm_emit(y, fs);
        let b = renorm_emit(x, fs).1;
        assert(b == seq![(x % 256) as u8] + b2);
        assert(b.reverse() =~= b2.reverse() + seq![(x % 256) as u8]);
        assert(p.subrange(pos as int, (pos + b2.len()) as int) =~= b2.reverse()) by {
            assert(p.subrange(pos as int, (pos + b2.len()) as int) =~= p.subrange(
                pos as int,
                (pos + b.len()) as int,
            ).subrange(0, b2.len() as int));
        }
        lemma_refill_inverts_renorm(y, fs, p, pos);
        let q = pos + b2.len();
        assert(p[q as int] == b.reverse()[b2.len() as int]);
        assert(y < 2048);
        assert(y * 256 + (x % 256) == x);
    }
}

/// Decoding one symbol undoes one encoding step.
proof fn lemma_decode_inverts_step(freq: Seq<u32>, s: int, xr: nat)
    requires
        freq.len() == 256,
        0 <= s < 256,
        freq_sum(freq) == 2048,
        freq[s] > 0,
        xr < freq[s] * 256,
    ensures
        ({
            let x = (xr / freq[s] as nat) * 2048 + sum_prefix(freq, s as nat) + xr % freq[s] as nat;
            &&& alias_symbol(freq, x % 2048) == s
            &&& decode_state(freq, x) == xr
        }),
{
    let fs = freq[s] as nat;
    let cs = sum_prefix(freq, s as nat);
    let q = xr / fs;
    let r = xr % fs;
    let x = q * 2048 + cs + r;
    lemma_cs_fs_bound(freq, s);
    assert(r < fs && xr == fs * q + r) by (nonlinear_arith)
        requires
            fs > 0,
            q == xr / fs,
            r == xr % fs,
    ;
    assert(x % 2048 == cs + r && x / 2048 == q) by (nonlinear_arith)
        requires
            x == q * 2048 + cs + r,
            cs + r < 2048,
    ;
    assert(sum_prefix(freq, (s + 1) as nat) == cs + fs);
    lemma_alias_in_range(freq, cs + r, s as nat, 0);
}

/// Decoding the symbols of `input` from its final encoder state, with its
/// renormalisation bytes in reverse order at `pos`, gives `input` back.
proof fn lemma_decode_encode_run(freq: Seq<u32>, input: Seq<u8>, p: Seq<u8>, pos: nat)
    requires
        table_covers(freq, input),
        pos + encode_run(freq, input).1.len() <= p.len(),
        p.subrange(pos as int, (pos + encode_run(freq, input).1.len()) as int) == encode_run(
            freq,
            input,
        ).1.reverse(),
    ensures
        decode_run(freq, p, encode_run(freq, input).0, pos, input.len()) == input,
    decreases input.len(),
{
    if input.len() == 0 {
        assert(decode_run(freq, p, encode_run(freq, input).0, pos, 0) =~= input);
    } else {
        let tail = input.drop_first();
        assert forall|k: int| 0 <= k < tail.len() implies #[trigger] freq[tail[k] as int] > 0 by {
            assert(tail[k] == input[k + 1]);
        }
        lemma_encode_run_bound(freq, tail);
        let (x, e) = encode_run(freq, tail);
        let s = input[0] as int;
        let fs = freq[s] as nat;
        assert(freq[input[0] as int] > 0);
        let (xr, b) = renorm_emit(x, fs);
        lemma_renorm_emit_bound(x, fs);
        let big_e = encode_run(freq, input).1;
        assert(big_e == e + b);
        assert(big_e.reverse() =~= b.reverse() + e.reverse());
        assert(p.subrange(pos as int, (pos + b.len()) as int) =~= b.reverse()) by {
            assert(p.subrange(pos as int, (pos + b.len()) as int) =~= p.subrange(
                pos as int,
                (pos + big_e.len()) as int,
            ).subrange(0, b.len() as int));
        }
        assert(p.subrange((pos + b.len()) as int, (pos + b.len() + e.len()) as int) =~= e.reverse()) by {
            assert(p.subrange((pos + b.len()) as int, (pos + b.len() + e.len()) as int) =~= p.subrange(
                pos as int,
                (pos + big_e.len()) as int,
            ).subrange(b.len() as int, big_e.len() as int));
        }
        lemma_decode_inverts_step(freq, s, xr);
        lemma_refill_inverts_renorm(x, fs, p, pos);
        assert(refill(x, p, pos + b.len()) == (x, pos + b.len()));
        lemma_decode_encode_run(freq, tail, p, pos + b.len());
        assert(input =~= seq![input[0]] + tail);
    }
}

proof fn lemma_be64_roundtrip(v: u64, tail: Seq<u8>)
    ensures
        get_be64(be64(v) + tail) == v,
        be64(v).len() == 8,
{
    let s = be64(v) + tail;
    let b0 = (v >> 56u64) as u8;
    let b1 = ((v >> 48u64) & 0xff) as u8;
    let b2 = ((v >> 40u64) & 0xff) as u8;
    let b3 = ((v >> 32u64) & 0xff) as u8;
    let b4 = ((v >> 24u64) & 0xff) as u8;
    let b5 = ((v >> 16u64) & 0xff) as u8;
    let b6 = ((v >> 8u64) & 0xff) as u8;
    let b7 = (v & 0xff) as u8;
    assert(s[0] == b0 && s[1] == b1 && s[2] == b2 && s[3] == b3);
    assert(s[4] == b4 && s[5] == b5 && s[6] == b6 && s[7] == b7);
    assert(((b0 as u64) << 56u64) | ((b1 as u64) << 48u64) | ((b2 as u64) << 40u64) | ((
    b3 as u64) << 32u64) | ((b4 as u64) << 24u64) | ((b5 as u64) << 16u64) | ((b6 as u64)
        << 8u64) | (b7 as u64) == v) by (bit_vector)
        requires
            b0 == (v >> 56u64) as u8,
            b1 == ((v >> 48u64) & 0xff) as u8,
            b2 == ((v >> 40u64) & 0xff) as u8,
            b3 == ((v >> 32u64) & 0xff) as u8,
            b4 == ((v >> 24u64) & 0xff) as u8,
            b5 == ((v >> 16u64) & 0xff) as u8,
            b6 == ((v >> 8u64) & 0xff) as u8,
            b7 == (v & 0xff) as u8,
    ;
}

proof fn lemma_occurrences_le_len(data: Seq<u8>, s: u8)
    ensures
        occurrences(data, s) <= data.len(),
    decreases data.len(),
{
    if data.len() > 0 {
        lemma_occurrences_le_len(data.drop_last(), s);
    }
}

/// Present symbols keep a nonzero normalised frequency, absent ones get
/// none, and no frequency exceeds L + 1.
pub proof fn lemma_normalised_entry(raw: Seq<u32>, i: int)
    requires
        raw.len() == 256,
        0 <= i < 256,
    ensures
        (normalised(raw, i) > 0) == (raw[i] > 0),
        normalised(raw, i) <= 2049,
{
    if raw[i] > 0 {
        lemma_entry_le_sum(raw, i, 256);
        lemma_floor_share_bound(raw, i);
    }
}

/// The payload of `input`'s rANS block (initial state and
/// renormalisation bytes) has a length that its u32 length field holds.
pub open spec fn ans_payload_fits(input: Seq<u8>) -> bool {
    input.len() == 0 || ans_stream(normalised_table(count_table(input)), input).len() <= u32::MAX
}

proof fn lemma_freq_entries_len(freq: Seq<u32>, n: nat)
    ensures
        freq_entries(freq, n).len() <= 2 * n,
    decreases n,
{
    if n > 0 {
        lemma_freq_entries_len(freq, (n - 1) as nat);
    }
}

/// The sizes of an rANS block: a frequency header of at most 544 bytes,
/// the u32 payload length, and a payload of the 8-byte initial state plus
/// at most one and a half bytes per symbol. So the payload length fits its
/// field for every input of at most 0xAAAA_AAA0 bytes.
pub proof fn lemma_ans_lengths(input: Seq<u8>)
    requires
        0 < input.len() <= u32::MAX,
    ensures
        spec_ans_encode(input).len() == freq_header(normalised_table(count_table(input))).len()
            + 4 + ans_stream(normalised_table(count_table(input)), input).len(),
        freq_header(normalised_table(count_table(input))).len() <= 544,
        8 <= ans_stream(normalised_table(count_table(input)), input).len(),
        2 * (ans_stream(normalised_table(count_table(input)), input).len() - 8) <= 3
            * input.len(),
        input.len() <= 0xAAAA_AAA0 ==> ans_payload_fits(input),
{
    let raw = count_table(input);
    let freq = normalised_table(raw);
    lemma_normalised_table(raw);
    lemma_occurs(input, 0);
    lemma_occurrences_le_len(input, input[0]);
    lemma_entry_le_sum(raw, input[0] as int, 256);
    assert(freq_sum(raw) > 0);
    assert forall|k: int| 0 <= k < input.len() implies #[trigger] freq[input[k] as int] > 0 by {
        lemma_occurs(input, k);
        lemma_occurrences_le_len(input, input[k]);
    }
    assert(table_covers(freq, input));
    lemma_encode_run_len(freq, input);
    lemma_freq_entries_len(freq, 256);
    let (x, e) = encode_run(freq, input);
    assert(ans_stream(freq, input).len() == 8 + e.len());
}

/// Decoding an encoded block gives the input back, whenever its payload
/// length fits the u32 length field; by `lemma_ans_lengths` it does for
/// every input of at most 0xAAAA_AAA0 bytes.
#[verifier::spinoff_prover]
#[verifier::rlimit(50)]
pub proof fn lemma_ans_roundtrip(input: Seq<u8>)
    requires
        input.len() <= u32::MAX,
        ans_payload_fits(input),
    ensures
        spec_ans_decode(spec_ans_encode(input), input.len()) == Ok::<Seq<u8>, Seq<char>>(input),
{
    if input.len() > 0 {
        let raw = count_table(input);
        let freq = normalised_table(raw);
        lemma_normalised_table(raw);
        lemma_occurs(input, 0);
        lemma_occurrences_le_len(input, input[0]);
        lemma_entry_le_sum(raw, input[0] as int, 256);
        assert(freq_sum(raw) > 0);
        assert forall|i: int| 0 <= i < 256 implies #[trigger] freq[i] <= 0xFFFF && (freq[i] > 0)
            == (raw[i] > 0) by {}
        assert forall|k: int| 0 <= k < input.len() implies #[trigger] freq[input[k] as int]
            > 0 by {
            lemma_occurs(input, k);
            lemma_occurrences_le_len(input, input[k]);
        }
        assert(table_covers(freq, input));
        lemma_encode_run_bound(freq, input);
        let (x, e) = encode_run(freq, input);
        let st = ans_stream(freq, input);
        lemma_be64_roundtrip(x as u64, e.reverse());
        assert(st.len() == 8 + e.len());
        let hdr = freq_header(freq);
        let data = spec_ans_encode(input);
        assert(data == hdr + (le32(st.len() as u32) + st));
        lemma_freq_header_roundtrip(freq, le32(st.len() as u32) + st);
        let rest = data.skip(hdr.len() as int);
        assert(rest =~= le32(st.len() as u32) + st);
        crate::bytes::lemma_le32_roundtrip(st.len() as u32, seq![], st);
        assert(seq![] + le32(st.len() as u32) + st =~= rest);
        assert(get_le32(rest, 0) == st.len());
        assert(rest.subrange(4, (4 + st.len()) as int) =~= st);
        assert(ans_block(data) == Ok::<(Seq<u32>, Seq<u8>), Seq<char>>((freq, st)));
        assert(st.subrange(8, (8 + e.len()) as int) =~= e.reverse());
        lemma_decode_encode_run(freq, input, st, 8);
        assert(st == be64(x as u64) + e.reverse());
        assert(get_be64(st) == x as u64);
        assert(get_be64(st) as nat == x);
        assert(decode_run(freq, st, get_be64(st) as nat, 8, input.len()) == input);
        assert(freq_sum(freq) == 2048);
    } else {
        assert(spec_ans_encode(input).len() == 0);
        assert(input =~= Seq::<u8>::empty());
    }
}

/// Whether the frequencies add up to at most L = 2048 slots, so that the
/// slot table can hold them.
fn freq_fits_table(freq: &[u32; 256]) -> (b: bool)
    requires
        freq@.len() == 256,
        freq_entries_small(freq@),
    ensures
        b == (freq_sum(freq@) <= 2048),
{
    let mut total: u64 = 0;
    let mut i: usize = 0;
    while i < MAX_SYM
        invariant
            i <= 256,
            freq@.len() == 256,
            freq_entries_small(freq@),
            total == sum_prefix(freq@, i as nat),
        decreases 256 - i,
    {
        proof {
            lemma_sum_small(freq@, (i + 1) as nat);
        }
        total = total + freq[i] as u64;
        i = i + 1;
    }
    total <= 2048
}

} // verus!
