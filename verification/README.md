# axc

AXC is a chunked archive container: files are split into chunks, each chunk is
compressed with an LZ77 + rANS codec and carries CRC-32 checksums of its
compressed and original data, and an index and footer at the end describe the
files.

The library under `src/` is verified with Verus:

- `bytes` — little-endian encodings and their read-back lemmas.
- `checksum` — table-driven CRC-32, proved equal to the bitwise definition
  and to change whenever a single byte of its input changes.
- `codec` — the LZ77 match finder and token decoder, the rANS coder and the
  LZ-ANS block format, with their round-trip laws.
- `format` — the header, chunk record, index entry and footer, each with a
  read-after-write law.
- `archive` — path sanitising, chunk splitting and compression, the archive
  writer, and reading, listing, testing and extracting archives held in
  memory.
- `readback` — laws on what listing, testing and extracting give back of an
  archive laid out by the writer.

`app/` holds the command-line program: argument handling, file and directory
I/O, parallel chunk compression, and error messages.
