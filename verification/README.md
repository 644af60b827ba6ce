# puncture

A minimal gzip compressor and decompressor whose core is verified with Verus.

## Layout

- `src/` — the verified library:
  - `bitreader`, `bitwriter` — bit streams, least significant bit first, modelled as
    one number and a length;
  - `huffman` — canonical Huffman codes and their decoding lookup tables;
  - `cached_writer` — the decoder's output window (LZ77 history, CRC-32);
  - `crc32` — a table-driven CRC-32 writer;
  - `extraction` — the gzip header parser and the DEFLATE decoder, specified by
    spec functions that read the format from the remaining bits;
  - `compressor` — LZ77 with hash chains, written as one fixed-Huffman block;
  - `roundtrip` — proofs that the compressor's output decodes to its input;
  - `args` — the command line options as plain values;
  - `numeric` — little-endian numbers and powers of two.
- `app/` — the command line program (argument parsing, files, standard streams).
- `tests/` — tests of the library.

## Usage

```bash
# decompress a file, writing the contents to standard out
puncture -dc /path/to/compressed_file.gz

# compress a file, keeping the original
puncture -c -k /path/to/file > /path/to/file.gz
```
