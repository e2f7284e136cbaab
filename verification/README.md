# zstd_rs

A compressor and a decompressor for the Zstandard format in Rust, verified with Verus.

```rust
use zstd_rs::{compress, decompress};

let frame = compress(b"Hello, World!", 3);
assert_eq!(decompress(&frame), Ok(b"Hello, World!".to_vec()));
```

Levels go from 0 (no compression) to 11 (deepest search). `decompress` takes one or more frames,
skips skippable frames, and says with a `DecodeError` what is wrong with its input.

## What is proved

- `decompress` gives, for every input, what the mathematical description of the format in
  `decode::decompress_from` says: the bytes, or the error.
- `compress` gives, for every input and level, the bytes that `compress::compressed` says.
- A frame of at most 100 MiB is decompressed to the data it was made from, whatever follows it.
- After its header a frame is blocks of at most 128 KiB and nothing else, and it is longer than
  its data by no more than the headers.
- Frequent literals get codes that are no longer than those of rarer ones, and later blocks use
  the codes of an earlier one again where that is not longer.
- Nothing panics or overflows.

## Layout

| Modules | What they hold |
|---|---|
| `bits`, `bytes`, `bitstream`, `bitreader` | bit strings, bit writers and readers |
| `constants`, `error` | format constants and code tables, errors |
| `fse_table` | the mathematics of FSE tables |
| `fse`, `fse_header`, `normalize`, `cost` | FSE encoding: tables, descriptions, normalized counts, estimates |
| `fse_decode` | FSE decoding |
| `huf_lengths`, `huf_codes`, `huf_weights`, `huf` | Huffman codes, streams and tree descriptions |
| `huffman`, `literals`, `sequences`, `execute` | decoding of literals and sequences |
| `lit_section`, `seq_section` | encoding of literals and sequences |
| `matcher`, `offsets` | match finding and repeated offsets |
| `block`, `frame`, `compress` | blocks and frames, encoded |
| `decode`, `frames` | blocks and frames, decoded; frames one after the other |

`app/` wraps the library in an interface whose errors are text.
