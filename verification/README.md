# Blackhole

Blackhole is a lossless image compressor for 8-bit (256 colours) grayscale
images, with its codec verified in Verus.

Input images are converted to 8-bit luminance before compression.
Decompression reconstructs the grayscale pixels exactly: the contract of
`archive::encode_new_payload` says so for every image.

## Layout

- `src/bits.rs`: sequences of bits, and their reader and writer
- `src/model.rs`: the adaptive statistics of the arithmetic coder
- `src/coder.rs`, `src/interval.rs`: the arithmetic coder, and why decoding
  undoes encoding
- `src/range.rs`: the range-coded container
- `src/filter.rs`: prediction filters and zigzag folding
- `src/deflate.rs`: DEFLATE streams, through `flate2`
- `src/archive.rs`: payloads and archives
- `src/command.rs`: what a command line asks for
- `src/bytes.rs`, `src/error.rs`: little-endian numbers, errors
- `app/`: the command line, with files and image formats
- `tests/`: tests on concrete values

## Trust

`src/deflate.rs` holds the two functions whose contracts are believed without
proof: compressing and decompressing with `flate2`.

## Usage

```text
blackhole -c input.png output.bhol
blackhole -c "samples/*.png"
blackhole -d input.bhol output.png
```

Without an output file, each compressed image gets a `.bhol` file beside it.
Decompression needs an output file.
