# rpeg

A lossy image compressor for PPM images: each 2x2 block of pixels is
converted to component video, transformed with a discrete cosine transform,
quantized and stored as one 32-bit code word.

- `src/` is the verified library:
  - `array2`: a two-dimensional array with row-major and column-major
    traversal;
  - `bitpack`: reading and writing bit fields of 64-bit words;
  - `blocks`: cutting an image into 2x2 blocks and putting it back together;
  - `codeword`: the layout of a block's quantized values in its code word;
  - `compressed`: the compressed file (header and big-endian code words).
- `app/` is the command-line program: image I/O, the floating-point colour
  and cosine transforms, and the pipeline that runs the stages
  (`rpeg -c FILE` compresses, `rpeg -d FILE` decompresses).
- `tests/` runs the library on concrete inputs.
