# kimage

A small image codec library (PBM, PGM, PPM, PNM, PAM and BMP) written in Verus.
Every decoder and encoder works on byte slices and byte vectors and is proved
against a mathematical model of its file format; the round-trip laws of each
format (decode after encode gives the value back) are stated and proved as
public proof functions.

Layout:

- `src/io.rs`: a byte reader and the little/big-endian integer codecs.
- `src/text.rs`: ASCII token and decimal handling used by the Netpbm headers.
- `src/image.rs`: `Image`, `ImageView` and `PixelFormat`.
- `src/codecs/`: one module per format, plus `netpbm.rs` for what PBM, PGM and
  PPM share.
- `src/format.rs`: `decode`, which picks a decoder by the file's magic bytes.
- `app/`: the `std::io::Read` / `std::io::Write` front ends and the error type
  that carries a `std::io::Error`.
