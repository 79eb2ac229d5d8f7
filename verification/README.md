# lut_core

A colour-grading engine that bakes grading parameters into a 3D lookup table
and applies it to RGBA images.

- `src/` is the verified library (Verus):
  - `layout` — where each cell of the `size`³ × 3 table lives, the fill
    order, and the eight cells read by trilinear sampling;
  - `pixels` — channel totals of an image and writing sampled colours back
    while keeping alpha;
  - `payload` — the table's little-endian bytes in standard base64, and
    decoding base64 payloads (through the `base64` crate);
  - `frontend` — opening the AES-256-GCM sealed front-end page (through
    `aes-gcm`).
- `app/` holds the floating-point colour science (luminance curve, HSL
  conversion, grading, interpolation) and the file-writing commands, built
  on the library.
