# leptonica_core

The image container of Leptonica (`Pix`, `PixMut`, colormaps, point and
number arrays, boxes) with its pixel-level operations, written in Verus:
every public function in `src/` carries a contract over an abstract model of the
image (`PixModel`: size, depth, metadata, colormap and the raster words)
and is proved against it.

- `src/pix/model.rs`, `access.rs`, `raster.rs`: the model, pixel reads and
  writes, and the row/block copying everything else is built on.
- `src/pix/convert.rs`, `rgb.rs`, `rop.rs`, `arith.rs`, `compare.rs`,
  `clip.rs`, `mask.rs`, `border.rs`, `blend.rs`: depth conversions, color
  components, raster operations, arithmetic, comparison, clipping, masks,
  borders and integer blends.
- `src/pix/histogram.rs`, `extract.rs`: histograms with subsampling, line
  profiles and rank transforms.
- `src/pix/graphics.rs`: lines, wide lines, boxes, polylines, grids and
  contours as point arrays, and rendering them.
- `src/pix/serial.rs`: the SPIX byte format.
- Functions named `law_*` are proof functions stating properties that span
  several operations (a write read back, a border added then removed, a
  serialization read back, ...).

`app/` holds what the library does not: stream and file I/O, printing, and
the operations computed in floating point (fractional blends, circles,
hatching, plots, polygon filling, tile statistics).
