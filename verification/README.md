# rasterizer

A small software rasterizer, verified with Verus: lines and triangles (filled
green, or with a colour gradient) drawn into RGBA images.

- `src/` is the verified library.
  - `color.rs`: the pixel colour type.
  - `pixels.rs`: packed RGBA byte buffers: pixel offsets, writing pixels,
    paths and spans, and the sequences of writes as spec functions.
  - `order.rs`: ordering a triangle's corners by row.
  - `triangle.rs`: filling a triangle row by row between its edges.
  - `line.rs`: lines drawn into a packed buffer.
  - `image_buffer.rs`: the calls into the `image` crate's `ImageBuffer`, with
    the contracts they are trusted to meet.
  - `picture.rs`: drawing into an `image` RGBA image through `put_pixel`.
  - `renderer.rs`: the `Renderer` and its drawing operations.
  - `laws.rs`: laws of drawing: which pixels change, repeating a drawing,
    and how the fills relate.
- `app/main.rs` is the demo program: it computes the geometry in floating
  point (line paths, edge crossings, colour planes solved with
  `ndarray-linalg`), has the library draw, and shows the image in a
  `piston_window` window.
- `tests/` exercises the library on concrete images.
