# agg

Anti Grain Geometry: 2D rasterization with subpixel accuracy and
anti-aliasing, as a library verified with Verus.

- `src/` is the library. Every function carries a contract that Verus proves:
  the fixed-point arithmetic (`math`, `fixed`), colors (`color`), the pixel
  buffer and pixel formats (`buffer`, `pixfmt`), clipping renderers
  (`base`, `render`), scanlines and the cell sweep (`scan`, `raster`), the
  line interpolators (`line_interp`), the anti-aliased outline renderer
  (`outline_aa` for the outline's drawing operations and uncut lines,
  `outline_cut` for lines cut by bisectrices, `outline_dot` for round caps
  and joins, `outline_draw` for drawing the operations in turn), the image
  outline renderer (`outline_img`, with the line patterns made from an image
  in `render`), the split of paths into subpaths and the inversion of
  polygons (`path_storage`) and the PPM encoder (`ppm`).
- `tests/` runs the library on concrete values.
- `app/` holds what computes with floating point or touches files: line
  profiles, gamma tables, sRGB conversions, segment lengths and bisectrices
  of outlines, pattern scaling, path storage, strokes and affine
  transforms, image files, and the outline rasterizer's front end that
  takes coordinates in pixels.

Not in the library:

- Gray-scale pixel formats and the alpha mask adaptor: converting a color to
  gray takes a floating-point luminance.
- Closed outlines: the outline rasterizer refuses them.
- Clipping boxes of the outline renderers: nothing sets one.
- Path input to the scanline rasterizer (`reset`, `rewind_scanlines`,
  `close_polygon`, `add_path`): the cell store and clipper it works on are
  not part of this project.
- Aliased and Wu lines drawn straight into a pixel format (`line`,
  `line_sp_aa`): they step with real numbers. (`line_sp` rounds its real
  end points in `app/` and draws with the library's `line_sp_pixels`.)
- Strokes, affine transforms, ellipses, arcs and the orientation of
  polygons: they compute with floating point (they stand in `app/`, which
  splits and inverts paths with the library's `split` and
  `invert_polygon`).
