# tapestry

A tapestry crochet chart tool: give it an image and your yarn colours, get a
chart back, with row instructions, stitch counts and a yarn estimate.

The library under `src/` is written in Verus. Its functions carry contracts
that Verus proves, except three small trusted wrappers in `text` around the
`colored` crate (`paint_truecolor`, `paint_dimmed`, `paint_bold_green`): their
contracts state what `colored` writes and are taken on trust.

- `color`: reading `#RRGGBB` yarn codes, the default palette, the nearest yarn.
- `quantize`: an image to a chart of palette indices, plain or with error
  diffusion.
- `pattern`: generated charts (checkerboard, stripes, diamonds, chevron,
  spiral, noise).
- `text`: decimal numbers, padding, trimming, unsigned integer parsing and the
  terminal colouring done with the `colored` crate.
- `render`: one stitch as it is drawn in each display mode.
- `layout`: the lines of a chart with its grid, ruler and tracker marks.
- `tracker`: the row tracker's commands.
- `tally`: runs of one colour along a row and stitch counts per yarn.
- `estimate`: stitch counts such as `60x40`, yarn per stitch and per weight.
- `picture`: a chart as rows of pixels.

`app/` is the command line around it: argument parsing, reading and scaling
images, printing, the tracker's prompt, saving pictures, and the
floating-point work (spiral angles, percentages, yarn lengths).
