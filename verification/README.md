# Camera Dewarp

Lens distortion correction for DJI drone images: reads the factory calibration
from the XMP metadata of an image (or from a calibration file), removes the
distortion of the lens from whole folders of images, or puts it back, and saves
the new images with the metadata of the old ones.

`src/` is the library. Its functions have contracts, which Verus proves of all but
the few that call other crates (see below):

| Module | What it holds |
|--------|---------------|
| `scalar`, `order` | the number type that the lens model computes with, and its order |
| `search`, `text`, `paths` | finding, taking apart and ordering bytes, text and file names |
| `xmp`, `calibration` | calibrations in images |
| `calibration_file`, `file_laws` | calibrations in files of their own |
| `remap`, `remap_laws`, `parallel` | the lens model, remap tables, remapped images and thumbnails |
| `jpeg`, `flags`, `images` | JPEG metadata, the dewarp flag, encoding and decoding |
| `gpu` | what a remap on the graphics processor is given and gives back |
| `pipeline` | the images of a batch, its course, and the work on each image |
| `gui`, `cli` | the state and the texts of the window and of the command-line tool |

The lens model is generic over its number type. Contracts say which operations
are called, on what and in which order; the tool runs them on `f64`, with tables
in `f32`. That these operations are functions of their operands, and that
they keep the order where a law asks for it, are assumptions for `f64`. Roundings and conversions come in as functions.

A few items call `image`, `rayon`, `regex`, `bytemuck` and the standard library.
Their contracts are believed, and the comment above each says what of.

Laws that span several functions stand beside them as proof functions whose names
begin with `law_`.

`app/` is the program around the library: arguments, files, threads, the window and
the graphics processor. `tests/` runs the library.
