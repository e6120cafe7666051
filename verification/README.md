# face_index

The core of a face indexer, written in Verus: what is fed to the two networks that find and
describe faces, how their answers are read, which faces are kept, and how an indexing run goes from
its first step to its last. Every function states what it returns, and the laws of the library
(public proof functions named `law_...`) are proved.

Single-precision numbers pass through the library as bit patterns. Whatever can be decided about
them without rounding (comparing, ordering, rounding to whole numbers) is decided and proved here.

| module | what it holds |
| --- | --- |
| `single` | single-precision numbers: order, rounding |
| `formats` | which image files the `image` crate can decode without a panic |
| `picture` | photos of the `image` crate and plain pixel grids |
| `tensor`, `detection`, `embedding` | inputs and outputs of the networks |
| `align`, `blur` | the canonical view of a face, and how sharp it is |
| `suppression`, `select`, `quality` | which boxes and which faces are kept |
| `engine` | loading the networks |
| `indexing`, `history`, `progress` | an indexing run, what holds of it, and what it reports |

`app/` is the program around the library: files, ONNX Runtime, events, and the arithmetic of
single-precision numbers. `tests/` runs the library on concrete photos, boxes and runs.
