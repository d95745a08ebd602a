# lama-worker

A LaMa inpainting worker: it fills the masked pixels of an image by a model and
leaves every other pixel as it was.

```text
lama-worker --image INPUT.png --mask MASK.png --output RESULT.png --model MODEL
```

A `.safetensors` model is run by the generator in this crate at the resolution of
the image; any other model is run by an ONNX Runtime session at 512 by 512.

## Layout

- `src/` is the verified library.
  - `grid`, `reflect`, `resize`, `roi`: images and masks, reflection, resizing and
    the region of interest around a selection.
  - `tensor`, `axes`, `layers`, `weights`: tensors, layers and weights of candle,
    and what the library relies on of them.
  - `fourier`, `blocks`, `network`: transforms, building blocks and the generator.
  - `layout`, `native`, `session`: the two ways of a region through a model.
  - `worker`, `report`, `error`: pixels in and out, markers and messages.
  - `laws`, `same`, `once`: what these keep together, as proved statements.
  - `exact`, `near`: the transforms in exact arithmetic and up to rounding.
- `tests/` runs the library on concrete values.
- `app/` is the program: arguments, files, the session, and float arithmetic.

Samples are carried through the library as the bit patterns of 32-bit floats. The
scalar float computations (scaling a byte, blending four taps, a cosine) are handed
in as functions; what is read, where it goes and when a request is refused is
decided, and proved, in `src/`.

Every contract rests on the statements about candle and ndarray in `tensor`,
`layers`, `weights` and `grid`, which are marked `external_body`. Element moves are
stated exactly, and so is when an operation on the CPU succeeds. Float results are
stated as relations, for rounding, the order of a sum and the bits of a NaN are the
machine's.

## Environment

| Variable | Effect |
| --- | --- |
| `LAMA_FORCE_CPU=1` | A session stays on the CPU. |
| `LAMA_FORCE_PROVIDER=cuda` | CUDA is tried, then the CPU. |
| `LAMA_FORCE_PROVIDER=directml` | DirectML is tried, then the CPU. |
| `LAMA_FORCE_PROVIDER=cpu` | The same as `LAMA_FORCE_CPU=1`. |

Without them DirectML is tried, then the CPU.
