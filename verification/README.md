# dictata_engine

The decisions of an offline, on-device speech-to-text layer, with contracts that
Verus proves.

One trait, `AsrEngine`, stands in front of interchangeable backends: whisper.cpp,
NVIDIA Parakeet, SenseVoice, Moonshine and Zipformer. The library holds everything
a backend decides: what to check at load and what to say when it fails, how a long
clip is cut and its results stitched together, how the model is fed, stepped and
stopped, and how its output becomes text. The model itself (ONNX Runtime,
whisper.cpp, the floating-point front-ends) comes in as functions to call.

- `src/`: the verified library.
  - `single`: single-precision numbers as bit patterns, with their order.
  - `text`, `tokens`: trimming, integers in text, vocabularies, detokenization.
  - `types`, `error`, `monitor`: options, results, errors, cancellation and progress.
  - `model`: the host, model directories, graphs, metadata and tensors as plain values.
  - `stitch`, `pipeline`, `vad`, `diarize`, `resample`: what stands beside the engines.
  - `engines`: the trait, the factory, the windows of a long clip, and the backends.
- `tests/`: tests of the library, with models that follow a script.
- `app/`: the engines over real models, on `f32` audio. A build names its backends
  by features: `whisper`, `parakeet`, `sensevoice`, `moonshine`, `zipformer`.

Times are sample counts at 16 kHz in the library and seconds in `app/`.
