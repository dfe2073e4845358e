# jevons

A verified core for serving diffusion language models and speech models on local hardware. The
library decides; devices and sockets only carry out what it decided.

| Module | What it holds |
| --- | --- |
| `engine` | Generation by diffusion, self-speculation and autoregression, streaming with stop sequences, and probabilistic reads of masked canvases |
| `generation`, `openai` | Requests, and their parsing from OpenAI-compatible bodies |
| `formats` | GGUF and safetensors directories, with bounded tensor spans |
| `models` | Detection of architectures from model files |
| `gemma`, `nemotron`, `parakeet` | Configurations, weight lists, prompt caches, launch plans and index layouts of the models |
| `kernels` | Kernel plans: candidates, choice by time, and the file they are kept in |
| `speech`, `realtime` | Words, segments, overlapping windows, and the state of a live transcription |
| `server` | Settings, access, services, errors and the course of an answer |
| `json`, `schema`, `text`, `sequences`, `arith`, `double`, `error` | What the others share |

The functions of `src/` state their contracts over mathematical models (`Seq`, `Map`, integers and
spec functions), and Verus proves them; implementations of std's own traits, such as `FromStr`,
state the same. What holds of several functions together stands as a public proof function
whose name starts with `law_`. A few calls into std, `serde_json`, `rand` and `rand_chacha` are
trusted; each says in its doc comment what is claimed of the outside function. Floating-point values
appear in `src/` as their bits.

`app/` is the server around the library: arguments and settings file, reading of model files, the
worker thread, HTTP routes, and floating-point arithmetic. `tests/` runs the compiled library.
