# system_audio

Dual audio capture, microphone and system audio, as two tagged streams of
16 kHz mono PCM: a verified library, and a Tauri plugin around it.

`src/` is the library, in Verus. It holds what a capture decides and computes;
every function states in its contract what it returns or changes, and Verus
proves it. Three contracts on calls out of the library are believed, not
proved: `pcm::encode_base64`, which calls the base64 crate, and those of
`String::clear` and `String::with_capacity` in `capture`. The library does no
arithmetic on floating point: the sample type, the level type and the
operations on them are parameters, and the contracts say which operation is
applied to which values.

| module | what it is |
|---|---|
| `lib` | options, errors, events, the session |
| `startup`, `device`, `permission`, `loopback` | what is opened to start a capture, in which order, what a failure is called, and the end |
| `capture`, `recording` | the loop: framing, processing, PCM events; what holds over a whole capture |
| `metering` | the throttle of the level events |
| `apm` | the audio processing module: where its library is, set-up, tear-down, frames in blocks |
| `resampler`, `phase`, `streaming`, `throughput` | mixdown, anti-alias filter, linear resampler; its position, as a double would hold it; processing in pieces; how many samples come out |
| `mixer` | sample-and-hold mixer of two streams that drift |
| `pcm`, `text`, `fold` | 16-bit samples, base64; decimal and search; sums in order |

Proof functions whose names start with `law_` state what holds of the library
as a whole.

`app/` is the plugin: devices, threads, the dynamic library, the registry,
single-precision arithmetic and the bridge to the web view. `tests/` runs the
library.
