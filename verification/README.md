# SonicFusion

DataFusion, but for sound: a render is a graph of nodes on frame signals, tables with
a `frame` and a `sample` column.

The library in `src/` is written in Verus. Each function states what it returns or
changes, for every input, and Verus proves it. The program in `app/` surrounds it
with what proofs cannot reach: streams, files, the player, and the machine's sine,
exponential and power.

| module | what it holds |
| --- | --- |
| `ieee` | single- and double-precision arithmetic on bit patterns, reading decimals, writing fixed decimals |
| `arrow` | what is taken for granted of Arrow's schemas and record batches |
| `config`, `error`, `layout`, `text` | render configurations, errors, the frame schema, text |
| `dsp` | the waveforms, frame by frame |
| `physical::frame` | oscillators, gain, low-pass filter and mixer, their properties and their runs |
| `dsl` | the graph language: tokens, statements, graphs |
| `render` | decoding rendered batches into samples |
| `output` | what may be written, WAV recordings, the waveform image |
| `preview` | what the preview command decides |

The graph language supports `sine(frequency)`, `square(frequency, pulse_width)`,
`lpf(cutoff)`, `gain(factor)`, `mix(inputs, weights)`, and `out`. `->` passes the
previous node on, a `$name` at the end of a statement saves its output for later
statements, and `out` limits the signal to the configured number of frames:

```text
sine(440.0) -> $high;
sine(220.0) -> $low;
mix([$high, $low], [0.4, 0.6]) -> out
```

Laws that relate several functions stand as public proof functions beside them, among
them `render::streaming_decodes_like_collecting`, `physical::frame::gain::gain_saturates`,
`physical::frame::gap_laws::a_gap_is_silence_up_to_rounding`,
`physical::frame::mix::mixed_frames_increase`, `dsl::laws::every_graph_is_limited`,
`dsl::spelling::three_texts_make_one_graph` and
`output::waveform::buckets_partition_the_samples`.
