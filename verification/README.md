# rust_audio_api

A pull-mode audio graph library. Nodes are added to a `GraphBuilder` and
connected by forward and feedback edges; `build` turns the builder into a
`StaticGraph` that the real-time audio thread walks once per 64-frame pull,
without allocating.

The scheduling core is written in Verus and proved:

- `src/topology.rs`: what an execution order is; the `petgraph` calls that sort the forward edges.
- `src/buffers.rs`: the last-use table and the LIFO buffer planner, with the
  proof that no node overwrites a buffer whose contents are still to be read.
- `src/graph.rs`: node ids, `GraphBuilder`, `StaticGraph`, and their contracts.
- `src/pull.rs`: a pull over the shared buffers computes what a pull with one
  buffer per node computes, and over any number of pulls with feedback edges
  and stateful nodes every node is handed the same inputs.
- `src/nodes/delay.rs`: the block delay line and its delay law.
- `src/nodes/convolver.rs`: partition layout, ring capacities and indices,
  and the scheduling of the partitioned convolution, with the slack that lets
  a worker that keeps up deliver every partition in time.
- `src/control.rs`: which node kind takes which control parameter.
- `src/context.rs`: the performance monitor, the frame cursor (one unit pulled
  every 64 frames over a whole stream) and channel mapping of the output callback.
- `src/names.rs`: case-insensitive matching of output device names.
- `src/types.rs`: the unit size.

`app/` holds the floating-point signal processing (gain, mixer, biquad
filter, oscillator, file and microphone input, FFT convolution), the device
handling through `cpal`, and the runtime that executes a `StaticGraph` pull.
