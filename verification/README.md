# llmfast

A server for language models: it loads a checkpoint, batches the requests of its clients, and
answers them over an OpenAI-compatible chat interface, on the CPU or on a GPU.

`src/` is the library, verified with Verus. It holds what the server decides and computes exactly:

- checkpoints: `config`, `safetensors`, `files`, `names`, `plan`, `weight`, `wcache`, `roundtrip`,
  `bytes`
- text: `text`, `json`, `bytemap`, `marks`, `pretokenize`, `vocabulary`, `tokenizer`, `decoding`
- the network's data: `model`, `kernels`, `codes`, `layout`, `kv`, `gpu`, `step`, `backend`
- scheduling: `scheduler`, `batch`, `prefix`, `draft`, `sampler`, `pool`, `device`
- the interface: `http`, `chat`, `reply`, `documents`

Numbers in floating point pass through the library as their bit patterns, or as values of a type
parameter that it only moves.

`app/` is the program around it: files and memory maps, threads, sockets, the arithmetic in
floating point, and the graphics device. The GPU's kernels come from a WGSL file, which the setting
`SHADERS` names (`shaders.wgsl` by default); without it the CPU computes.

`tests/` runs the library.
