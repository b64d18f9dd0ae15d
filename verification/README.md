# Hephaistos

A small Llama-style transformer in verified Rust: forward and backward pass,
AdamW, training with early stopping, sampling, checkpoints, token streams and a
GGUF writer.

- `src/` is the library. Every function in it has a contract that Verus proves.
  - `scalar` is the number type that all tensors are made of. Nothing is assumed
    of its arithmetic: contracts say which operations, in which order, a value
    comes out of.
  - `arena` and `layout` hold the flat buffers and where each tensor lies in them.
  - `ops` are the tensor operations with their gradients.
  - `model` is the transformer. `model::causal` and `model::repeat` state that the
    passes are functions of their inputs and that the forward pass is causal.
  - `train`, `sample` and `gradcheck` work on a model.
  - `data`, `bytes`, `gguf`, `json` and `tokenizer` read and write formats.
  - `rng` draws, and its contracts tie a sequence of draws to the states that the
    generator goes through. `replay` states when one state of the generator can
    only lead to one text.
  - `exact` states what holds without rounding, and `adjoint`, over the sums of
    `sums`, that the backward operations belong to the forward ones.
- `tests/` runs the library with `f32` and `f64`.
- `app/` is the program around it: files, the tokenizer, the training loop.

The outside calls that the proofs rest on are `arena::par_map` (rayon),
`rng::draw_index` (rand), and `json::parse_value` and `json::open_value`
(serde_json). The doc comment of each says what is claimed of it.
