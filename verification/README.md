# llama_tensor

Tensor metadata for Llama-family models, verified with Verus.

- `src/digit.rs`: element types, and the types of the numbers that an element packs.
- `src/layout.rs`: strided layouts as a mathematical model. `src/layout/transform.rs` has
  the `ndarray-layout` crate transform them.
- `src/tensor.rs`: tensors, and what can be asked of them and done to them.
- `src/rearrange.rs`: what an operator is told that copies one tensor into another.
- `src/meta.rs`, `src/storage.rs`: the parameters of a model, and the tensors and sizes
  that follow from them.
- `src/weights.rs`: the weights that a worker reads its blocks from.
- `src/laws/`: what holds of all of these together, such as that a transformation keeps
  every element where it is stored.
- `app/`: raw memory, floating point and the types of other crates.

Functions marked `external_body` call another crate; what their contracts say of it is
trusted. Everything else is proved.
