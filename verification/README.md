# microgpt

A tiny character-level GPT trainer (one transformer layer, trained on a list
of names, then sampled) whose integer core is verified with Verus.

- `src/` — the verified library:
  - `rng.rs`: the xorshift64 generator and its Fisher-Yates shuffle, with
    the permutation and state-advance laws;
  - `graph.rs`: the shape of the autodiff tape and the depth-first
    topological order used by the backward pass;
  - `state_dict.rs`: the named parameter matrices;
  - `corpus.rs`: splitting the input text into trimmed, non-blank documents;
  - `tokenizer.rs`: the sorted character vocabulary and tokenization.
- `app/` — the program: file download and reading, the floating-point tape
  values and gradients, the model layers, Adam, sampling and printing.
- `tests/` — tests of the library on concrete values.
