# llm_from_scratch

An educational GPT-style language model. The crate's library (`src/`) is the
verified part: the tokenizers and the text renderings, with contracts and
proofs checked by Verus.

- `src/tokenizer/simple.rs`: character-level and word-level tokenizers.
- `src/tokenizer/bpe.rs`: byte-pair encoding — training by repeated merging
  of a most frequent adjacent pair, tokenization, encoding and decoding, with
  the round-trip laws.
- `src/viz/`: terminal renderings (tensor shapes, data flow, attention, a
  heatmap drawn from intensity levels and a progress bar drawn from filled
  cells and a percentage, both of which `app/` computes in floating point),
  duration formatting and the display labels of token ids.
- `src/text.rs`: whitespace splitting, decimal rendering and padding over
  character sequences.

`app/` holds the floating-point model (tensors, layers, attention, GPT,
losses, optimisers, learning-rate schedules), the demo program, the web
visualizer (`app visualizer`) and JSON storage of BPE tokenizers.
