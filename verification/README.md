# furnace

A minimal LLM inference engine whose logic is verified with [Verus](https://github.com/verus-lang/verus).
It reads a GGUF model file, tokenizes a prompt, and generates text on a CPU.

- `src/` is the library. Every function states what it returns, and Verus proves it, but for the few
  that only call an outside crate or `std`, whose statements are taken on trust:
  - `gguf`, `dump`: the file format, and what a file holds as text
  - `alphabet`, `bpe`, `tokenizer`, `ids`: byte-level BPE
  - `float`, `tensor`, `quant`: numbers as bit patterns, tensor operations, quantized blocks
  - `weights`, `attention`, `model`: loading, and the transformer with its cache of keys and values
  - `sampler`, `generate`: choosing tokens, and streaming their text
  - `distribution`: why probabilities are in order, and what a seed determines
  - `fused`: what a product with quantized weights has to do with the decoded weights
  - `causal`, `pieces`, `finite`: why the cache changes nothing, however the tokens are cut, where the
    activations are finite
  - `transcript`: why the text that is streamed is that of the tokens
  - `perf`, `text`, `error`: timers, strings, errors
- `tests/` runs the library.
- `app/` is the command line: files, clock, console, and the machine's floating-point arithmetic,
  which the library takes as a parameter.

```
furnace run model.gguf -p "Why is the sky blue?"
furnace inspect model.gguf --metadata
furnace dump-tensor model.gguf blk.0.attn_q.weight --count 4
furnace tokenize model.gguf -p "Hello"
furnace detokenize model.gguf --ids 9707,11,1879
```

Two facts are worth knowing before reading the proofs. Floating-point numbers are `u32` bit
patterns: comparisons are computed on the bits, and sums, products and the like come from a value of
the trait `Arithmetic`, about which the library only knows that it is a function of its operands.
Where a law needs more of the arithmetic, such as that adding zero changes no number, it asks for
that in its `requires`. And what a network computes is stated as a mathematical function of the
weights and the tokens (`ModelView::logits`), to which both the run with a cache and the run without
one are tied.
