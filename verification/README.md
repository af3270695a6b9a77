# mlkit_ink

Digital ink recognition with verified code: strokes of a pen go in, ranked texts come
out. The library reads the recognizer specification (protobuf), the network (TFLite) and
the n-gram word model (a LOUDS-coded acceptor) out of borrowed bytes, and can also run
the recognizer backwards, moving ink by gradient descent until it reads as a text of
choice.

`src/` is the library. Every function states what it returns or changes, and Verus
proves it:

- `float`, `division`, `decimal`, `logmath`, `numerics`: IEEE binary32 and binary64 on
  bit patterns, exactly rounded, and their shortest decimal text. Square roots,
  exponentials and the like come from the caller.
- `text`, `bytes`, `symbols`, `mat`, `ranking`, `error`: the ground the rest stands on.
- `proto`, `recospec`, `packs`, `settings`: specifications and the choice of a pack.
- `flatbuffer`, `tflite`, `soundness`: networks, and what holds of every one that loads.
- `louds`, `trie`, `fst`, `lm`: word models.
- `ink`, `preprocess`, `thinning`, `fit`, `curve`, `features`: from ink to features.
- `net`, `netgrad`, `ctc`: the network, its gradient, the CTC loss.
- `lattice`, `adjoint`, `sums`: what both gradients are in exact arithmetic.
- `classes`, `beam`, `decoder`, `recognizer`: from logits to candidates.
- `descent`, `blur`, `optimize`: fitting ink.
- `catalog`, `markup`, `overlay`, `sweep`: what the programs around it decide.

`tests/` runs the library. `app/` is a command line program with a C interface and
browser bindings: files, the network, memory maps, JSON.

What is not proved is marked in the source: a few functions of the standard library, and
`sha1` from the crate of that name.
