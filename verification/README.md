# pengui_redn

A word-level LSTM text generator. The library (`src/`, verified with Verus)
holds the text side: the tokenizer that learns a vocabulary from a text and
maps text to ids and back, the reading of `Pregunta: ... Respuesta: ...`
pairs, the prompt of a question, the sizes and batches of training. The
program (`app/`) holds the model (Candle), sampling from float logits,
training and generation loops, and all file and console work.

- `src/text.rs` — whitespace, words, lines, trimming, prefixes.
- `src/index.rs` — a word list with a hash index (last position of a word).
- `src/order.rs` — facts on sequences sorted by a strict order.
- `src/tokenizer.rs` — `Tokenizer`: learning, encoding, decoding, the
  vocabulary as text and back.
- `src/laws.rs` — what holds across the tokenizer's operations.
- `src/qa.rs` — question and answer pairs, the augmented training text.
- `src/training.rs` — training sizes, schedule, and batches.
