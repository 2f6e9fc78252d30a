# nano_nes_model_builder

A word-level chat model small enough for a NES ROM, and the tools around it,
written in Verus. The library in `src/` is verified: every function states what
it returns, and Verus proves that it does.

A corpus, a route file and a topic file become a model: a trigram table with a
bigram fallback, a classifier bank, a word table and a quantized network. A typed
question is normalized, parsed and routed to a seed, and the answer is generated
word by word. A headless console runs a ROM that does the same, so that both
answers can be compared byte for byte.

## Layout

| Where | What |
|---|---|
| `text`, `vocab`, `lines` | characters and tiles, words and their ids, lines of the source files |
| `corpus`, `sentences`, `records` | vocabulary and transition counts, sentences, scored records and biases |
| `routes`, `classifier`, `builder` | route and topic files, the classifier bank, the plan of a model |
| `neural` | the quantized network, its calibration and its bank image |
| `model` | the model, its accessors and the `model.bin` format |
| `parse`, `pipeline` | typed characters to known words, seeds, generation, the whole answer |
| `cpu6502`, `nes`, `driver` | the processor, the console, typing on its keyboard |
| `report`, `terminal` | parity with the reference answer, keystrokes and the screen |
| `laws` | what holds of the machine from instruction to session |
| `font`, `hash`, `bytes` | the tile set, digests, byte lists |

Functions named `law_...` are proofs of what holds across functions: a stored
model reads back, every question gets an answer of 6 to 32 words, the ROM is never
written, and a call comes back where it came from on any memory.

`app/` holds the programs: `build`, `refgen`, `verify`, `gauntlet` and `play`. They
read files, train the network in floating point, and print receipts.

## What is trusted

Three contracts are taken from outside: `String::push` and
`String::from_utf8_lossy` of the standard library, and SHA-256 of the `sha2`
crate. The text that replaces invalid UTF-8 and the value of a digest are named,
not computed, in contracts.
