# lsh

The compiler and runtime of a small syntax-highlighting language, with the text
buffer and string utilities of the editor that uses it, written in Verus.

* `src/compiler`: definitions source to IR (`frontend`, `regex`), the IR itself
  (`ir`, `charset`, `index_vec`), the IR optimizer (`optimizer`), and the output
  for compiled bytecode: the assembly listing (`generator`) and the Rust module
  with its static tables (`rust_module`).
* `src/render.rs`: choosing a definition for a file by name or path, and rendering
  a highlighted line with ANSI colors.
* `src/runtime.rs`: the bytecode, its encoding, and the interpreter that turns a
  line of text into highlight spans.
* `src/glob.rs`: path glob matching used to pick a definition for a file.
* `src/buffer`: the gap buffer that holds a document's text.
* `src/collections`, `src/unicode`, `src/float.rs`, `src/text.rs`: vectors and
  strings with an explicit capacity policy, UTF-8 decoding and sanitizing, the
  syntax of decimal numbers, and small string helpers.
* `app/`: the `lshc` command line, which reads definition files from disk.
