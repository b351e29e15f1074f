# rust-book-translator

A translator of English Rust documentation into Japanese through a local
Ollama model. The library in `src/` holds the logic, with contracts that
Verus proves:

- `markdown`: code-block detection, break-point search, paragraph splitting
  and token-aware chunking (tokens counted by `tiktoken-rs`); a blank line
  inside a code block does not end a paragraph, and no code block is split
  across chunks;
- `terminology`: picking the glossary terms that occur in a chunk and
  building the terminology section of the prompt;
- `checkpoint`: validating a saved checkpoint and reporting what is wrong;
- `translator`: the prompt, the request URL, the clean-up of the model's
  reply and the retry policy;
- `patterns`, `text`, `ordering`: regular expressions through the `regex`
  crate, UTF-8 text helpers, and stable ordering by selection.

`app/` is the program: it reads the files, parses YAML and JSON, talks to the
server over HTTP and keeps the progress file.
