# Ways of Meaning (`wom`)

Semantic file search for Linux: files and directories are found by what they mean, not only by what
their names say. Vectors and a full-text index are searched side by side and fused by rank.

The crate is a verified library with an ordinary program around it.

- `src/` is the library. Everything in it is Verus code: each function states in its contract what
  it returns, and the laws that relate several functions are proof functions beside them.
- `tests/` runs the library on concrete values, with the real outside crates.
- `app/` is the program: arguments, files, the database, the models and the terminal.

## The library

| Module | What it holds |
|---|---|
| `text`, `chars`, `path`, `lexical`, `order`, `score`, `le`, `digest` | text, paths, orderings, single-precision bits, numbers as bytes, digests |
| `config`, `cli`, `commands`, `report` | settings and locations, the command line, what the subcommands decide and print |
| `walk`, `extract`, `office`, `geo` | ignore rules, which text is taken from a file, office containers, places |
| `index`, `scan`, `rollup` | change detection, the course of a scan, directories as results |
| `db`, `sql` | schema, migrations, the statements that are run |
| `embed`, `rerank`, `download` | the model registries, fetching models |
| `settings`, `charsmap`, `batch` | whether a tokenizer can be used, batches for a model and what it returns |
| `vectors`, `topk` | the vector store's bytes, exact search over them |
| `search`, `fusion`, `ranking`, `retrieval` | full-text queries, rank fusion, the directory cap, a search from evidence to results |
| `tui`, `screen`, `actions`, `bench` | what each key does, what the screen says, external programs, golden queries |

## Numbers

The library holds similarities, scores and weights as the bits of single-precision numbers. It
compares them by their bits and decides everything that follows from the comparison. Sums and
products of such numbers are taken in `app/`.

## What is trusted

The contracts of a few outside functions are believed, not proved. Each stands in a small function
whose doc comment names the outside function and says what is claimed of it: BLAKE3 digests
(`digest`), zip archives and XML readers (`office`), tokenizers and their settings (`batch`,
`settings`), and some functions of the standard library on characters and strings (`chars`,
`text`).
