# acm

The verified core of `acm`, a command-line tool that writes conventional
commit messages from the staged git diff with a local Ollama model or an
OpenAI-compatible API.

`src/` is the library, checked by Verus against its contracts:

- `text`, `token`, `unixpath`: characters and bytes, trimming, lines,
  decimal numbers, the byte-based token estimate and truncation, and path
  components as `std::path` yields them.
- `git`: the git invocations the tool makes and how their output is read:
  staged files, numstat records, relevance ranking (lockfiles, minified
  assets and vendored code last), the ranked stat header.
- `diff`: the diff modes and their ladder, the budgeted diff that allocates
  a token budget across files, and the choice of the diff that fits.
- `scope`: the commit scope from the staged paths.
- `prompt`: the system prompt, and the cleanup of the model's output
  (reasoning spans, quotes, fences, preamble, trailing commentary).
- `ui`: the streaming filter that hides reasoning spans, printed summaries,
  the answers keys give, the editor command line.
- `config`, `llm`, `flow`, `setup`: settings, their validation and the new
  text of the settings file after `acm config set` (through `toml`), the
  providers' requests, replies and stream lines (through `serde_json`), and
  the decisions of a run.

`app/` is the program around it: the command line, git processes, HTTP,
the terminal, and reading and writing the settings file.
