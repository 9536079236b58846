# marina

A developer-process cockpit: it lists the dev servers and watchers that run on this
machine under names a developer recognizes, groups them by project, and acts on them.

- `src/` is the library. It is written in Verus, and every function in it is verified
  against its contract: discovery (from processes and listening ports to rows),
  resolution (projects, labels, URLs, the user's rules), smoothing and cadence, the
  command line, the verbs, and the view with its rows, cursor, keys, mouse and screen.
- `app/` is the program around it: arguments, terminal, threads, files, signals and the
  crates that read the machine.
- `tests/` runs the library.

Where to start reading:

| module | what it decides |
|---|---|
| `proctree`, `discover` | which processes make up a row, and which rows there are |
| `resolve`, `project`, `docker`, `config` | what a row is called |
| `sampler`, `smoothing` | a snapshot, and when to take the next one |
| `cli` | what an invocation means and prints |
| `verbs`, `logs` | whom to signal, how a restart goes, which log to follow |
| `ui` | what is shown, and what keys and the mouse do |
| `laws`, `ui::laws` | what holds of all of it |

Figures are integers: a CPU share is in billionths of a percent, moments of the view are
in milliseconds of a clock that does not run backwards. What other crates compute
(regular expressions, JSON and TOML documents, the split of the screen) is called through
a few functions whose contracts are stated and not proved; each says so where it stands,
in `text`, `patterns`, `documents` and `ui::render`.
