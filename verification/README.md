# glisser

Granular cleanup of one's own Telegram history. A cheap detector decides where
to look, a model reads the candidates window by window and picks the stretches
to cut, and nothing is deleted until its owner approves it. Everything is local
except the calls to the model.

The decisions live in a library verified with Verus; the program around it does
the input and output.

## Library (`src/`)

| module | what it decides |
| --- | --- |
| `unicode`, `norm`, `norm_laws` | the normal form text is matched in, and the way back to the source |
| `search`, `dict`, `dict_data` | terms and regular expressions, what fires and what is protected |
| `model`, `scan`, `scan_report` | tiers, hits, the pull of replies and albums |
| `window`, `select`, `window_laws`, `window_report` | clusters of anchors, windows, widening, samples and cutoffs |
| `prompt`, `triage`, `llm` | the policy, the rendered window, answers, retries, one step of a verdict |
| `plan` | the deletion plan and its approval |
| `eval`, `eval_report`, `agree`, `audit`, `diff` | quality of the runs, their agreement, feedback on the rules |
| `export`, `json`, `clock`, `schema` | taking an export in |
| `text`, `order`, `fnv`, `idset`, `config` | what the rest is built from |

Each function states what it returns over plain values: sequences, sets and
numbers without a limit. `law_*` functions state what holds across functions:
a protected message never enters the plan, a window is widened at most once, a
spaced-out word normalizes as the word itself.

Weights count in thousandths and tier multipliers in hundredths, so a priority
is a whole number of hundred-thousandths. Costs and confidences are carried as
the bits of a double; shares in percent are put into words by the program.

What comes from outside is stated at the place it is called: the Unicode tables
in `unicode`, the automaton and the regular expressions in `search`, the
calendar in `clock`, JSON strings in `json`, single characters in `text`.

## Program (`app/`)

`main.rs` reads the command line, `db.rs` and `corpus.rs` talk to SQLite,
`client.rs` to the model, `wire.rs` reads JSON, `judge.rs` runs windows on
threads, `figures.rs` gathers the numbers of the reports.

```bash
glisser export                  # load a Telegram Desktop export
glisser scan                    # dictionary pass → candidates
glisser windows                 # how many calls this will cost
glisser triage --model <model>  # the model decides what to cut
glisser eval                    # how good the runs are
glisser plan --model <model>    # assemble the plan from the verdicts
glisser approve --axis politics # only what is approved gets deleted
```

Thresholds, the whitelist, the language of the policy and the optional owner
profile live in `src/config.rs`: edit it and rebuild.
