# veridict

A statistical decision gate for candidate-versus-baseline trials: is the
candidate actually better? It compares win/loss/draw records or paired
numeric scores, runs sequential probability ratio tests, and tabulates
pairwise Elo differences between several candidates.

## Layout

* `src/` - the library, verified with Verus. It holds the discrete core:
  classifying records (statuses, results, failure policies), pairing and
  clustering records by id, the SPRT and comparison-matrix tallies, strongly
  connected components of the head-to-head graph, the multi-metric verdict,
  the failure caps, Holm's step-down rule and the ordering of plan
  recommendations. Every public function carries a contract; the `law_*`
  proof functions state properties that span several calls.
* `app/` - the command line around it: argument parsing, reading JSONL/CSV,
  the floating-point statistics (confidence intervals, bootstrap, Elo and
  log-likelihood ratios, Bradley-Terry fits, power searches) and the JSON
  and Markdown reports.
* `tests/` - tests of the library on concrete values.

## Exit codes

`0` pass, `1` fail, `2` inconclusive, `3` invalid input or configuration.
