# tga

Git analytics: commit collection helpers, a rule-and-LLM classification
cascade, and an evaluation harness that samples classified commits for human
raters and scores their labels. The library under `src/` is verified with
Verus; `app/` is the command-line front end for the evaluation commands.

## Layout

- `src/text.rs`: character-sequence helpers (trimming, ASCII case, word
  splitting) shared by the other modules.
- `src/paths.rs`: the file-name extension rule behind the provenance file's
  name.
- `src/classify/`: the built-in rule set, the checks a run makes before it
  writes, verdict precedence, rule merging and priority order, rule provenance traces,
  the restricted LLM prompt and reply checks, and the LLM fallback's call
  selection and usage totals.
- `src/collect/`: the collection window walk and the rows it writes, run
  counters and week planning, Azure DevOps pull-request references, GitHub paging and
  retry decisions, JIRA settings, diff line bookkeeping and developer
  identity resolution.
- `src/config/`: configuration records and their load-time checks.
- `src/storage/`: which schema migrations remain to run.
- `src/eval/`: stratification, water-filling caps, seeded capped draws,
  proportional (Hamilton) subsets, rater-sheet redaction, label scoring and
  verdict carrying.
- `app/`: argument parsing, file and database I/O, floating-point
  statistics and the Markdown report for `tga eval score` and
  `tga eval subsample`.
- `tests/`: the library's tests, run against the compiled crate.
