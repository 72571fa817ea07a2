# fast-file-sync

A two-way folder synchroniser whose decisions are verified with Verus.

* `src/` is the verified library: the reconciliation truth table and the
  one-way mode filters, the plan builder with its safety guards (no deletion
  on a first sync, a corrupt baseline or an incomplete scan; the big-delete
  guard), the order and pre-checks of the apply loop, cron parsing and the
  scheduling window, the job aggregate and its validation, the run registry,
  the FreeFileSync importer, path keys, and the live scan tally.
* `app/` is the application around it: the directory walker, file copies and
  deletions, the job store and baselines on disk, settings, the run log, the
  pair loops, the cron scheduler task and logging. It performs the I/O the
  library's decisions call for.
* `tests/` exercises the library on concrete values.
