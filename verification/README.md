# gitx

Structured git inspection: commit history, working-tree status, branches, stashes
and tags, reported as JSON or as tables.

- `src/` is the verified library. It takes plain records of what a repository
  holds and computes the reports: which commits a log shows and what it says of
  each, the status counts, the branch and tag orderings, the calendar dates of
  timestamps, and every line of the tables. Each public function carries its
  contract; the proof functions state the laws that hold across calls.
- `app/` is the command-line tool: it parses arguments, reads the repository with
  git2, hands the records to the library and prints the results.
- `tests/` exercises the library on concrete records.
