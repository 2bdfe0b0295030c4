# git-ai

git-ai tracks which lines of a repository AI agents wrote. The library holds
the logic of that record: the checkpoints an agent's edits leave, the
authorship log built from them and its text form kept in git notes, reading
agents' hook input, statistics, blame overlay, and the pieces that carry
authorship across rewritten history (matching lines, rebuilding a log from
blamed lines). The `git-ai` program in `app/` proxies git, records
checkpoints in the working log, writes a commit's note after `git commit`,
syncs the notes on fetch and push, shows notes and statistics, and installs
Cursor's hook; it does not rewrite notes on rebase, reset, cherry-pick or
squash.

The library in `src/` is written in Verus: each public function states what it
returns in its `requires`/`ensures` contract, and Verus proves the code
against it.

## Layout

- `src/` — the verified library:
  - `line_range.rs`, `authorship_log.rs`, `authorship_log_cache.rs`: line
    ranges, per-file attributions and the authorship log built from a
    working log's checkpoints;
  - `authorship_log_v3.rs`: the text format of the log kept in notes, with
    its writer and reader;
  - `log_laws.rs`, `log_text_laws.rs`: properties of the log across
    operations (what a checkpoint adds or deletes, writing then reading the
    text format);
  - `attribution.rs`, `checkpoint.rs`, `line_diff.rs`, `working_log.rs`:
    character and line attributions, the line changes a checkpoint records,
    and recording a checkpoint;
  - `post_commit.rs`: the log a commit records, cut to the lines it added;
  - `rebase.rs`, `blame_log.rs`, `reflog.rs`: carrying authorship across
    rewritten history;
  - `git_sync.rs`, `notes_check.rs`, `commit_range.rs`, `commit_author.rs`:
    reading git command lines and output, and the git invocations that sync
    notes;
  - `agent_preset.rs`, `copilot_session.rs`, `cursor_composer.rs`, `json.rs`:
    reading agents' hook input and transcripts;
  - `stats.rs`, `blame.rs`, `ci.rs`, `config.rs`, `upgrade.rs`,
    `ide_hooks.rs`: statistics, blame overlay, CI merges, configuration,
    update checks and the hooks installed into editors' settings;
  - `text.rs`, `str_map.rs`: characters, decimal numbers and a map keyed by
    strings.
- `tests/` — tests of the library.
- `app/` — the `git-ai` program around the library: argument handling, running
  git, files, network and terminal output.
