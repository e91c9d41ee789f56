# tokenuse_skylark

Reads the `skylark-model-usage-v1` export: the rotating JSON Lines log in which the
Skylark daemon records every model call that it routes. The library is verified with
Verus; `app/` ties it to the environment, the file system and a dashboard's own types.

| Module | What it holds |
| --- | --- |
| `parser` | what a line is, the records of an export, call rows, totals |
| `session` | one sync of a log that grows: resume cursors, probes, deduplication |
| `discovery` | which files of a directory are logs, and in which order |
| `adapter` | the adapter's name, fingerprint and roots |
| `projects` | project identities, labels and tool mixes |
| `call` | the call row and the names of tools |
| `config` | names and places of the export |
| `json` | JSON values as plain data, read with `serde_json` |
| `cost` | which texts are numbers, and which of them round to zero |
| `text`, `digits`, `digest`, `sequence`, `ordering` | characters and lines, decimal digits, FNV-1a, positions, sorting |
| `laws` | what the crate promises as a whole |

## The export

A line is a JSON object. A `usage` line carries one call:

- its `dedupKey` is `skylark:<trace_id>:<sequence>`, and a line that states another key is
  refused;
- a `costUsd` is a text that reads as a double, an infinity or a not-a-number among them,
  and stands exactly where a `pricingVersion` does; counts that are not exact may stand
  beside a recorded zero only;
- a `null` cost is not a zero: the call was not priced, and its tokens count.

A `gap` line says how many rows were lost before the log could see them. Every other line
that is not blank, a line of another contract among them, is counted as skipped and costs
nothing else.

## What is not proved

Costs stay text in the library: a float is made of them in `app/`, and records are
compared there. What `serde_json`
makes of a text, what `chrono` takes for an instant and what the standard library makes of
bytes that are not UTF-8 is taken from those crates; the functions that call them say what
they rely on.
