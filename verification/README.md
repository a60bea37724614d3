# memo_core

The verified core of a replicated text editor: the pieces that a CRDT buffer
and a replicated work tree are built from, each with its contract proved by
Verus.

- `time`, `clock`, `id`, `replica_context`: local and Lamport clocks, version
  vectors with their join and partial order, the timestamps of the file tree.
- `point`: rows and UTF-16 columns, added and subtracted as extents.
- `text` (re-exported as `Text`): an insertion's text with a balanced index of
  its rows; offset/point conversion and the longest row of any range.
- `fragment_id`, `fragment`, `summary`: dense identifiers between any two
  others, fragments of insertions with their deletions, and summaries that add
  up like the texts they describe.
- `anchor`: anchors and selections.
- `index`: the directories of a work tree as a trie of names.
- `diff`: the replacements read from a character-level edit script (computed
  by the `difference` crate); replaying them on the old text gives the new one.

`app/` holds the glue that Verus does not see: UUIDs for replica ids, errors
that carry I/O failures and print, paths split into components, and entry
points that check the core's 32-bit limits before handing it text.
