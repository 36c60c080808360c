# git_graph

Lays out the history of a git repository as a graph: which branch each commit belongs to, which
positions each branch spans, and in which column it is drawn, so that no two branches overlap.

The library in `src/` is written in Rust and verified with Verus. It works on plain values: a
`Snapshot` holds what a repository answers when it is read, and `GitGraph::new` turns it into a
graph. `app/` opens repositories with libgit2 and hands the library their snapshots.

| Module | What it holds |
| --- | --- |
| `oid` | object ids, and the map from ids to positions |
| `commit`, `branch` | commits and branches, as they are read and as they are shown |
| `settings`, `patterns` | the settings, and matching names against their patterns |
| `sorting` | stable sorting |
| `children` | from parents to children |
| `extract` | the branches of a repository, by persistence |
| `trace`, `assign` | tracing branches back through the history |
| `columns`, `fcfs`, `length` | giving branches their columns |
| `filter` | leaving out commits that belong to no branch |
| `graph` | the graph as a whole |
| `invariants`, `chains`, `ranges`, `laws` | what holds of every graph |
