# rsomics-eigenvector-centrality

Eigenvector centrality of undirected graphs via power iteration, with the
graph side verified in Verus.

- `src/graph.rs`: `Graph`, an adjacency list whose node labels are interned
  in order of first appearance. Its view, `GraphView`, is a list of labels
  and a list of neighbour lists; `add_edge` is specified exactly over it, and
  the laws (well-formedness is kept, an edge is added exactly once in both
  directions, existing ids and neighbour orders are stable, re-adding an edge
  changes nothing, labels are listed in order of first appearance over any
  sequence of additions) are proof functions there. Validity is a type
  invariant, so no operation has a precondition on the graph. `ids_by_label`
  gives the node ids in label (`str`) order, the order in which the report
  lists nodes.
- `src/edgelist.rs`: `parse_edgelist`, the edge-list reader (`u v` per line,
  `#` comments, blank and one-word lines skipped, Unicode whitespace as
  separator), proved equal to a line-by-line specification, with laws on how
  lines compose.
- `src/scientific.rs`: `python_exponent`, which rewrites Rust's `{:.17e}`
  text into Python's `format(v, ".17e")` form (signed exponent of at least
  two digits), proved against a split-at-the-first-`e` specification.
- `src/error.rs`: the error type of the centrality computation and its
  messages (`message`, with the iteration limit written in decimal).
- `app/`: the command-line program: reading stdin, the floating-point power
  iteration, the `{:.17e}` float formatting, TSV/JSON output.
