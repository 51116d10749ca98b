# wikigraph_model

A link graph of a markdown wiki, written in Verus. The library's own functions carry
contracts that Verus proves. Its calls into petgraph, indexmap, pulldown-cmark and
`std::path` go through small trusted wrappers (`#[verifier::external_body]`), whose
contracts, together with the declared outside types and the spec functions without a body
that name their results, are believed rather than proved.

- `src/links.rs`: links split into components, and their lexical normalisation against a
  location.
- `src/paths.rs`: links followed on file-system paths, and relative paths written as links.
- `src/object.rs`: the objects a link leads to (wiki pages, other files, outside URLs) and
  the keys they are known by.
- `src/graph.rs`: the link graph, whose nodes are interned by key.
- `src/markdown.rs`: the links and the word count of a markdown page.
- `src/walker.rs`: a wiki on disk, and how each of its pages is added to the graph.
- `src/analysis.rs`: shortest paths, weakly and strongly connected components, and the
  number of shortest paths between two nodes.
- `src/display.rs`: which objects and links are drawn.

`app/` is the scraper program: it walks the wiki's directory, computes the floating-point
centrality statistics and writes the graph out as JSON.
