# setreplace

Single-history hypergraph substitution systems (Wolfram model evolution),
written in Verus: the engine, its event orderings and step limits, rule
parsing, rule enumeration, and the discrete parts of drawing are verified
against the contracts in `src/`.

- `src/` — the verified library:
  - `rule`, `pattern`: rules, parsing of rules and states, unification and
    substitution of patterns;
  - `atoms_index`, `matcher`, `ordering`, `search`: the incremental matcher
    (atom index, ordering chains, completion of partial matches);
  - `system`: `HypergraphSystem` — evolution, limits, history queries,
    causal graph; laws on the final state, generations, the history of
    each token and event, fresh atoms, causal edges, the edge and
    generation limits and determinism;
  - `limits`: the naming of fresh atoms and the laws on the vertex and
    degree limits along a run;
  - `enumerate`: enumeration of inequivalent rules of a signature;
  - `coarsening`: the levels of a multilevel layout — greedy matching or
    independent-set coarsening of a weighted spring graph, and the merging
    of parallel springs into weights;
  - `pcg`: the seeded PCG32 generator used for tie-breaking;
  - `labels`, `drawing`, `distance`, `notation`, `names`, `text`: vertex
    lists and labels, layout springs, drawn segments, components, event
    layers, color codes, the salts that separate coincident vertices, hop
    distances and the double-sweep diameter estimate, rule notation, names
    of orderings and termination reasons, rules with named variables,
    decimal text;
  - `lib.rs`: the `set_replace*` conveniences.
- `tests/` — test vectors and properties on concrete values.
- `app/` — floating-point layout and SVG/PNG rendering, and the Python
  bindings, built on the library.
