# rootcause

Root cause analysis in a dynamic IP network, verified with Verus.

A topology of nodes and links receives events: links going down or
coming up, nodes reported unreachable, nodes reported degraded. Each
event is applied to the network and scored as evidence against candidate
root causes (nodes and links); the candidates are then ranked by score
and grouped into the most likely root causes, the less likely ones and
the downstream symptoms.

## Layout

- `src/topology.rs` – the adjacency structure, its mathematical view, and
  the depth-first search whose result is proved equal to reachability.
- `src/rootcause/` – the analysis the program runs: input types, the
  network and the effect of each event, the tracker of evidence and the
  ranking of causes, the replay of a stream of events, and the text that
  sets the network before and after the events side by side.
- `src/network.rs`, `src/analysis.rs` – a variant in which every event
  adds the nodes it names, a report of an unreachable node only counts
  where the topology disagrees with it, and ties are ranked by candidate.
- `src/tally.rs` – the tally of evidence as a mathematical value, rankings
  and confidence groups.
- `src/strings.rs` – lexicographic order, sorting and joining strings.
- `src/timestamp.rs` – the range of instants a timestamp may name.
- `app/` – the command line program: argument parsing, JSON input, output.
