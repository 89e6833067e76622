# gun

The core of a [Gun](https://gun.eco) graph database peer, with its behaviour
stated in contracts and proved.

- `src/json.rs`: JSON values (objects keep their keys in order), their text.
- `src/text.rs`: string order, search and replace, decimal numerals.
- `src/ham.rs`: conflict resolution (HAM) and the merge of a change into the graph.
- `src/util.rs`: wire keys, errors, queries on the graph, states for a write.
- `src/dedup.rs`: recently seen message identifiers, random identifiers.
- `src/gun.rs`: options, the builder, request messages.
- `src/plugins.rs`: what a peer does with a message, peer addresses.
- `app/`: the networked side (tokio websockets, browser websockets, JSON
  parsing, the clock) built on the library.
