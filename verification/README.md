# wows_toolkit

The logic of a World of Warships toolkit (replay list, player statistics,
player tracker, mod index, Twitch helpers and background tasks), written in
Verus and verified against its contracts.

- `src/` is the verified library. Each module states its behaviour over
  mathematical models (`Seq`, `Set`, `Map`) and proves its code against
  them. `src/outside.rs` holds the few trusted items through which the
  library calls `levenshtein`, `semver`, `jiff`, `glob`, `escaper`,
  `unidecode`, `language-tags`, `humansize`, `serde_json` and parts of std
  without a specification.
- The decisions of the background tasks (the constants search, the
  background replay parse, the Twitch chat watch and the build bot) are
  state machines: a state and an event give the next state and the action
  for the application to carry out.
- `app/` is ordinary Rust around the library: settings records with serde
  derives, file system access, the clock, and the loops that carry out the
  state machines' actions.
- `tests/` exercises the library on concrete values.
