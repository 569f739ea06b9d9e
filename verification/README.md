# flowroute

FlowRoute routes the traffic of browsers that it launches through a local
proxy core (mihomo): the domains the user marks `proxy` go out through an
upstream proxy, those marked `direct` go straight out and are resolved by the
system resolver.

`src/` is the verified library, checked by Verus:

- `text` — character-level text handling with specifications: trimming,
  prefix stripping, splitting at characters and lines, substring search,
  decimal rendering and the code-point order of strings.
- `sorted` — a set of strings kept in increasing order, and the proof that a
  sorted enumeration of a finite set exists and is unique.
- `config` — settings and rules, and the parts of the core's configuration
  derived from the rules (routing lines, name server policy, sniffer
  exceptions, static host entries).
- `clash_api` — normalizing domains typed by the user, adding and removing
  rules (with their laws), and the connection list.
- `mihomo` — the core's configuration file, its program and its leftover
  processes.
- `browser`, `dns_check`, `sysproxy` — what is passed to the browsers and to
  the system tools, and how their answers are read.

`app/` holds the rest: files, processes, HTTP requests to the core's control
API, network probes, and the command layer that the user interface calls.

`tests/` runs the library on concrete values.

## Collections

Two collections of strings are kept on a `Vec` rather than in a std set:

- `sorted::SortedStrings` takes the place of a `BTreeSet<String>`. The
  blocks built from it must come out in the order of `String`'s `Ord`;
  vstd's specification of `BTreeSet` states `insert` only for key types known
  to obey the `Ord` laws, which `String` is not shown to, and leaves the order
  of iteration unstated. The `Vec` carries the order as its invariant, and
  the order itself is specified (`text::lex_lt`).
- `clash_api::collect_connections` tells whether a host was seen before by
  scanning the hosts listed so far, in place of a `HashSet<String>`; the scan
  is tied directly to the specification of first sightings.

## Trusted code

`text::push_char` (`String::push`) and `text::to_lowercase_chars`
(`str::to_lowercase`, result named `text::lowercase`) are believed, not
proved.
