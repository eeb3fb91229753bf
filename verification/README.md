# knf

Merges layered JSON and TOML configuration files and prints one document:
`knf base.toml prod.json --set server.port=8080`.

The library under `src/` is written in Verus: every function carries a
contract, and Verus proves each body against it. It holds the value tree,
the merge and its strict and shallow modes, `${...}` interpolation, key
paths and `key.path=value` expressions, merge rules, the decisions about
formats and where documents come from, the checks made before emitting
TOML or JSON, the walks over configuration directories, matrix and
Cartesian-product enumeration, and every error message. The laws the
library keeps — a single layer merges to itself when no rule names the
root, the strict merge is associative, a parsed path survives
being printed and parsed again, output format does not depend on input
order, an object's key order does not change what its references resolve
to, and more — are stated as proof functions beside the code.

`app/` is the command line: argument parsing, reading files and stdin,
the process environment, JSON and TOML text, and stdout. It hands the
library plain values and takes plain values back.

`tests/` runs the library on concrete inputs.

## How collections are held

An object is a `Vec` of key/value pairs in insertion order, with the
invariant (`well_formed`) that no key occurs twice: the order and lookup
behaviour of an insertion-ordered map, stated and proved. The value tree
is recursive through its objects, and Verus refuses a type that recurses
through a declared outside map (`Tree` inside `IndexMap<String, Tree>` is
rejected as a recursive use in a non-positive position), so the map is
modelled rather than wrapped. Pins, rule tables and other groupings are
keyed by strings; they are sorted `Vec`s whose invariants (`keys_sorted`,
`keys_distinct`) say what an ordered map would have guaranteed.
