# semver: least-witness intersection of version requirements

Given two version requirements such as `>=1.0.0, <2.0.0` and `^1.5`, this
library finds the least version (by SemVer precedence, with Cargo's rules
for pre-releases) that satisfies both, or explains why none does. Every
function of the library is verified with Verus against a contract, but
one: `push_char` in `text.rs`, which appends a character to a `String`
through std's `String::push`, is trusted with the contract that std's
documentation gives it.

Layout of `src/`:

- `prerelease.rs`: pre-release identifiers and their precedence order.
- `version.rs`: versions, comparators, requirements and Cargo's matching
  rules, as spec functions and as executable code.
- `satisfy.rs`: what one comparator admits at one `major.minor.patch`
  triple, and where its admitted set starts.
- `ordered.rs`: sorted, duplicate-free lists of triples and pre-releases.
- `solve.rs`: the search for the least witness and the `intersection` entry
  point, with the contract that the witness satisfies both requirements and
  is below every version that does.
- `laws.rs`: properties that relate several results (symmetry,
  self-intersection, witness exactly when satisfiable, reading back the
  field form).
- `text.rs`, `grammar.rs`, `parse.rs`: printing and parsing, proved to be
  inverse to each other on the printed forms; a requirement written with
  spaces around its comparators and operators, or with `^` left out, is
  proved to read as the same comparators.
- `forms.rs`: the layouts of a comparator or requirement that the parser
  accepts; every text the parser reads is proved to be one of these
  layouts of what it returns.
- `fields.rs`: the field form (`outcome`, `version`, `reason`, `first`,
  `second`) in which an intersection is serialized and read back.

`app/` implements serde's `Serialize` and `Deserialize` for copies of the
library's types, on top of the field form and the printed forms.
