# jj-hunk

Programmatic hunk selection for jj: list the hunks of a diff, pick some by a
spec or by a hunkset expression, and split, commit, squash, edit, restore or
absorb exactly those.

The crate is in two parts.

- `src/` is the library: everything that is decided or computed. Every function
  states what it gives back, and Verus proves it.
- `app/` is the command around it: arguments, jj, files, JSON and YAML.

## The library

| Module | What it holds |
|--------|---------------|
| `diff` | hunks, their ids and their short ids, texts rebuilt from some hunks |
| `patch` | why a patch does what selecting its hunks does |
| `hunkset` | the expression language: parsing, evaluating, error messages |
| `keeping` | why an expression keeps exactly what it selects |
| `glob`, `paths` | patterns, and paths as they are printed and as they are found |
| `spec`, `resolve` | written selections, and what they name in a diff |
| `files`, `revisions` | what is read of jj, and how it is read |
| `template` | why a template keeps the whole diff it was made from |
| `listing`, `render` | listings, groups, templates, text and patches |
| `commands` | the verbs: what each hands to jj, and what becomes of each file |
| `dry_run` | what a verb would do |
| `absorb` | which ancestor a hunk belongs to, and the moves that follow |
| `fields`, `node` | listings cut down to some of their fields |
| `errors`, `schema` | error codes, and what a program can learn of the rest |
| `names`, `text` | sorted names and plain text |

Laws that relate several functions are public proof functions, named by what
they say: `keeping_every_hunk_gives_the_right_side`,
`negating_twice_changes_nothing`, `a_plan_accounts_for_every_hunk`.

Where the library calls other crates (`similar`, `sha2`, `regex`, `serde_json`),
the call stands in a small function of its own, whose comment says what is taken
for granted about it.
