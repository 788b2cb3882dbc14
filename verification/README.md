# tolk-inspect

Static inspection of Tolk projects: symbols, references, types, control-flow graphs, and which
callables each call may reach, also through locals, containers, lambdas, captures and
collections.

The library under `src/` is written in Verus. Every function states what it computes, and the
proofs cover the whole way from facts to snapshots.

- `project::prepare` normalizes the paths of a project and says what is wrong with it.
- `facts` holds what a parser, a resolver, a type checker and a linter know of the sources.
- `inspect::build` turns facts into a snapshot; `inspect::built` says which one.

How the parts hang together:

| Modules | What they are about |
| --- | --- |
| `text`, `sort`, `tables`, `order`, `ids` | texts, stable sorting, ordered sets and maps |
| `path`, `project` | logical paths, and the plan of a project |
| `syntax`, `nodes`, `position` | syntax trees, their nodes in a snapshot, UTF-16 positions |
| `symbols`, `lambdas`, `references`, `types`, `node_types`, `constants`, `diagnostics`, `graphs` | the other lists of a snapshot |
| `lattice`, `callable` | the values that may be called: the model, and the structure that is computed with |
| `scope`, `methods`, `evaluate`, `effects`, `flow`, `states` | the values of expressions and of locals along a control-flow graph |
| `definitions`, `bodies`, `program`, `calls` | whole programs, and their calls |
| `inspect` | snapshots |
| `collections`, `locals`, `origins`, `records`, `flows`, `settled`, `promises` | laws of collections, of the locals that states list, of whole programs and of snapshots |
| `allocation` | the layout of memory blocks behind their headers |

Among the laws that are proved:

- joining callable values is commutative, associative and idempotent, and gives the least value
  that covers both (`lattice`);
- when the values of locals have settled, every edge of the graph has been followed (`states`,
  `locals`);
- an analysis repeats itself when it is run once more on its own summary, or no indirect call of
  it is said to be complete (`program`, `promises`);
- each call inside a callable is recorded, and no target is invented (`records`, `origins`,
  `promises`);
- what is put into a collection is found in it again (`collections`);
- at a fixed point, what a callable returns, what a call passes on and what a lambda captures
  arrive where they are used (`flows`, `settled`);
- a pattern that takes a value apart gives each of its locals the part at its position
  (`effects`);
- a name in camel case holds no underscore and stays as it is (`nodes`);
- leaving out control-flow graphs changes nothing else in a snapshot (`promises`).

`app/` is the border to the host: it runs the `tolk-*` crates, hands over what they find as facts,
and serves snapshots as JSON to JavaScript.
