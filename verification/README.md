# egglog-experimental

Verified extensions of [egglog](https://github.com/egraphs-good/egglog).

| Module | What it holds |
| --- | --- |
| `dag_print` | printing terms with shared subterms bound by `let` |
| `multi_extract` | the `multi-extract` command and its output |
| `keep_best` | the `keep-best` command |
| `table_rows` | whole rows of tables, whatever their subtype |
| `extractor` | the trailing `:extractor name` of a command |
| `subst` | the primitive `unstable-subst` |
| `named_args` | named fields in declarations, calls and actions |
| `engine`, `subst::state`, `named_args::{sexp, parser}` | what is asked of egglog, with its contracts |
| `text`, `lists`, `types` | texts, lists, and the egglog types in use |

Every function in `src/` has a contract that Verus proves. What egglog itself
does is stated in the contracts of the functions that call it, which are
believed: each names the egglog function and says what is claimed of it.

No function of `src/` panics where its `requires` holds. Some of what is required
only egglog knows, and nothing tells it beforehand:

- `engine::evaluates`: a primitive may panic on its arguments, as `log` of a `BigRat`
  does on most. `multi_extract::can_evaluate` and `keep_best::can_keep` say which
  evaluations a command comes to.
- `engine::is_affordable`: the extractor may panic where a cost reaches `u64::MAX`.
- `engine::owns_tables` and `subst::state::owns`: an e-graph and its clones share the
  register of the names of tables. Once a clone, or a state that was popped, has
  declared functions of its own, reading a table by its name may panic.

A copy of a subsumed row is subsumed, and egglog can subsume only a row that is
committed. So `unstable-subst` refuses, before it writes anything, to copy a subsumed
row whose copy is not in the e-graph yet.

`app/` registers the commands, the primitive and the macros with an e-graph and
a parser, and reads the files that programs name.
