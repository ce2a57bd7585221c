# helix_core: verified code folding

Code folding for a text editor, written in Verus and proved correct.

* `src/text.rs` — a document as chars split into lines (LF, CRLF, CR and the other Unicode
  line breaks), with line/char/byte conversions, blank lines and indentation.
* `src/fold.rs` — fold spans: the regions that can be folded, computed from indentation or
  from the named nodes of a syntax tree, normalized outermost-first.
* `src/fold/closed.rs` — the closed folds of a document (`Folds`): closing, opening,
  revealing, what is hidden and rendered, and how folds follow edits.
* `src/fold/model.rs` — the mathematical model of closed folds used by the contracts.
* `src/fold/laws.rs` — properties proved across operations: closing reports whether a span
  was open, opening leaves nested folds closed, revealing makes a position visible, closed
  folds that belong to a text are determined by their spans, every operation keeps them
  belonging to the text, closing ignores the order of spans, and more.
* `src/fold/rendered.rs` — which closed folds are rendered: for spans that never partly
  overlap, exactly those not nested in another closed fold.
* `src/search.rs` — finding the n-th matching char while skipping hidden text.
* `src/changes.rs` — edits as change sets, applying them and mapping positions through them.

`tests/` exercises the library on concrete documents.
