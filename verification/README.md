# mdbook_xref

Preprocessors for mdBook, with their logic verified by Verus:

* cross-references: links with the `label:` protocol define an id where
  they stand; links with the `ref:` protocol become links to it
  (`src/crossref.rs`, `src/xref.rs`);
* abbreviations: `<abbr:X>` autolinks become references into an
  abbreviations chapter appended to the book (`src/abbr.rs`);
* figures: fenced code blocks whose info string starts with `figure`
  become numbered figures with a label (`src/figure.rs`);
* Typst: `typst:` links are replaced by the SVG rendering of the file they
  name (`src/typst.rs`).

All of them rewrite byte ranges of chapter sources (`src/rewrite.rs`) found
from the Markdown events of `pulldown-cmark` (`src/markdown.rs`,
`src/extract.rs`). `src/book.rs` is the book model, `src/text.rs` and
`src/assoc.rs` hold string helpers and a small insertion-ordered map.

`app/` is the command-line program around the library: it reads the book
from mdBook, converts it, reads the abbreviations file and runs `typst`.
It picks the preprocessor by the name it runs under (`mdbook-abbr2`,
`mdbook-figure`, otherwise the cross-reference and Typst preprocessor).
