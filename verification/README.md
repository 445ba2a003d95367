# termlink

Links glossary terms in the Markdown chapters of a book, with proofs in Verus.

`add_term_links` reads a chapter as a sequence of Markdown events, links the first occurrence of
each glossary term in text that is safe to link, and writes the chapter back. Code, links, images
and headings are left alone, and so are the titles of definition lists on the glossary page. There
the definition lists can be sorted too, also those within one another.

- `src/linker.rs`: walking a chapter and linking the terms in its text.
- `src/definition_lists.rs`, `src/nesting.rs`: sorting the definition lists of the glossary page, and
  how they lie within one another.
- `src/matcher.rs`, `src/render.rs`: finding a term in text, and the HTML it becomes.
- `src/markdown.rs`: events, and the calls that read and write Markdown.
- `src/glossary.rs`, `src/config.rs`, `src/error.rs`: terms, settings and errors.
- `src/text.rs`, `src/order.rs`: strings and stable sorting.
- `src/linking_laws.rs`, `src/sorting_laws.rs`: what holds of linking and of sorting as a whole.

Markdown is read by `pulldown-cmark` and written by `pulldown-cmark-to-cmark`; terms are found by
`regex`. What is trusted of these crates is stated where they are called.
