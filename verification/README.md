# bsr

A small HTML library: it reads a document into a tree of tags and raw text,
and walks that tree in pre-order or in level order, with a search that keeps
the raw text.

To build the tree of an HTML text, call `parse::parse_html(text)`. For the
page at a url, the program fetches the page (`app/main.rs`, a network call)
and hands its text to `parse::get_and_parse_html(page)` or
`tree::ParseTree::new(page)`; the library only ever reads text it is given.

Iterate over a tree with `tree.iter(true)` for pre-order and
`tree.iter(false)` for level order, calling `next()` until it gives `None`.

Everything under `src/` is verified with Verus, but for one trusted wrapper:
`text::push_char`, which calls `String::push` (vstd gives that method no
specification) and is believed to append its character.

- `src/grammar.rs` states the grammar that documents follow; the reader in
  `src/parse.rs` is proved to build exactly the tree that the grammar
  describes. It also states the shape of every element the grammar reads.
- `src/writing.rs` states how a tree is written as HTML, and proves that the
  grammar reads the written text back as the same tree (also with white
  space at tag boundaries), and that every tree the grammar reads can be
  written. For any document it reads, white space put in at a tag boundary,
  or before or after the root, leaves the tree unchanged.
- `src/tree.rs` and `src/rusty_soup.rs` hold the iterators, proved to give
  the nodes in the orders stated in `src/traversal.rs` (and in `rusty_soup`
  itself), including pruned traversals under any `NodeFilter`.
- `src/attributes.rs` holds the attributes of a tag. A `Vec` of pairs holds
  them where a `HashMap<String, String>` would be the usual choice: vstd specifies
  `HashMap::insert` only for key types known to obey its key model, and
  `String` is not among them. The type keeps what the map gave: each name
  occurs once (a type invariant), and `==` compares the maps.
