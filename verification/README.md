# dom_query

A DOM tree for HTML documents, with the operations that build, query, edit and
serialize it, written in Verus: each public function carries a contract that the
verifier proves.

- `src/` is the verified library. The tree is an arena of nodes (`tree`, `node`)
  modelled by parent, child and sibling sequences; `ops`, `tree_api`, `chains`,
  `merge`, `copy`, `strip` and `normalize` edit it and state what each edit does to
  that model, and `validate` checks an arena against the same rules. `sink` holds
  the operations an HTML parser asks of a document, `serial` the steps of writing a
  node out, `minisel` and `minimatch` a small selector language and its matching,
  `pseudo` the extra pseudo-classes, and `text_format` the formatted text of a node.
  `mdspec` states, as spec functions over the tree, the Markdown that a node or a
  document turns into; `mdser` walks the tree and writes it (`MDSerializer`,
  `serialize_md`, `NodeRef::md`, `Document::md`), proved equal to that statement,
  with the escaping and the pieces of `md` and `mdwrite`. `selection_copy` grafts
  copies of a selection onto other nodes. `laws` states the properties that relate
  several operations.
- `tests/` runs the library on concrete documents.
- `app/` connects the library to html5ever's parser and serializer and to the
  `selectors` crate; it holds no logic of its own.
