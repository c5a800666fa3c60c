# ttags

A tag index for source trees. `ttags` walks a directory, asks libmagic for
each file's MIME type, tags Rust, C/C++, JavaScript and Python files with
tree-sitter, and saves an index of the tags by name. It then answers three
questions from the saved index: where a name is defined, where it is
referenced, and which names complete a prefix.

The library under `src/` holds the logic, with contracts proved by Verus:

- `index`: the index (files, tag records, and each name's list of records),
  its consistency invariant, and the sorted name table that is saved.
- `order`, `query`: byte order on names, binary search in the name table,
  lookups, and the records that completion shows.
- `language`, `tagging`: languages by MIME type or extension, tree-sitter
  configurations and their cache, and the tags found in code.
- `rewrite`: the rules file (`pattern | replacement` lines) applied to the
  source text before tagging.
- `tokenize`: tagging one file into the index.
- `text`: white space trimming and the printed lines.
- `db`, `command`: the SQLite front end's rows and statements, and command
  line choices.

`app/` is the program around it: the command line, the file system walk,
the threads, libmagic, the bincode files and the SQLite database. Run as
`cli`, it is the SQLite front end.
