# rmdup

Finds duplicate files under a directory, looking inside zip, cabinet, lzh and
rar archives too, and removes all but one copy of each: plain files are moved
to a backup directory (`$RMDUP_HOME/.rmdup/<time>/...`), archive members are
removed by rewriting their archive. With `--move EXT`, archives that hold a
member with extension `EXT` are moved to the backup instead.

Layout:

- `src/` is the library, verified with Verus: how scan entries are named and
  read (`file_info`, `archiver`), the order in which duplicates are ranked and
  which copy is kept (`file_info`, `dedup`), which handler a path goes to
  (`dir`), the reader of `rar lt` listings (`archiver::rar`), backup paths,
  and the string and path rules these use (`text`, `path`, `pattern`).
- `app/` is the program: argument handling, directory walking, reading and
  rewriting archives, running `rar`/`jlha`, the clock, and moving files.
- `tests/` exercises the library on concrete values.
