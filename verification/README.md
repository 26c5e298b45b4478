# gtts_batch

Batch conversion of text files to speech with `gtts-cli`: every `.txt` file
in a folder (and, with `--recurse`, its subfolders) becomes an `.mp3` file
beside it, unless one exists already (`--overwrite` converts anyway). Large
texts are cut into pieces first: at each occurrence of `--split <STRING>`,
and into pieces of about `--max` bytes, cut preferably right after one of
the `--split-strs`.

- `src/` is the library, verified with Verus: paths and extensions
  (`path`), the lists of files found at one place (`files`), where texts are
  cut (`split`), the names of the files written (`names`), the pieces of one
  file (`plan`) and the settings (`args`).
- `app/` is the program: command line, directory listings, reading and
  writing files, waiting between requests and running `gtts-cli`.
- `tests/` runs the library on concrete inputs.
