# litephoton

A scanner that prints the lines of a text that contain a keyword, with its scanning logic
verified by Verus.

- `src/` is the verified library:
  - `search.rs`: first occurrence of a byte or of a byte string (through `memchr` and
    `twoway`), and what an occurrence is;
  - `lines.rs`: which lines each method writes, as spec functions, and the laws that relate
    the methods;
  - `read_util/`: the normal and chunk methods over a mapped file, the scanner of standard
    input, the method names, the chunk layout, and the console writing helpers;
  - `file_util.rs`: the decisions of the line-by-line methods;
  - `argument_parser.rs`, `environment.rs`, `input.rs`: the settings and the input choice.
- `app/` is the command: argument parsing with clap, logging with log4rs, file mapping
  with memmap2, threads with rayon, and all reading and writing.
- `tests/` runs the library on concrete inputs.
