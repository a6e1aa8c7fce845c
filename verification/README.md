# pdfboss_core

The object layer of a PDF reader, verified with Verus: objects and their
syntax, stream filters, and the document-level dictionaries read as data.

- `src/` is the library. Every function states what it returns or changes;
  public proof functions state what holds across functions.
  - `object`, `lexer`, `parser`, `objstm`, `written`: objects, how they are
    read, and that what was written reads back.
  - `filters`: filter chains, run lengths, LZW, predictors and JBIG2 text
    regions.
  - `source`, `tree`: delivering objects and following references.
  - `form`, `oc`, `outline`, `names`, `page_label`, `measure` and the rest:
    one module for each kind of dictionary.
  - `number`, `single`, `bignat`: real numbers by their bit patterns.
- `tests/` runs the library on concrete files and values.
- `app/` holds what is outside the proofs: sources that await their bytes,
  the codecs a filter chain is suspended for, and floating-point geometry.

Real numbers are `number::Real`, a binary64 bit pattern; colours and boxes are
narrowed to `single::Single`, a binary32 one. `app/geom.rs` converts them to and
from `f64` and `f32`.
