# bokai

A verified library for editing EPUB sources and for reading Aozora Bunko texts.

An EPUB is held as its zip members, byte for byte. Each operation rewrites only
the members it is about: the package document when metadata or the reading order
changes, the navigation documents when a table of contents is written, single
documents and stylesheets when they are split, merged, tidied or renamed in. What
an operation does is stated in its contract over sequences of characters and
members, and proved with Verus; what holds of several operations together stands
as public proof functions beside them.

- `src/` is the library. `src/lib.rs` lists the modules.
- `tests/` runs it on small books and on the texts of single documents.

Reading and writing zip archives, decoding text, and matching the annotation
patterns of Aozora Bunko are left to the crates `zip`, `encoding_rs` and `regex`.
What the library takes for granted of them is written above each function that
calls them, in `src/archive.rs`, `src/codec.rs` and `src/aozora/notation.rs`. Files
and clocks are the caller's: bytes, a date and identifiers are handed in.
