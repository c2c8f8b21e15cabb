# gram_db

A verified library for grammar databases, and a program around it.

A grammar database (a `.gram` file) maps words in context to weights. The keys are
stored in a double array, a compact tree in which a key is followed with one step per
byte.

- `src/` is the library. Every function has a contract that Verus proves.
  - `unit`, `trie`, `array`: the units of a double array, what it means, how it is read.
  - `slots`: the growing array of a build, with its free list.
  - `nodes`, `chains`, `bits`, `dawg`: the word graph of keys with values.
  - `sketch`, `graph`, `plan`: which word graph keys become, and where its nodes, or those of
    a plain tree, go.
  - `progress`: who hears how far a build has come.
  - `keyset`, `words`, `direct`, `builder`: which keys are accepted, what they stand for,
    and how they become a double array.
  - `codec`, `sort`, `bytes`, `gram`: encoded keys, and database files.
  - `cli`: what the command line and the lines of input files mean.
  - `laws`: what holds of the library as a whole.
- `app/` is the program: files, terminal, and the floating-point weights.
- `tests/` runs the library.
