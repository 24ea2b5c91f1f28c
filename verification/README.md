# jot

The logic of Jot, a small notes program with a screen recorder and a voice input, as a
verified Verus library.

- `src/` is the library. Each function carries a contract, and Verus proves that the code
  meets it. What holds of several functions together stands in the public `law_...` proof
  functions beside them.
- `tests/` runs the library on concrete values.
- `app/` is the program around it: the GTK windows, the database, the other programs that it
  runs, the microphone and the network. It hands plain values to the library.

The library trusts little: a few functions of `std`, and `chrono`, `slug`, `sha2`, `hex` and
`serde_json` behind small wrappers, each of which says in its comment what is taken for
granted.

File paths are read and written as the system does it that a `System` value names.

Times in the library are whole microseconds, and shares such as an opacity are millionths.
What can only be computed in floating point (the loudness of a sound, the drawing of an
image) is done in `app/` and handed over as a plain value.
