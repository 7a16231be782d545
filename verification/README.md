# A verified C library for a symbolic machine

The crate simulates the C library calls of a program under symbolic
execution. A path's `State` holds its memory, its files, its process id,
its status, the symbolic inputs made so far and the constraints on them.
Each call (`strlen`, `memcpy`, `malloc`, `open`, `fork`, ...) takes the
state and its arguments as `Value`s and returns a `Value`.

A `Value` is a 64-bit word: either known, or an expression over symbolic
inputs. `Value::eval` gives the word it denotes under an assignment of the
inputs, and every contract is stated through it, so it holds for every
assignment.

A path also keeps a model: a word for each symbolic input under which all
its constraints hold. Where a call needs a known address or descriptor and
is given a symbolic one, it takes the word the model gives it and adds the
constraint that pins the path to that word, so the model stays a solution.
Each call's contract names the values it pins, in order.
A symbolic count is kept symbolic: every byte up to a bound is written,
guarded by the count. The bound is read off the count's shape (a byte
input, a string length) where that gives one; else it is the count's model
word, and the path is capped there. New symbols are fresh: every symbol in memory, in
the files and in the constraints has an id below the number handed out.

Layout:

- `src/value.rs`: values, operators that fold concrete words, evaluation.
- `src/memory.rs`: byte memory, string length, search, comparison, the
  heap allocator, and the laws about them.
- `src/sims/fs.rs`: files and file descriptors, and their laws.
- `src/state.rs`: the state of one path.
- `src/sims/libc.rs`: the library calls and their laws.
- `tests/`: tests of the calls and of the model.
