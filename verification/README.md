# p2pvote

A peer-to-peer voting program: voters draw random ids from a shared pool and
store their choice under that id in a kademlia network; counting draws a sample
of ids, retrieves the votes stored under them and shows one bar per option.

- `src/` is the verified library (Verus): the vote store each peer runs, the
  menu cursor, the gathering of a sample of votes, the tally and its layout,
  and the reading of counts. Every public function has a contract, and the
  properties that span functions are proved as lemmas next to them.
- `app/` is the program around it: argument handling, CSV files, the terminal,
  and the actors that talk to the kademlia network.
- `tests/` runs the library on concrete values.
