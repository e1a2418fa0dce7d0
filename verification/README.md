# ampc_core

Protocols for computing on secret-shared numbers, with proofs in Verus.

Three parties hold replicated shares of ring elements or bits. On these the library multiplies,
opens, extracts sign bits, lifts to larger rings, compares distances, selects and swaps. Two compute
parties and a dealer compare shared with public numbers over a small prime field. Five parties share
so that any two of them learn nothing; they redistribute, multiply, add and open.

Every protocol is a sequence of steps. A step takes the state of a party and the messages that it
received, and returns what it sends or ends with. `src/` holds the steps and the proofs:

- the contract of a step says what it returns for every input;
- the laws (public proof functions) say what the steps of all parties give together.

`app/` runs the steps over a network and connects them to a database, the environment and the
command line. `tests/` runs the steps of all parties side by side.
