# sat_step

Sudoku as a SAT problem, solved with CaDiCaL, with the logic for browsing
what the solver learns. The library in `src/` is verified with Verus:

- `cnf/`, `cnf.rs`, `binary_cnf.rs`, `cnf_converter.rs`: the decimal and
  binary CNF encodings of a sudoku, their variable identifiers and the
  variables read back from them;
- `sudoku.rs`: reading and writing the text form of a sudoku, and solving it
  through the solver (`cadical_wrapper.rs` holds the few trusted calls into
  the `cadical` crate);
- `solution.rs`: what a solution found under an encoding guarantees;
- `filtering.rs`, `app_state.rs`, `ctrl_obj.rs`: filtering and paging of the
  learned constraints and trails, and the selection state;
- `grid_view.rs`, `little_symbols.rs`, `labels.rs`, `session.rs`: what the
  grid and the lists show, and starting over with a sudoku.

`app/` is a small command-line program around the library: it reads a
sudoku from a file, solves it and prints the solution (and, on request, the
learned constraints).
