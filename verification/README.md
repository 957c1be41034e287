# airfoil_panel

A vortex panel method for 2D airfoils, reading airfoil coordinate files (`.dat`,
Selig or Lednicer layout) and writing pressure and lift coefficients as CSV.

- `src/` is the library, verified with Verus: the `.dat` text format (lines, trimming,
  comments, tokens, Lednicer detection and contour order), NACA 4-digit codes and the
  point layout of generated airfoils, and the names of the files read and written.
- `app/` is the program: file and directory I/O, number parsing, the floating point
  geometry and the linear solve (nalgebra), and CSV output (csv, serde).
  `app normalize <input.dat> <output.dat>` rescales a coordinate file to unit chord.
