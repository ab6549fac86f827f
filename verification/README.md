# span_circuit_info

Queries the circuits of a SPAN panel over its local network interface and prints
what is asked of them: one attribute of each selected circuit on a line, ready for
a shell or a plotter, or the selected circuits as one JSON object.

- `src/` is the library, verified with Verus. It decides which credentials and
  which address apply, what goes into a request, when a failed request is
  repeated, which circuits an answer holds, which of them are selected and in
  which order, and what is printed of them.
- `app/` is the program around it: the command line, files, the network, and
  whatever involves floating-point numbers.
- `tests/` runs the library.

| module      | what it holds                                                    |
|-------------|------------------------------------------------------------------|
| `text`      | the order of strings, decimal numerals, joining                  |
| `table`     | a map from strings to values                                     |
| `json`      | JSON values, field lookup, absolute values                       |
| `attribute` | lookup by names that differ in case and separators               |
| `shell`     | quoting, and what a POSIX shell reads from quoted values         |
| `select`    | which circuits a request selects                                 |
| `report`    | from a sample of circuits to what is printed                     |
| `api`       | address, authorization, and the circuits in an answer            |
| `config`    | credentials, and the rules that lead to a connection             |
| `retry`     | when a failed request is repeated                                |

A number in floating point is held as its sign and the remaining bits of its IEEE
754 form, so that its absolute value is a matter of one flag.
