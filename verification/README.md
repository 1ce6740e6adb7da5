# fnf

`fnf` runs `dnf upgrade` in two steps: it first asks `dnf` what an upgrade
would do (`--assumeno`), shows the pending updates as a table grouped by
repository, with the changed part of each version highlighted, and then asks
before running the real upgrade.

The library in `src/` holds everything that `fnf` decides and computes, each
function with a contract proved by Verus:

- `text`: whitespace, lines and words over character sequences;
- `float`: rounding a fraction to the nearest `f64`, in integers;
- `size`: reading sizes such as `53 MiB` as `str::parse::<f64>` would;
- `stdout`: the package table of `dnf upgrade --assumeno`;
- `table`: the package table described line by line, and the reader held
  to that description;
- `stderr`: the progress and summary lines on standard error, as a state
  machine from line to next state and terminal action;
- `display`: size texts as `{:.1}` prints them, repository names, version
  differences;
- `layout`: the summary as lines with aligned columns, flat or grouped;
- `render`: each summary line as text segments with their styles;
- `cmd` and `dnf`: the commands run, as they are shown, and the answers to
  the prompt and the exit status;
- `order`: stable insertion sorting and its laws.

`app/main.rs` is the program: the command line, running `dnf`, the spinner,
and printing the segments in their colours.
