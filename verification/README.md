# deob

`deob` animates text in the terminal: every character shows as random noise for a few
frames before it snaps to its real value. Text can be animated on its own, only in the
regions between marker characters (`--markers`), or as side-by-side columns read from
files (`--col a.txt --col b.txt`). With `--color match` the noise takes the colour of the
character it stands for instead of a colour of its own.

The library under `src/` is written in Verus. Its functions carry contracts, and the
properties that tie them together (what the last frame shows, how columns line up,
what stripping and truncating keep) are proved in `src/properties.rs`.

- `text.rs`: characters, white space, decimal numbers.
- `layout.rs`: ANSI control sequences, marker regions, column layout, colours carried
  across lines.
- `charset.rs`: noise character sets.
- `animator.rs`: frames of the single-string and the column animations.
- `integrations.rs`: two columns side by side.
- `ansi.rs`, `rng.rs`: the terminal sequences and the random draws, through `crossterm`
  and `rand`.
- `cli.rs`: the options of a run.

`app/main.rs` is the command itself: it parses the options with `clap`, reads the input,
and plays the frames with a pause between them.
