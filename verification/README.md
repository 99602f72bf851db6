# osr_helper

Tools for running tabletop role-playing games: dice expressions and random tables.

The library in `src/` is verified with Verus:

- `text` — decimal rendering of integers and joining of values.
- `dice` — the syntax tree of dice expressions (`Expr`, `Op`), `Dice` (an expression with
  its text), and the text form of expressions.
- `parser` — the grammar of dice expressions as spec functions (`dice_grammar`) and the
  parser proved to follow it (`DiceParser`); reading `i32` literals (`parse_i32`).
- `roll` — evaluation: `eval` says what an expression gives for a given sequence of die
  draws; `Roll::replay` evaluates against given draws, `Roll::new` against random ones.
- `random` — the calls into `rand` and `itertools`, with the contracts they are trusted for.
- `table` — weighted tables, their construction, and rolling them (`possible_roll` says
  which texts a roll may give).
- `laws` — properties of evaluation that hold on every input.
- `flower` — which hex of a hex flower a roll names.

`app/` is the command line tool. It reads table files written in RON (see
`app/table_file.rs` for the layout).

## Dice expressions

| operator | meaning |
|---|---|
| `+ - * /` | the sums of both sides combined |
| `++ -- ** //` | each value of the left side combined with the sum of a fresh roll of the right side |
| `d` | roll dice: `3d6` |
| `kh kl dh dl` | keep or drop the highest or lowest values; a negative count works from the other end |
| `,` | both sides' values, one after the other |
| `=` | the sum of the values |
| `@` | the right side rolled as many times as the left side sums to |

Operators bind, from loosest to tightest: `,`; `@`; prefix `=`; `++ -- ** //`; `+ -`;
`* / d kh kl dh dl`; prefix `-`. Infix operators group to the left.
