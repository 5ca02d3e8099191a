# library

A formula calculator written in Verus. Formulas are parsed into expression trees,
simplified, evaluated with exact rational arithmetic where possible and with
`astro_float` floats otherwise, and printed with rounding and thousands separators.

Layout of `src/`:

- `text`, `splitting`, `parsing`: reading formulas into `Element` trees.
- `element`, `number`, `rational`: the trees, numbers and exact integers/fractions.
- `signature`, `symbols`, `insertion`: symbol definitions and their call signatures.
- `store`: the defined variables and functions, the default ones, and running an input
  (a definition or a calculation with the defined symbols).
- `optimization`: simplification of trees.
- `arithmetic`, `evaluation`: operations on numbers and evaluation of trees.
- `printing`, `division`, `formula`, `rendering`, `debug_text`: numbers and formulas as text.
- `history`, `shortcuts`, `benchmarking`, `matching`, `outcomes`: supporting types.

`app/main.rs` is a console front end. Calls into `num-bigint`, `num-rational`,
`astro-float`, `regex`, `chrono` and `colored` sit behind small trusted functions whose
contracts are stated next to them.
