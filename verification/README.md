# better_rng

Random numbers for games, from PCG generators that take their seeds from the operating
system. The library under `src/` is verified with Verus; `app/` makes it the class
`BetterRng` of a Godot extension.

| Module       | What it holds                                                             |
| ------------ | ------------------------------------------------------------------------- |
| `better_rng` | the generator and its draws                                               |
| `bounded`    | draws below a bound by rejection, and that they have no bias and end      |
| `entropy`    | seeds from the operating system, and the fallback where it fails          |
| `splitmix`   | the mixing of fallback seeds, and that it is a bijection                  |
| `weighted`   | the decisions of a weighted pick                                          |
| `pcg`        | `rand_pcg::Pcg64Mcg`, modelled by its 128-bit state                       |
| `orbit`      | which states the generator comes by, and its period                       |
| `uniform`    | how often it gives out each word                                          |

Floating-point arithmetic stays in `app/`: the library hands out the 53 bits of a uniform
number, and takes the outcome of comparisons between sums of weights.
