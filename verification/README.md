# conjecture

Generation and shrinking of test cases, verified with Verus.

A test draws its data, block by block, from a `DataSource`. An `Engine` hands out the
sources: random ones until a test is interesting, and from then on recorded ones that
try to make the data of that test simpler, that is shorter, or of the same length and
lexicographically lower.

| Module | What it holds |
| --- | --- |
| `data` | sources, draws, and the results of tests |
| `streams` | the order on streams of blocks, and edits of them |
| `deletion` | deletion of draws that do not overlap |
| `duplicates` | groups of blocks that hold the same value |
| `passes` | the rules by which a shrinker chooses its next attempt |
| `shrinker` | the shrinker, which follows those rules |
| `generation` | the main loop: generation first, shrinking next |
| `engine` | the engine |
| `random` | the generator of the `rand` crate |
| `replay`, `laws`, `minimality`, `history` | what holds of the library as a whole |

The engine leaves the search for the lowest value of a block to its owner, who is told
about it by `Engine::search_step`. The crate under `app/` is such an owner: it runs a
search function on a thread and passes questions and answers on.
