# maestro

A personal money-automation engine over the Sequence platform. Pods are envelopes:
each bill has one, its name declares the budget, and every payday the engine works
out how much of the income pool goes where. The brain is a pure, stateless allocator
written in Verus: declared budget + pod balances + today's date → transfers.

## Pod names

| Form | Meaning |
| --- | --- |
| `[Group /] Name / Amount / DueDay [/ Frequency]` | a bill due on a day of the month (`1`–`31` or `last`) |
| `[Group /] Name / Amount / Frequency` | no due day: saved evenly over the period |
| `[Group /] Name / Amount / drawdown / YYYY-MM-DD / Period` | a dated lump that recurs (`6mo`, `1y`, `1y6mo`) |
| `G: Group` | the pod that a group's bills are funded through |
| `Name (Amount) - DueDay`, `Group (total/half)` | the old naming, still understood |

Frequencies are `month`, `quarter`, `year`, `topup` (a flat amount each paycheck) and
`keep` (a level to refill to), each with a few synonyms.

## Layout

- `src/` is the verified library: the calendar (`date`), pay schedules (`schedule`),
  the pod-name grammar (`derive`), the budget (`model`, `budget`), funding
  (`allocator`), spend and reservations (`cards`), the cycle (`assess`, `engine`),
  onboarding (`discover`), and what the commands decide and say (`daemon`, `rules`,
  `spend`, `commands`).
- `app/` is the program around it: configuration, the state file, the API client,
  the HTTP server and the command line.
- `tests/` runs the library on concrete values.

Amounts are integer cents. Dates come from chrono and colors from `colored`; what is
taken on trust of them, and of a few functions of the standard library, stands at the
functions in `date`, `style` and `text` that make the calls.
