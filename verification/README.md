# orb_vol

Opening-range-breakout engine, ranked on **expected value per prop-firm
evaluation attempt**, with its rules verified in Verus.

```
EV = pass_rate x (share of extraction - activation - monthly x months_held) - evaluation_fee
```

The one-contract signal return is an input to that, never the objective.

## Numbers

The library computes in integers. A quotient is kept as a fraction, or rounded to
the nearest unit where its contract says so.

| Quantity | Unit |
|---|---|
| price | 1/10,000 of a point |
| money | micro-dollar |
| multiples, feature thresholds | 1/100 |
| haircuts, weights | 1/1,000,000 |
| expected value, costs of a funded account | 1/1,000,000 of a micro-dollar |
| averaged rates | 1/1,000,000,000,000,000,000 |
| Hurst exponent, entropy, volatilities | 1/1,000,000,000,000 |
| rates and means over a sample | a fraction of two integers |

A feature that cannot be measured is `None`, and fails every filter on it.
Logarithms, roots and powers are taken in `app/`: the library picks each sample,
hands it to a measurement and takes an integer back.

## Layout

| Path | Contents |
|---|---|
| `src/types.rs` | bars, days, accounts, risk geometries, per-trade ceiling |
| `src/session.rs` | session resolution, session-day rebuild, session indexing |
| `src/data.rs` | rows, timestamps under a declared time zone, file matching |
| `src/features.rs` | volatility regimes, Hurst samples, sample entropy, loss tail |
| `src/backtest.rs` | the strategy, the per-day cache, year spans |
| `src/mc.rs` | evaluation and funded simulators, seeds |
| `src/ev.rs` | cost model, retry model, parallel accounts |
| `src/stats.rs` | realised statistics |
| `src/engine.rs` | the grid, the whitelist, selections |
| `src/walk.rs` | the nested walk-forward of one cell |
| `src/ranking.rs` | aggregation, gates, ranking, permutation null |
| `src/*_laws.rs` | what holds of the strategy, the simulators, the walk, the seeds and whole runs |
| `src/num.rs`, `order.rs`, `text.rs` | exact numbers, ordering, text |
| `src/draws.rs`, `parallel.rs` | seeded draws, work over threads |
| `app/` | command line, files, measurements in floating point, reports |

What the library takes on trust of `rand`, `rayon`, `chrono`, `chrono-tz` and the
standard library is stated on the functions marked `external_body`.

## Running

```
orb_vol --data-dir ./data --instruments ES --preflight-only
orb_vol --data-dir ./data --instruments ES,NQ --session ny --tz-input utc
```

`--preflight-only` prints the measurements that decide whether a sweep is worth
running, and exits. Every output file has an `engine` column that names the
version and revision.

## Caveat

The account terms in `types.rs` (targets, drawdowns, ladders, consistency
percentages, fees, evaluation duration) feed expected value directly. Check them
against the firm's current published terms before trusting any output.
