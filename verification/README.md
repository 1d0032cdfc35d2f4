# btc-model-trainer

Collects the history of BTC/USD trades from Binance, Kraken, Bitstamp and
Coinbase into monthly shards, and makes labelled feature rows of it for
training.

`src/` is a library whose functions are verified with Verus:

- `text`, `binary64`, `calendar`: decimal texts and paths, numbers by their bit
  patterns, and months in UTC.
- `historical`: the rows that are stored, the store's layout, cursors, merging
  months, and how the history of each exchange is walked (`historical::sources`).
- `training`: buckets of trades, ticks, features, the trailing window of returns,
  labels, and the files that labelled rows go to.

`app/` is the program around it: requests, files, and floating-point arithmetic.
It needs the `btc-prediction-engine` crate for the live engine's features.

`tests/` runs the library on given values.
