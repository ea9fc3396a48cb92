# cluster-stall-repro

Puts a Redis or Valkey cluster under a steady load of writes and reads, one pair of workers per
key, and prints every second how they fare. It is meant for reproducing stalls.

The library under `src/` is verified with Verus:

| Module     | What it holds                                                              |
| ---------- | -------------------------------------------------------------------------- |
| `crc`      | CRC-16/XMODEM, as the remainder of a polynomial division                   |
| `slot`     | the hash slot of a key, with hash tags                                     |
| `topology` | reading the reply to `CLUSTER SLOTS` into shards, sorted by first slot     |
| `keys`     | the keys under load: a given list, or one derived key per shard            |
| `report`   | the table of shards, nodes and test keys                                   |
| `seeds`    | the search for the first seed node that answers                            |
| `stats`    | latencies and outcomes of operations, and the rows of the periodic report  |
| `worker`   | what a worker sends, records and prints in each round                      |
| `text`     | decimal numbers, aligned columns, comma-separated lists                    |

`app/` is the program around it: arguments, connections, tasks, clocks and output. It also asks
for the latency quantiles, which takes floating-point numbers.

Latencies are recorded with clamping. The histograms hold latencies below 2048 microseconds; longer
ones are counted as 2 microseconds.
