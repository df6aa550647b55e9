# kvstore

The decisions that the programs of a replicated key-value store make, as a library verified with
Verus, and thin programs around it.

- `src/benchmark.rs`: the driver that reads operations from its input: which lines it accepts, how
  the results of one or several partitions become one output, and when an aborted command is sent
  again.
- `src/client.rs`: the interactive client: tokens, prompt, keys, and how the results of a command
  are printed.
- `src/log_manager.rs`: the log manager as a machine that takes what happened and says what is to
  be done next.
- `src/server.rs`: which services a server starts, in which order, and how the start ends.
- `src/scan.rs`, `src/entries.rs`: what partitions answer to a scan, how their answers become one,
  and the order of its entries.
- `src/gather.rs`: that what is gathered from several parts does not depend on their order.
- `src/text.rs`: words, lines, trimming, joining and numbers.
- `src/gateway.rs`: the results that the gateway hands out.
- `app/`: terminal, standard input, channels and connections. The session and the forms of keys
  come from the crates `common` and `rpc` of the store's workspace.

How a key is read and written is handed to the library as two functions. What is proved of a scan
holds for every such pair of which neither panics on what it is given, and of which each computes a
function of its arguments: the same arguments always give the same result. The contracts name the
words that are read as keys and the numbers of which keys are written.
