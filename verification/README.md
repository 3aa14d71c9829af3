# protohackers

Servers for the Protohackers problems. The decisions each server makes live
in the verified library under `src/`; `app/` holds the network loops.

- `src/prices.rs`: nine-byte price frames, the per-session price store and
  the mean price over a range of timestamps.
- `src/coin.rs`: rewriting Boguscoin addresses in chat lines.
- `src/chat.rs`: chat-room membership and the lines each event sends.
- `src/prime.rs`: primality requests and their answers.
- `src/kv.rs`: the key-value store and its request format.
- `src/text.rs`: character helpers shared by the above.
- `app/`: one subcommand per server (`echo`, `means_to_an_end`,
  `mob_in_the_middle`, `prime_time`, `budget_chat`, `unusual_database`,
  `speed_daemon`), the thread pool, sockets and JSON.
