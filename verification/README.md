# pricefetch

Two blockchain pallets as verified state machines, written in Verus.

- `price_fetch`: prices of tokens fetched from remote sources (coincap,
  cryptocompare), their indices by token and by source, and aggregated
  prices: the rounded mean of the prices recorded since a token's last
  aggregation. Its offchain worker decides which quotes to fetch and which
  aggregations to submit; the tags of its unsigned transactions are SCALE
  encodings made with `parity-scale-codec`.
- `offchain_cb`: pings stored on chain, answered by the offchain worker,
  when some authority's key is local, with unsigned pongs and pongs signed
  by the pinging account and by that local authority; authorities are
  managed by root.
- `linked_map`: the insertion-ordered storage maps both pallets use.
- `json`: the parsed JSON quotes the price sources send.
- `dispatch`, `encode`: origins, transaction validity and tag encodings.

`app/` is a local node around the library: it makes the HTTP requests
(plain `http://` only, so the `https://` quote URLs fail), hands the body to
the `simple_json` JSON parser that the pallet was written against, turns
decimal prices into integers (floating point) and submits transactions.
That parser is not the crate of the same name on crates.io, so `app/` does
not build as it stands.
