# iToken

A peer-to-peer network in which nodes answer queries to language models and are paid in iTokens for
the tokens they generate.

- `src/` is the verified core: amounts, receipts and their prices, signatures, the ledger,
  reputation and routing, the statistics of the network, the reading of streamed answers, the
  detection of engines, the bookkeeping of the network, the chat interface. Doubles are held as
  their 64 bits and computed on with verified arithmetic (`float64`, `rounding`), so that all nodes
  come to the same prices.
- `tests/` runs the core on concrete values.
- `app/` is the node itself: command line, files, HTTP and the peer-to-peer transport.

The module `dpu` holds the first protocol of the network, which counted amounts in doubles.
