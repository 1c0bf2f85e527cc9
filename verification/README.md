# wsarb

A websocket arbitration proxy for redundant order-book feeds, with its decisions
verified in Verus.

Several upstream nodes publish the same market data. The proxy subscribes to all
of them and forwards each update once, from whichever node delivered it first. A
companion load test reads the proxy and the nodes side by side and says what was
lost, invented or late.

## Layout

| Path | What it holds |
|------|---------------|
| `src/key.rs`, `src/wire.rs` | Subscriptions: identity, normal form, spelling on the wire |
| `src/arbitration.rs` | Which copy of a frame goes out |
| `src/entry.rs` | One subscription: its race, its followers, the clients that wait |
| `src/client.rs`, `src/state.rs` | Clients, the registry, and every call on the shared state |
| `src/registry.rs`, `src/loadtest/maps.rs` | The concurrent maps behind it, as far as they are trusted |
| `src/upstream.rs` | Routing, freshness, reconnecting, and where to fetch a snapshot |
| `src/stats.rs`, `src/page.rs`, `src/probes.rs` | Counters and the statistics page |
| `src/text.rs`, `src/order.rs` | Texts: digits, escaping, sorting, joining |
| `src/loadtest/` | What a load test measures, compares and concludes |
| `src/*_laws.rs` | What holds over whole runs of frames and calls |
| `app/` | The program: sockets, clocks, files, arguments, figures with a decimal point |
| `tests/` | Scenarios, run against the compiled library |

## How frames are ordered

Contents are never compared. A frame carries one number, and the channel says how
numbers order:

- **Point** (`trades`): the newest trade id wins.
- **Lead** (`bbo`): one node carries a stamp to its end.
- **Sticky** (`l2Book`, `l2Diff` increments): one node carries the whole stream.
  When it is lost, the next node that speaks carries an `l2Book`; the followers of
  an `l2Diff` are rebuilt first.
- **Block** (`l4Book` increments, `orderUpdates`): positions within a block are
  raced one by one, so that a block is completed by whoever is still alive.
- **Snapshot**: a reset, and the only thing that lets a node back in to a stream
  of increments after it was lost while it led.

`bookDiffs` is refused: its frames carry nothing to order by.

## What is trusted

The bodies of a few functions are taken at their word: the operations of
`dashmap::DashMap`, `serde_json::to_string` of a text, the sort and the push of
the standard library. Each says in its doc comment what is claimed of the outside
function. Everything else in `src/` is proved.
