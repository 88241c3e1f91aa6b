# bus_raptor

Backward RAPTOR (Round-based Public Transit Routing) for bus networks. Given a
destination and a time to arrive there, the router works back from the destination
one ride per round, keeping at each stop the latest departure that still arrives in
time and leaves within the maximum departure delay, and returns the journey with the
latest departure from the requested start (without one, from the stop whose latest
departure is earliest); a private bus planner chains such searches through a list of
stops.

The library under `src/` is verified with Verus:

- `data/structures.rs`: stops, routes, transfers, the network with its lookups, and
  journeys; the network's invariant ties its index maps and per-stop route lists to
  the stops and routes it was built from.
- `data/records.rs`: the routes-file row format (comma-separated stop identifiers and
  travel times), its parser and writer, and the round trip between them.
- `raptor/backward.rs`: the search. Every journey it returns is supported by the
  network, runs in travel order, arrives at the target time, leaves within the
  maximum departure delay, takes at most the round limit of rides, keeps to the clock
  (a ride's arrival plus the walks after it is the next ride's departure), passes no
  stop twice in a run of walks, and leaves no earlier than any other such journey
  from the same start. Without a start stop, every stop with a journey also has one
  leaving no earlier than the one returned.
- `raptor/journey.rs`: journey checks, summaries, the text shown to users, and the
  `HH:MM` time parser.
- `raptor/private_bus.rs`: multi-stop planning; a failure names the segment whose
  search came back empty.
- `cli/config.rs`, `cli/plan.rs`: the command-line settings that the library decides
  on (destination by identifier or name, transfer limit, departure delay) and the
  public search built from them.
- `raptor/geojson.rs`: which stops a map of a journey shows, and in which role.
- `bits.rs`: the stop and route flags of a search, kept in a `bitvec` bit-vector.
- `text.rs`: decimal text, trimming, ASCII case folding and `u32` parsing.

`app/` is the command-line program: argument handling (clap), CSV and JSON files
(csv, serde), walking transfers from great-circle distances, and GeoJSON output.

```bash
bus_raptor public --stops stops.csv --routes routes.csv --destination "Kaminoge Station" --arrive-by 09:00
bus_raptor private --stops-file stops.csv --routes-file routes.csv --stop "Oyamadai" --stop "Seta" \
  --destination "Kaminoge Station" --arrive-by 09:00
```
