# eve_core

The logic of a desktop companion for EVE Online, written in Verus: every
function in `src/` carries a contract that the verifier proves, and the laws
the library promises (round trips, orders, conservation of units, shortest
distances, the safety gates) stand as proof functions next to the code they
speak of.

Layout:

- `src/` — the verified library: notification center, intel reads, paste and
  log parsers (loot, multibuy, probe scanner, skill plans, chat and combat
  logs), skill-point math, wormhole chain walk, first-in-first-out trade
  matching, after-action roll-ups, a fit's components against holdings,
  share codes, plugin and tool gates, and
  the text helpers they share. Calls into `time` and `base64`, and the few
  `std` routines that vstd gives no contract (lossy UTF-8 decoding,
  `char::from_u32`, Unicode lowercasing and `is_alphanumeric`, building a
  `String` from `char`s), sit behind small trusted wrappers whose contracts say what
  the crates and `std` document.
- `tests/` — example-based tests of the library.
- `app/` — ordinary Rust around the library: reading the game's log files,
  network calls, JSON forms of the library's types, and the money and rate
  figures, which are floating point.
