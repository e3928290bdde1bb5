# navmap-pathfinder

A* pathfinding for a BYOND game server, over tile maps whose passability is packed into integers.
Searches are resumable: each call works for about five milliseconds and then hands control back.

- `src/` is the library. It holds every decision of the pathfinder and is verified with Verus:
  edge decoding (`nav_pass`), turf lookups (`probe`), the single-level search (`grid`, `search`),
  the multi-level search (`topology`, `portal`, `layered_grid`, `multi_search`), the handling of
  diagonals (`diagonals`), requests (`request`) and the job registry (`registry`). It asks nothing
  of the game server itself: where an answer is needed it returns a request value, and the caller
  hands the answer back.
- `app/` is the dynamic library that BYOND loads. It converts DM values, keeps the shared state,
  reads the clock and answers what the searches ask for.
- `tests/` runs the library on small maps.

What is proved of a search: a path that it finds can be walked on the turfs it has looked up, and no
other path costs less, whatever the turfs it has not looked up are like; where it finds none, there
is none. For the multi-level search this holds of every graph that agrees with the answers it was
given about links, and that the path is a cheapest one rests on a topology in which each z-level
has one place.

Where slices end has no influence (`slices`, `multi_slices`): as long as turfs and links are found
alike, a search that yields comes to the same end, and hands out the same path, as one that never
does. A job that is over, or that has been idle for thirty seconds, is unknown to the registry ever
after.
