# cce-map

A slippy-map raster tile viewer (OpenStreetMap by default).

- `src/` is the library, verified with Verus.
  - `tiles`: the tile store: fetch once, keep what is in use, evict the least
    recently used.
  - `laws`: what holds of the store across operations.
  - `frame`: the tile zoom, the visible tiles, and how each is painted.
  - `fetch`: cache paths, tile addresses, and the steps of a fetch.
  - `control`: what pointer, wheel and key events ask for; renderer changes.
  - `text`: decimal numerals and placeholder substitution.
  - `decode`, `status`: the calls into `image` and `reqwest`.
  - `png`: the check of a PNG file's palette before the file is decoded.
- `app/` is the application around it: window, floating-point geometry,
  worker threads, disk and network.
- `tests/` runs the library.

Environment: `CCE_MAP_TILE_URL` replaces the tile address template, with
`{z}`, `{x}` and `{y}` for zoom, column and row. Tiles are cached under
`$XDG_CACHE_HOME/cce/map/tiles`, or `~/.cache/cce/map/tiles`.
