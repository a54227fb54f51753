# Omawind

The wind engine for Omahoy: NOAA's HRRR forecast and NDBC's measured wind,
served over a Unix socket. The logic is a library that Verus verifies.

- `src/` is the library: GRIB2 decoding (`grib`, `grid`), a run's forecast and
  the points it is sampled at (`forecast`), which runs to fetch, keep and show
  (`fetch`), station reports (`obs`), omakeel's messages (`keel`), settings
  (`config`, `paths`), the engine's state and its answers (`engine`), and the
  apps' lines (`client`). `number` holds finite floating-point numbers by
  their bits, `big` whole numbers of any size, `json` holds messages, and `text` and `time` what all of them
  share.
- `app/` is the program around it: sockets, files, `curl`, and the
  floating-point work of placing points on the map and interpolating wind.
- `tests/` run the library.
