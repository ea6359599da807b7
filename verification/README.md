# cable_editor

The logic behind the pages of a planning tool for fibre-optic cables: panels in a Schacht
(cabinet) as an editable tree, the ports of a panel, fibers attached to ports, fibers looped
through a panel, the connection overview, the Netbox sync report, the cable map's clickable
ducts, coordinates typed by users and lines read from GeoJSON and GPX files.

Every function in `src/` is verified with Verus against its `requires`/`ensures` contract;
the laws the library keeps across calls stand as `law_*` proof functions beside the
functions they speak of.

- `src/` — the verified library, one module per page or concern (`tree`, `cabinet`,
  `panel_tree`, `ports`, `attach`, `loops`, `overview`, `netbox`, `schacht`, `lists`, `ui`,
  `coords`, `geo_file`, `errors`) and shared helpers (`text`, `ids`, `assoc`, `connections`).
- `tests/` — tests of the library on concrete values.
- `app/` — ordinary Rust around the library: parsing and formatting floating point
  coordinates, reading GeoJSON with `serde_json` and GPX with the browser's `DOMParser`,
  and errors thrown by JavaScript.
