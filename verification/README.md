# rikky_modoki

An AviUtl2 plugin: a script module with image, audio, progress and
script-rewriting helpers, an object sound filter and an audio buffer filter.

The logic lives in `src/`, a library verified with Verus: every public
function states what it returns in `requires` / `ensures`, and the laws that
tie several functions together are public proof functions.

- `audiobuffer`, `sound`: capture state machines of the two filters, PCM
  reads and contiguous sample windows over rendered buffers.
- `progress`: progress displays and the holds on the host window.
- `image`, `glass`, `fill`, `contour`: the image store, pixel access,
  flood-fill regions and contour tracing.
- `script`, `lua_string`, `group`, `rewrite`, `replacement`, `paths`: reading
  and rewriting `--dialog` parameters of scripts, their version and backup
  markers, and where script files live.
- `encoding`, `number`, `scan`, `lines`, `text`: Shift-JIS, hashes, numbers
  and the text scanning the rest is built on.

`app/` is the plugin around the library: the host's callbacks, file and
window I/O, and the floating-point drawing, lighting and audio mixing.
`tests/` exercises the library through its public functions.
