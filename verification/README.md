# webadev

A tiny web dev server with live reload. The library in `src/` holds the
logic, each function with a contract that Verus proves:

- `text`: character-sequence helpers (search, replace, trim, decimal numerals);
- `path`: the file name and extension of a `/`-separated path, and the
  comparison of two paths by their components;
- `server`: parsing of `Name: value` headers, injection of the live-reload
  script into HTML pages, the url of a bound server, the live-reload event
  stream's decisions and the replies to file requests;
- `watcher`: which filesystem events call for a reload, the debounce queue
  that collapses a burst of changes into one reload (each path queued once),
  and whether a reload can hot-swap stylesheets;
- `watch_loop`: the watcher thread's wait for the next reload as a run of
  rounds, and what such a run hands out.

`app/` is the `webadev` command around it: command-line arguments, the axum
router and its handlers, the notify watcher thread and the clock. The
server and watcher API (`Server`, `Config`, `bind`, `serve`, `watch`,
`FileWatcher`) is async and I/O, so it lives there, in the binary; a
library user gets the verified logic from `src/`, not that API.
