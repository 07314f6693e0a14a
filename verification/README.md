# stele

The core of stele, a terminal markdown viewer, written in Verus: every
decision it makes about untrusted input is an executable function with a
contract, and the properties the viewer relies on are proof functions
(`law_*`) checked by the verifier.

## Layout

- `src/` — the library.
  - `text`, `path` — characters, bytes and paths as the rest is written
    against them.
  - `loader` — the size ceiling, decoding, the facts shown for a file, and
    what a source is called and where its relative paths resolve.
  - `link` — classifying a link, validating a URL before it reaches the
    opener, admitting a target file, and the back-stack.
  - `follow` — following a link and going back, as steps between the
    look-ups, reads and opener calls they wait on; only a loaded target
    pushes, and a failed going-back puts its entry back.
  - `explore` — a directory listing and the overlay window it paints in.
  - `edit` — the edit buffer, the plan an edited buffer becomes, the order
    it runs in and what a failure spares.
  - `rename` — renaming without replacing: link then unlink, and the
    checked fallbacks, as steps between the system calls.
  - `media` — the remote-image cache, fetch limits and redirects, rewriting
    image destinations, raster residency and frame-by-frame placement.
  - `session` — the `--watch` schedule and reload-failure reporting.
- `tests/` — tests run against the compiled library.
- `app/` — the `stele` binary: command line, file system, processes and
  network around the library's decisions.
