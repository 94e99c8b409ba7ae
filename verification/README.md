# dockui (verified core)

A minimal Docker dashboard backend: container list, live logs and CPU/memory
history. The decisions of the service live in the verified library under
`src/`; `app/` is the program around it (Docker API, files, SQLite, HTTP).

Library modules:

- `text`: Unicode whitespace, words, lines, trimming and integer parsing with
  the meaning of the standard string methods.
- `config`: settings from a snapshot of the environment.
- `ids`: container id shape and short ids.
- `types`: containers, CPU shares, host figures, history ranges.
- `registry`: the container list and its running subset.
- `docker`: container records from the daemon's list (stably sorted by
  lowercase name) and container events.
- `idmap`: a map keyed by container id.
- `stats`: cgroup (v2/v1) file formats and sampling, the Docker stats API
  fallback, `/proc/stat` and `/proc/meminfo`, and the collector's decisions
  (which containers the fallback covers, a tick's figures, when to persist).
- `logs`: log line splitting, the live stream's choice of lines to keep
  (timestamp de-duplication), container output and file tails.
- `rotation`: log file size accounting and rotation steps.
- `web`: history windows, log tail sizes, static file answers, pruning cut-off.

CPU usage is carried as integer counters (`CpuShare`); the program turns it
into the percentages the API reports.
