# jev-sentinel

An infrastructure watchdog: it collects observations from probes (SSH to macOS and Nvidia
hosts, HTTP, TCP, arbitrary commands), asks the TypeSafe Jev advisor for a typed verdict,
publishes a dashboard and delivers Telegram alerts.

## Layout

- `src/` is the verified library (Verus). It holds the decisions of the watchdog:
  - `notifier`: alert admission, deduplication, coalescing, incident generations, chunked
    Telegram delivery and rate limits; `delivery_laws` states the properties they keep.
  - `history`: the fixed-size sample rings and the per-probe series behind the dashboard.
  - `web`, `http`: the dashboard's categories, key status, observation states and freshness,
    and the request framing, validation, routing and plain responses of its HTTP server.
  - `collectors`: bounded output capture and the verdicts of each probe kind, including the
    parsing of the macOS and `nvidia-smi` probe output.
  - `daemon`: the evaluation cadence and the local alert rules of the collection loop.
  - `config`: configuration defaults, validation and `${VAR}` interpolation.
  - `jev`, `self_healing`: advisor endpoints, probe categorization requests and their
    answers, and the logging-only healing plan.
  - `text`, `models`, `error`, `assoc`: text handling and shared types.
- `app/` is the program around it: command line, configuration files, network and process
  I/O, the async runtime, JSON documents and the floating-point metrics.
- `tests/` exercises the library on concrete values.
