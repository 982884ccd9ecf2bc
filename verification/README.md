# caryatid

The verified core of an event-based modular framework whose modules talk over
publish/subscribe message buses, with a request/response layer on top.

`src/` is the library, checked by Verus:

* `topic` — matching dotted topics against RabbitMQ-style patterns (`*` one
  word, `#` a run of zero or more words), with the laws of the two wildcards.
* `routing` — the routing bus's table: buses by id (listed in the order of their
  ids), routes by pattern, and the buses a topic goes to (those of the first
  route it matches).
* `subscriptions` — the in-memory bus's subscription table and its delivery rule.
* `correlation` — request ids, request and response topics, routing a response
  back to the waiting request, and the table of open requests.
* `rest` — REST request/response messages, the topic and the query parameters
  of an HTTP request, and the HTTP answer to a bus reply.
* `monitor` — per-module read/write counters in `dashmap` maps, backlogs and
  pending times, and what a snapshot reports after any history of bus use.
* `clock`, `process`, `mock_bus` — tick numbering, process and module
  decisions, message file names, and a recording bus for tests.
* `text`, `text_map` — character-level splitting and joining, and a map keyed by text.

`app/` is the process around it: async buses (in-memory, RabbitMQ, routing,
correlation, monitor), the REST server, the clock, spy, record and playback
modules, and `main`.
