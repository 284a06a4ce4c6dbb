# libwebs

A small HTTP/1.x file server, written as a library verified with Verus and a
thin program around it.

The library (`src/`):

- `http_magic` — methods, versions, status codes, reading a request from the
  bytes of a connection (`HttpRequest::from_vec`, `try_from_vec`,
  `parse_head`, `headers_terminated`) and framing a response
  (`HttpResponse::to_vec`, `http_headers_fmt`); laws on reading back what is
  written.
- `headers` — the header map (`HttpHeaders`): names occur once, a later field
  replaces an earlier one in place.
- `text`, `number`, `strings` — the text rules the reader applies: lines,
  words, splitting at commas, trimming, `usize` numbers in decimal.
- `encoding` — facts about UTF-8 encoding that the laws on response bytes
  use.
- `server` — the decisions of the server: when a waiting connection is served
  or closed, which file answers a request, and the header fields of an answer;
  laws over whole runs of a connection (how many requests it serves, when it
  stops waiting).
- `control`, `config` — connection limits, the shared idle-connection mark and
  the server's settings.
- `utils` — joining values and guessing MIME types from file extensions.

The program (`app/main.rs`) listens on the socket, runs the worker threads,
reads and writes files and asks the library what to do at each step.
