# dapil

The request-handling core of the Dapil Python web framework, verified with
Verus, and the runtime around it.

- `src/` — the verified library:
  - `server`: the application's configuration and route table, the plan a
    server starts from (router paths and methods, listening address, socket
    family), and the reactions of the serving loop to shutdown events;
  - `params`: route parameters, where each takes its value from (path,
    query, JSON body, header, cookie, form, uploaded file), type conversion,
    and the arguments a handler receives;
  - `validate`: length and pattern constraints, in schema order;
  - `response`: responses for handler results and exceptions, response
    header maps;
  - `request`: the request object's header, query and URL dictionaries and
    its body parsed as JSON;
  - `flow`: multipart detection and the uploads of a request, and the step
    after calling a handler or middleware;
  - `dict`, `headers`, `json`, `text`: insertion-ordered dictionaries,
    header lookup, JSON documents as plain values, integer/float text
    syntax and decimal formatting;
  - `foreign`: the trusted items through which the library calls
    `form_urlencoded`, `cookie`, `regex`, `serde_json`, `multer`, `axum::http`
    (header maps, names, values, status codes) and std.
- `app/` — Python bindings (pyo3), the Tokio/Axum serving loop, numeric
  bound checks (floating point) and benchmark servers.
- `tests/` — tests of the library.
