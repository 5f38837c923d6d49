# halo

A verified core for a small web framework and for `rsctl`, a code generator
driven by `.api` description files.

- `src/` is the library, checked by Verus:
  - `rest/`: server configuration and its validation, route paths and
    prefixes, the router (one `matchit` tree per method), request parsing
    (headers, urlencoded forms, merging path, form and JSON values), the
    decisions of the built-in middlewares (body limits, gzip, token bucket,
    bearer tokens), the server builder with its route table, and the engine.
  - `rsctl/`: the `.api` parser, the semantic step to a description model,
    naming rules, the project generator over templates, the OpenAPI document,
    the pipelines and the command line's dispatch.
  - `render`, `json`, `jwt`, `utils`: template rendering, JSON values and
    their text, HS256 tokens, user directories and template lookup.
- `app/` is the `rsctl` program and the running side of the framework:
  argument parsing, files, processes, sockets and async middlewares.
- `tests/` exercise the library through its public interface.
