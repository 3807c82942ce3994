# c2pa-http

C2PA manifest discovery over HTTP: the `c2pa-manifest` `Link` header
(RFC 8288), parsed and serialised, with a Tower middleware that attaches it to
every response.

The library in `src/` is verified with Verus:

- `link` — the header grammar: splitting on `,` and `;` outside targets and
  quoted strings, trimming, unquoting, the first-`rel`-wins rule, JUMBF
  fragments, percent-encoding of targets, `format`, `format_strict`,
  `locate_all` and `extract`. Each function's contract states its result
  exactly, over specification functions on character and byte sequences.
- `layer` — appending the header to an `http::HeaderMap` and reading it back,
  and the header value that the Tower layer renders once and appends to every
  response (`append_header`).
- `error` — the error type and the C2PA status code it maps to.
- `laws` — proofs of what holds across functions: encoding is idempotent,
  keeps valid URIs and distributes over concatenation; a formatted header
  cannot inject another header and parses back to exactly one link (with no
  JUMBF label when the target has no `#`); `format_strict` agrees with
  `format` where it succeeds; splitting loses nothing and cuts only at
  separators outside targets and quoted strings; unquoting undoes
  quoting; separating the JUMBF fragment is idempotent; `extract` ignores the
  order and repetition of `Link` fields; an appended link is found after the
  existing ones.
- `text` — character helpers (whitespace, ASCII case, trimming, searching).

`app/` holds what cannot be verified: the Tower `Layer`/`Service`/`Future`
plumbing, `Display` for the error type, and the PyO3 and wasm-bindgen
bindings.
