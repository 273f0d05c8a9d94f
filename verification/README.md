# rusted_httpd

A small static-file HTTP server with optional PHP (FastCGI) support. The request
and response logic is a Verus-verified library; the program around it is plain Rust.

- `src/text.rs`: character-sequence operations (split, join, replace, trim, lines,
  white-space tokens, decimal notation) with their laws.
- `src/parsing.rs`: the `GET` target of a request, the request line and headers
  (the query part found with the `regex` crate), and content types.
- `src/utilities.rs`: file entries of the document root, lookup by URL path, the
  directory listing page, and the bytes of a response.
- `src/server.rs`: the refresh rule for the file list and the page cache, splitting a raw request into text and
  body, the page that answers, the response head, keep-alive.
- `src/config.rs`: the settings and their defaults.
- `app/`: configuration file (serde), sockets, directory walk, file reads, the PHP
  connection and the worker loop.
