# hpx

A VLESS + HTTP/2 + TLS proxy server whose decision logic is verified with Verus.

- `src/` — the verified library:
  - `vless` — the VLESS request header parser (`try_parse`, `parse_header`) and its laws;
  - `file_config` — the `KEY=VALUE` configuration file (`parse_str`, `split_list`);
  - `settings` — merging the file and the command line (`build_settings`), `normalize_path`;
  - `routing` — ALPN check, request routing, header admission, send pacing, `dest_to_string`;
  - `subscription` — query parsing, Clash YAML, VLESS links, subscription replies;
  - `net` — IP/socket address text (parsing and display), `text` — character helpers;
  - `user_id` and `tls` — the calls into the `uuid`, `rustls-pemfile` and `rustls` crates.
- `app/` — the server itself: command line, file reading, sockets, TLS, HTTP/2 streams.
- `tests/` — tests of the library.
