# http

An HTTP/1.1 server library. `src/` holds what a server decides and computes,
with contracts that Verus proves; `app/` puts sockets, TLS, files, timers and
signals around it; `tests/` runs the library on concrete values.

Texts are modelled by their UTF-8 bytes: a contract speaks of `Seq<u8>` where the
code holds a `String` or a `&str`.

| module | what it holds |
| --- | --- |
| `text`, `numbers`, `date` | byte strings, decimal and hexadecimal numbers, HTTP dates |
| `field_lines`, `cookie_store` | header fields and cookies, read and written |
| `body` | bodies, multipart bodies |
| `request`, `response`, `compress` | requests, responses, what is compressed |
| `connection` | reading request heads, writing response heads, chunks |
| `cors` | cross-origin policies and what they say to a request |
| `route_definition`, `router` | route patterns, and the prefix tree that matches them |
| `active_set`, `server`, `control` | requests under way, what is done about a request, restarts |
| `static_files`, `tls`, `attributes` | serving files, certificates, the checks of the attributes |
| `outside` | calls into other crates, with what is taken for granted of them |

Proof functions whose names begin with `law_` state what holds of several
functions together: that what was written is read back, which route answers a
request, that no file outside of a directory is served.
