# reality-rs

A REALITY server for Debian x86_64 that accepts VLESS-over-TCP connections from
Xray clients. What the server decides and computes is a library proved with
Verus; the program around it does the I/O.

## Layout

- `src/` is the library, with its contracts and laws.
  - `tls_client_hello`: reads a TLS 1.3 ClientHello
  - `reality`: authenticates a client by the session ID of its ClientHello
  - `connection`: accepts a connection or sends it to the fallback server
  - `certificate`: the temporary certificate of an accepted connection
  - `vless`: reads a VLESS request (`decryption: none`)
  - `relay`: from the request to the relayed connection
  - `config`: from a configuration file to a configuration; key generation
  - `hello_wire`: the messages of a client, and the laws that they are understood
  - `crypto`: the operations that outside crates compute, and what is trusted of them
  - `bytes`, `text`: shared helpers
- `tests/` runs the library with the outside crates.
- `app/` is the program: `reality-rs keygen`, `reality-rs serve <config.json>`.

## What is proved

- The parsers compute their grammars exactly, for every input, and give back
  every well-formed message that is put into its wire form.
- A client that knows the server's public key and follows the protocol is
  accepted. Nobody is accepted without an authentic session ID that holds an
  allowed version, an allowed time and a configured short ID.
- For whoever is not accepted the decision is the fallback server, with the
  first record as it was read.
- The VLESS header is found however the bytes are cut into reads, and what was
  read behind it is handed out as payload.

The program carries these decisions out: it connects, passes on and relays.

The proofs rest on the contracts in `crypto` and on two of the standard
library's text functions in `text`.

## Configuration

`keygen` prints a key pair. The private key goes into the configuration file,
the public key to the clients. `short_ids` are up to sixteen hexadecimal digits,
an even number of them, `users` are UUIDs, `server_names` are matched without regard to case, and
`max_time_diff_secs` is 600 unless the file says otherwise; zero disables the
clock check. `fallback` must be a reachable TLS endpoint.
