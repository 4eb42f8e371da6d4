# dns_server

A small DNS server. The library (`src/`) holds the wire format and is verified with
Verus; `app/main.rs` is the UDP server around it.

- `wire`: big-endian integers and byte-buffer splicing; the `byteorder` call.
- `name`: dotted names, their labels and the length-prefixed wire form.
- `field`, `question`, `answer`: records and their wire forms.
- `header`: the twelve-byte header and the packed flags word.
- `message`: messages and their question and answer sections.
- `dns`: a flat form of header, question and message used to write queries.
- `ipv4`: dotted-decimal addresses.
- `server`: the query the server forwards and the reply it gives on its own.

Each reader states, as a spec function, the value it reads from given bytes, and each
writer the bytes it writes; the proof functions state that what is written reads back.
