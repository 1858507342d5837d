# domain

Verified record data of the DNS SRV type (RFC 2782) and the domain names it
points to, written in Verus.

- `octets` – lexicographic comparison of byte strings, ASCII case folding,
  big-endian integers.
- `builder` – a bounded buffer that wire data is appended to whole or not at all.
- `name` – domain names as label sequences (`ToDname`, `Dname`): wire format,
  case-insensitive equality, canonical ordering, composing.
- `parse` – a parser over a message and the wire format of names, with
  compression pointers.
- `srv` – the `Srv` record data: fields, equality, orderings, composing and
  parsing, with the laws that tie them together (round trips, total orders).
- `text` – the presentation (zone file) format: scanning and display, and the
  law that scanning the display of record data gives it back.
- `server` – commands that steer a running server.
