# niimprint-rs

A client library for Niimbot label printers (B1, B18, B21, D11, D110) over USB
serial or Bluetooth, verified with Verus, and a small command-line tool.

- `src/` is the library. `packet` frames and parses protocol packets and
  drains frames from a receive buffer; `codec` decodes the printer's replies
  (RFID tag, heartbeat, print status, information values) and parses
  Bluetooth addresses; `raster` packs grey-scale images into printable rows;
  `printer` holds the `Transport` trait and the `PrinterClient` that sends
  requests, matches replies and runs a whole print job (Bluetooth handshake,
  protocol choice, page, wait for the end of the job); `session` states, as
  functions of the bytes the transport's reads return, what a request and a
  whole print job send and how they end; `error` and `message` hold the
  error type and its descriptions. Every function there carries a
  contract that Verus proves; `packet` also proves the round-trip laws and
  that a stream of frames cut into any number of reads is reassembled into
  the same packets, in order.
- `app/` is the `niimprint` tool: argument parsing, image loading and
  rotation, and the serial and Bluetooth transports.
- `tests/` runs the library against in-memory transports.

Example:

```bash
niimprint --model b21 --conn usb --addr /dev/ttyACM0 --rotate 90 --image label.png
```
