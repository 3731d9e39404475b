# antinode

A client core for the HyVibe smart guitar, and a reader for the loop
recordings it writes, with their behaviour stated as Verus contracts and
proved.

- `src/handshake.rs` — the connect-time version banner (`S1.2.3_E2.7.0` or
  `@version 2.7.0`) and dotted firmware versions.
- `src/loopfile.rs` — the RIFF/WAVE header of a loop, the vendor's `JUNK`
  metadata in it, and what its tempo says about the audio's length.
- `src/probe.rs` — the control-run probe's command line, call parameters, hex
  reply dumps and failure advice.
- `src/ble.rs` — the guitar's GATT identifiers.
- `src/text.rs` — trimming, splitting and decimal numbers over characters.
- `app/` — the probe program and its Bluetooth transport (scan, connect,
  banner), which do the I/O around the library.
