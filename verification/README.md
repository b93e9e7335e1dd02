# thermocouple_logger

A four-channel K-type thermocouple logger for the TA612C meter (USB serial,
9600 8N1), with its logic verified by Verus.

- `src/` is the verified library:
  - `protocol` — the request command, assembly of the 13-byte answer frame
    from serial reads, and decoding of the four signed little-endian readings
    (tenths of a degree; `0x7FFF` is an open circuit);
  - `capture` — the capture session (samples, markers, idle/running/paused,
    the session clock that leaves paused time out), the sampling thread's
    next step, and per-channel statistics;
  - `export` — the CSV document and the export file name;
  - `readout` — the texts and control rules of the window;
  - `text` — exact decimal rendering.
  Temperatures are integer tenths of a degree and times integer milliseconds.
- `app/` is the program around it: the egui window, the serial port, the
  sampling thread, the clock and the file write.
- `tests/` runs the library on concrete values.
