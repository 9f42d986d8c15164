# N9M to RTSP

A bridge from the live video of N9M mobile DVRs to RTSP. It connects to the
device over TCP, performs the certificate handshake and the login, asks for live
H.264 channels, and serves each channel as RTSP over TCP. H.264 is not
transcoded: NAL units are cut out of the byte stream and packed into RTP.

- `src/` is the library, verified with Verus: the device protocol (`n9m`,
  `bridge`, `json`, `crypto`), the stream (`annexb`, `rtp`, `hub`), the RTSP
  server (`rtsp`), the web page (`web`), settings and shared state (`config`,
  `state`), and text, numbers and bytes (`text`, `number`, `bytes`). Contracts
  speak of sequences and of what each type holds. The public proof functions
  state what holds of the library as a whole, for example that a viewer gets
  back the NAL units that the device sent, in decoding order.
- `app/` is the program: sockets, threads, clocks, files, and the two numbers
  that need floating point.
- `tests/` runs the library on concrete values.

The program reads its settings from `n9m.local.conf`, or from the file that the
variable `N9M_CONFIG` names, and the files of its web page from `static/`.
