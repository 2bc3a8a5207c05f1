# tobes-rs

Viewer for the TorchBearer USB-serial spectrometer, with its protocol logic
as a verified library.

- `src/` — the library, verified with Verus:
  - `frame.rs`: outgoing frames and their checksum;
  - `reader.rs`: reassembly of incoming frames from the bytes read, with the
    laws of the parser (frames are taken whole, noise before a header is
    skipped, partial frames wait, every frame taken stood in the buffer);
  - `payload.rs`: `GET_RANGE` and `GET_DATA` payloads, key derivation and
    unmasking of the spectrum;
  - `device.rs`: the device's protocol state (`TorchBearer`) without the
    serial line, and the decoding of a payload into counts over a
    wavelength axis;
  - `spectrum_file.rs`: wavelength keys and status labels of saved spectra.
- `app/` — the program: command line, serial I/O, JSON loading, the egui
  window, and the floating-point steps (intensity scaling, colours, demo).
- `tests/` — tests of the library.
