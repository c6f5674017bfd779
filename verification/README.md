# vusbipd-ccid

A USB/IP device exporter that presents a virtual USB CCID smart card reader
to a USB/IP client and bridges its slot to an NFC reader (a PN532 over UART,
or a simulated FIDO authenticator).

The library (`src/`) is written in Verus and verified:

- `ccid::protocol` — decoding of CCID commands and encoding of responses,
  specified against the byte layout of a CCID message.
- `ccid::bridge` — the slot: power on/off, slot status, T=1 parameters and
  APDU exchange. Each command's contract lists the calls it makes on the NFC
  reader (which method, with which bytes, in which order, each made through
  the reader's own method) and gives the response for whatever those calls
  answer.
- `ccid::transport` — bulk OUT reassembly, bulk IN packetisation, interrupt
  notifications and the two-part abort handshake.
- `nfc` — the reader abstraction, the simulated reader (`nfc::dummy`) and the
  PN532 frame, target and ATS parsing (`nfc::pn532`).
- `usb` — the CCID class descriptor and the standard device requests.
- `text` — hexadecimal and decimal rendering used in diagnostics.

`app/` is the program around it: argument parsing, the serial port and the
PN532 command exchange, and the USB/IP server.
