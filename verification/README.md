# usartscreen

Firmware logic for an STM32 board that talks to a PC over one UART and drives a
serial text screen over another. The PC sends frames `0xAA body 0xBB`; the board
runs a four-stage protocol (scan a code, receive a material, three rough points,
one fine point) and acknowledges each accepted frame.

- `src/` is the verified library (Verus): the ring buffer that extracts frames
  (`command`), the byte-wise frame parser (`frame`), the line reader (`input`),
  number and boolean text (`matcher`), the protocol stages and their state machine
  (`protocol`), and screen objects and commands (`screen`).
- `app/` is the firmware around it: UART set-up, the receive loop, the replies,
  the screen link and the two-decimal formatting of floats.
- `tests/` runs the library on concrete inputs.
