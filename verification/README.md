# vbnote

A verified model of a PXA270 handheld of the VoiceNote and BrailleNote kind:
the processor's peripherals, the board around them, and the disk and firmware
formats that go with it. It is written in [Verus](https://github.com/verus-lang/verus):
every function states what it does, and the proofs are checked with the code.

## Layout

- `src/pxa270` holds the processor's peripherals: interrupt controller, GPIO,
  timers, UARTs, power and clocks, DMA registers, AC97, MMC and the card behind
  it, I2C, and the USB host controller.
- `src/gandalf` holds the board: its memory map, the DMA engine and the USB
  list walker that work on it, flash, keyboard, braille display, modem, licence
  chip, PCMCIA cards, the USB drive; FAT32 volumes and the files on them, VHD
  footers; firmware patches, provisioning, the registry and licence records.
- `src/bits.rs`, `src/bytes.rs` and `src/text.rs` are what they share.
- `tests` runs the library on concrete values.
- `app` is what touches the host: disks that are files, and patches in a
  directory.

## Reading it

A device has a state, the `View` of its type, and spec functions on the state
that say what each operation makes of it. A method's contract is mostly one
line: the state afterwards is that function of the state before.

What holds of more than one call, or of every state, is a public proof function
whose name starts with `law_`. The doc comment says it in words.

What Verus takes on trust is marked `external_body` and says why in its doc
comment. It is three functions of the standard library, on text.
