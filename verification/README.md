# uniprog

A programmer toolkit for SPI NOR/NAND, EEPROM, DataFlash, I2C and Microwire
memory chips, driven through CH341/CH347 USB bridges, serprog serial
programmers or sidecar adapter plugins.

The library under `src/` is written in Verus and proved against its
`requires`/`ensures`. Transfers over a serprog connection, a sidecar
adapter (`HalRouter::requests`/`answers`) and the SPI transactions of the
CH34X SPI NOR, 25xx EEPROM and DataFlash paths (`Ch34xSpiBus`) are
recorded, and the operations state their results over those records.
Progress sinks keep the reports they received, and the CH34X programmer is
opened through a `Ch34xPort`, which records every open, so the operations
also state what they reported and when they open nothing. I2C
EEPROM reads, writes and erases go through an `I2cLink`, which records
every exchange, and state the packets sent, the acknowledgements required
and the data gathered from the responses. The NAND and Microwire drivers
talk to the programmer directly and state less (mostly lengths and
argument checks).

- `operations` — chip read, write, verify, blank check and erase. The serprog
  path is specified over the transfers sent and the replies received
  (`SpiBus::history` / `SpiBus::replies`), and the laws
  `law_read_gives_contents`, `law_verify_iff_contents`,
  `law_blank_from_contents`, `law_write_stores_data`,
  `law_read_after_write` and `law_sidecar_round_trip` tie the results to the
  chip's contents.
- `nor_ops`, `devcore`, `protocols`, `sfdp` — SPI NOR commands, detection,
  write protection, the other protocol drivers and JESD216 parsing.
- `chipdb`, `chip_xml`, `imsprog_dat` — the chip library and its formats.
- `plugin`, `unipkg`, `pkg_path`, `toml_model`, `settings` — plugin
  manifests, packages and configuration.
- `frame`, `json`, `sidecar`, `rpc_server`, `ch34x_server`, `hal_router` —
  the sidecar protocol and the adapter router.
- `firmware`, `serprog`, `boot`, `ui`, `text` — firmware images, the
  serprog client, start-up checks, UI events and message texts.

`app/` holds what stays outside the proofs: the executable, file and USB
I/O, serial ports, processes and floating-point formatting. `tests/` runs
the library on concrete values.
