# morphIIC

An I2C device emulator for the RP2040. A JSON device model describes the registers of a device;
firmware made from it answers on the bus as that device would. Registers can play samples from CSV
files, either compiled into the firmware or fed by the host over USB while the device runs.

`src/` is the core, written in Verus: executable Rust whose behaviour is stated in `requires` and
`ensures` clauses and proved.

| Module | What it holds |
| --- | --- |
| `device_model` | the device model and the rules that it keeps |
| `csv`, `csv_round_trip` | samples in CSV text |
| `paths` | where the files that a model names are |
| `csv_specs` | the CSV sources of a model and the byte budget of compiled-in samples |
| `model`, `model_laws` | the tables that the firmware runs on |
| `codegen` | the Rust source of these tables |
| `streams`, `stream_laws` | sample cursors and host-fed byte queues |
| `regfile`, `regfile_laws` | the registers that the bus reads and writes |
| `log`, `line` | the log of bus transactions and its lines |
| `i2c_service` | what the device does with each event on the bus |
| `usb_cli` | the command line on the USB serial port |
| `protocol`, `usb_stream` | frames on the stream channel, and the device's side of it |
| `host_sources`, `csv_streamer`, `feeding`, `host_link`, `player` | the host's side of it |
| `frame_laws`, `protocol_laws`, `attachment`, `playback_laws` | what holds of host and device together |
| `whoami` | a device with a single register |
| `text`, `ordering` | numbers and words in text; sorting |

Functions named `law_...` are proved statements about several of these operations together: that
taking back unread bytes undoes their reads, that samples are played without a gap, that a host and a
device made from one model find each other's streams.

What is believed without proof is marked `#[verifier::external_body]` and documented where it stands:
the fixed-size strings of `heapless`, how `str` formats itself as a literal, the check that bytes are
UTF-8, and the parent of a path and the joining of two.

`tests/` runs the library on concrete values. `app/` is the ordinary Rust around it: files, the serial
port, and the board's peripherals. On the host it is one program with three tools:

```
morphiic gen_model [<input_json> <output_rs>]
morphiic csv_streamer <serial_port> [model_json]
morphiic build_step <manifest_dir> <out_dir>
```

The last is the firmware's build step: it generates the tables and names the model and its CSV files as
inputs of the build.

On the board it is the firmware: `firmware::main` in `app/firmware.rs` turns the compiled-in tables of
`app/firmware/model.rs` into those of the library, makes sure that they are sound, and runs the tasks;
`identity::main` in `app/identity.rs` is a bring-up program with a single register. Both need a memory
allocator. `extras/models` holds the device model that `app/firmware/model.rs` comes from:

```
morphiic gen_model extras/models/device_model.json app/firmware/model.rs
```
