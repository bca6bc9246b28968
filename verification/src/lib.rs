//! Verified core of morphIIC, an I2C device emulator whose register behaviour
//! is described by a JSON device model.
pub mod attachment;
pub mod bus_laws;
pub mod cli_laws;
pub mod codegen;
pub mod codegen_laws;
pub mod csv;
pub mod csv_laws;
pub mod csv_round_trip;
pub mod csv_specs;
pub mod csv_streamer;
pub mod device_laws;
pub mod device_model;
pub mod feeding;
pub mod frame_laws;
pub mod host_laws;
pub mod host_link;
pub mod host_sources;
pub mod i2c_service;
pub mod line;
pub mod log;
pub mod model;
pub mod model_laws;
pub mod ordering;
pub mod paths;
pub mod playback_laws;
pub mod player;
pub mod protocol;
pub mod protocol_laws;
pub mod regfile;
pub mod regfile_laws;
pub mod rule_laws;
pub mod source_laws;
pub mod start_laws;
pub mod stream_laws;
pub mod streams;
pub mod text;
pub mod text_laws;
pub mod usb_cli;
pub mod usb_stream;
pub mod whoami;
pub mod wire_laws;
