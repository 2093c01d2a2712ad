//! GPS tracking core: a rotating on-flash queue of fixed-size position
//! records, a line assembler for the GPS serial stream and the NMEA
//! front end that feeds it.

pub mod position;
pub mod file_path;
pub mod positions_queue;
pub mod line_by_line_iterator;
pub mod gps_module;
pub mod reconnect;
pub mod nmea_parser;
