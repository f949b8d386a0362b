//! A polling engine for industrial field devices: declarative register
//! schemas are compiled into minimal Modbus read plans, raw register words
//! are decoded into numeric values, and decoded samples are formatted as
//! line-protocol records for a time-series sink.  A failure-accounting
//! controller decides when a fleet-wide outage must stop the process, and a
//! scheduler state machine serializes the per-device polling cadences.

pub mod config;
pub mod controller;
pub mod datatype;
pub mod device;
pub mod encode;
pub mod plan;
pub mod scheduler;
pub mod sensor;
pub mod sink;
pub mod strutil;
