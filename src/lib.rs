//! Framing and bookkeeping for a serial link that carries fixed-layout motor
//! command packets one way and encoder telemetry packets the other.
pub mod packet;
pub mod rolling;
pub mod sync;
pub mod scan;
pub mod telemetry;
