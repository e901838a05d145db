//! Field types and packet metadata.

pub mod packet_container;
pub mod packet_side;
pub mod packet_state;
pub mod var_long;
pub mod var_numbers;
