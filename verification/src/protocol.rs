pub mod fec;
pub mod gf;
pub mod linear;
pub mod nack;
pub mod packet;
pub mod rlnc;
pub mod seq_set;
