pub mod delay_based;
