pub mod crypto;
pub mod integrity;
pub mod layout;
pub mod output;
pub mod receive_loop;
pub mod receiver;
pub mod run;
pub mod send_loop;
pub mod sender;
pub mod session;
pub mod store;
pub mod tcp_receiver;
pub mod tcp_sender;
