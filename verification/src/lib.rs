//! The protocol logic of uTP, the micro transport protocol. Sockets, channels and tasks are left
//! to the caller.

pub mod addr;
pub mod buffer;
pub mod congestion;
pub mod connection;
pub mod connection_manager;
pub mod error;
pub mod listener;
pub mod packet;
mod random;
pub mod router;
pub mod sequence;
pub mod socket;
pub mod stream;
pub mod table;
pub mod time;
pub mod transfer;
pub mod util;
pub mod wire;

pub use crate::{listener::UtpListener, socket::UtpSocket, stream::UtpStream};
