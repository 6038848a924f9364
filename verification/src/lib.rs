//! A peer-to-peer node protocol over a mixnet: message headers, the byte
//! framing of messages on a node's send and receive buffers, the handling of
//! each protocol command, the peer address book, and a key/value store over
//! LMDB.
#![allow(non_snake_case)]

pub mod controler;
pub mod data_stream;
pub mod database;
pub mod net;
pub mod net_addr;
pub mod net_msg_header;
pub mod node;
pub mod util;
