//! Order book streaming: live books rebuilt from node output, checked against node
//! snapshots, and turned into messages for websocket subscribers.

pub mod text;
pub mod coin;
pub mod order;
pub mod coin_map;
pub mod node_data;
pub mod order_book;
pub mod multi_book;
pub mod rounding;
pub mod levels;
pub mod validation;
pub mod state;
pub mod tail;
pub mod listener;
pub mod snapshot_check;
pub mod listener_laws;
pub mod listen;
pub mod subscription;
pub mod trades;
pub mod book_updates;
pub mod responses;
pub mod session;
pub mod session_laws;
