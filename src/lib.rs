//! A reliable, message-oriented transport over an unreliable datagram substrate:
//! wrapping sequence numbers, loss lists, send and receive buffers, congestion
//! control, the on-wire packet codec, the cookie handshake and the packet
//! dispatch of an endpoint. Sockets, clocks and threads stay with the caller:
//! every operation takes the time as an argument and returns the packets to send.
pub mod utils;
pub mod loss_list;
pub mod serial;
pub mod packet;
pub mod send_buffer;
pub mod recv_buffer;
pub mod send_list;
pub mod recv_list;
pub mod send_queue;
pub mod recv_queue;
pub mod connection;
pub mod sha;
pub mod handshake;
pub mod dispatch;
pub mod congestion;
pub mod window;
pub mod huffman;
