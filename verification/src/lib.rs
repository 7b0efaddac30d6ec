//! Reads WebRTC data channel traffic out of captured SCTP packets.
pub mod args;
pub mod capture;
pub mod csv;
pub mod framing;
pub mod message;
pub mod multistream;
pub mod payload;
pub mod report;
pub mod rows;
pub mod sctp;
pub mod table;
pub mod text;
pub mod timestamp;
pub mod varint;
pub mod webrtc;
pub mod webrtc_proto;
