//! A sequence CRDT (LSEQ) for collaborative text editing, with a causality
//! barrier that orders the operations received from other sites.
pub mod causal;
pub mod editor;
pub mod handshake;
pub mod lseq;
pub mod signal;
