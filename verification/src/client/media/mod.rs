//! Media between access units and datagrams.

pub mod audio;
pub mod fragment;
pub mod receive;
pub mod send;
pub mod sequence;
pub mod transform;
