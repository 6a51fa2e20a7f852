//! Verified core of the nanograph key-value storage engines: the log-structured
//! merge tree's in-memory and on-disk formats, its caches and metrics, and the
//! shared key-value types and configuration.
use vstd::prelude::*;

pub mod codec;
pub mod integrity;
pub mod keyorder;
pub mod kvt;
pub mod lmdb;
pub mod lsm;
pub mod text;
