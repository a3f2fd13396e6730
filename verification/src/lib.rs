//! A small in-memory key-value store with a text command protocol, used as the
//! backing store of a URL shortener.

pub mod text;
pub mod response;
pub mod error;
pub mod command;
pub mod storage;
pub mod handler;
pub mod controller;
pub mod laws;
