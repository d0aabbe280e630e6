//! A bulk harvester's decision logic: which record IDs each batch asks for,
//! in what order, how each request is addressed, and how a fetched record is
//! framed as one line of the shared output log.
pub mod batch;
pub mod line_log;
pub mod request;
