//! Splitting a stream of CSV bytes into chunks that end at record ends.

pub mod automata_laws;
pub mod byte_search;
pub mod call_laws;
pub mod chunk_laws;
pub mod csv_bytes;
pub mod cut_laws;
pub mod finite_automata;
pub mod reading_laws;
pub mod recovery_laws;
pub mod search_laws;
pub mod stream_laws;
pub mod written_records;
