//! A verified engine for an electronic program guide (EPG).
//!
//! The engine ingests a broadcaster-supplied XMLTV feed — channels and their
//! scheduled programs — and serves time-ranged queries over the ingested
//! data.  The crate covers the streaming feed parser, the alias-to-id
//! resolution of channels, the staged merge of freshly parsed programs into
//! the live tables, retention pruning, channel garbage collection, and the
//! read-through cache for the "now playing" query.

pub mod db;
pub mod epg;
pub mod ingest;
pub mod laws;
pub mod m3u;
pub mod ngram;
pub mod playlist;
pub mod seqsup;
pub mod server;
pub mod text;
pub mod timestamp;
pub mod update_status;
pub mod xml;
pub mod xmltv;
