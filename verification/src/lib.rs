pub mod db;
pub mod ingest;
pub mod srt_parser;
pub mod text;
