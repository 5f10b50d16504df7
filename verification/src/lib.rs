//! An IVF + RaBitQ vector search engine whose decisions are verified.
//!
//! Vectors, distances and scalar fields are IEEE-754 numbers. Here they are held
//! by their bit patterns (`u32` for single, `u64` for double precision): the
//! library orders, stores, filters and ranks them, and the program around it does
//! the arithmetic.

pub mod address;
pub mod benchmark;
pub mod bit_laws;
pub mod blocks;
pub mod cache_laws;
pub mod checksum;
pub mod chunked_storage;
pub mod clustering;
pub mod clustering_laws;
pub mod code_laws;
pub mod database_laws;
pub mod decimal;
pub mod filter_laws;
pub mod format_laws;
pub mod fulltext;
pub mod fusion_laws;
pub mod gpu;
pub mod grammar_laws;
pub mod http_server;
pub mod hybrid;
pub mod ieee;
pub mod index_ivf_rq;
pub mod index_laws;
pub mod little_endian;
pub mod measuring_laws;
pub mod memory;
pub mod mmap_index;
pub mod mmap_laws;
pub mod nng_server;
pub mod number_laws;
pub mod opening_laws;
pub mod ordering;
pub mod partition_stats;
pub mod partitioning;
pub mod payload;
pub mod protocol_laws;
pub mod query_laws;
pub mod rabitq;
pub mod ranking_laws;
pub mod reload_laws;
pub mod search;
pub mod search_laws;
pub mod search_pairs;
pub mod service_laws;
pub mod simd;
pub mod skipping_laws;
pub mod sq8;
pub mod spelling_laws;
pub mod sql;
pub mod sql_laws;
pub mod sql_lexer;
pub mod sql_parser;
pub mod storage;
pub mod storage_format;
pub mod storage_laws;
pub mod storage_save;
pub mod sys_info;
pub mod text;
pub mod vdb;
