//! Data-plane cores of a vector-search shard: a full-text inverted index with
//! plain and bit-packed posting lists, and a per-shard logical clock map.

pub mod sorted;
pub mod posting_list;
pub mod block_codec;
pub mod compressed_posting_list;
pub mod document;
pub mod vocabulary;
pub mod postings_iterator;
pub mod field_index;
pub mod posting_table;
pub mod cardinality;
pub mod mutable_index;
pub mod immutable_index;
pub mod inverted_index;
pub mod index_laws;
pub mod clock_map;
