//! Verified building blocks of an actor-based multi-party computation stack.

pub mod adder_laws;
pub mod adders;
pub mod aes_stream;
pub mod and_product;
pub mod anon_stats_1d;
pub mod anon_stats_2d;
pub mod anon_stats_face;
pub mod batch_laws;
pub mod batched_msb_extraction;
pub mod batched_preprocessing;
pub mod binary;
pub mod bit_inject;
pub mod bit_slice;
pub mod bitlt;
pub mod comparison_randomness;
pub mod component_laws;
pub mod config;
pub mod coordination;
pub mod counting;
pub mod dealer_5pc;
pub mod dealing_laws;
pub mod distance_laws;
pub mod extract_msb;
pub mod face_laws;
pub mod fhd_ops;
pub mod lift_laws;
pub mod matrix;
pub mod message;
pub mod msb_dealer_helpers;
pub mod msb_laws;
pub mod msb_offline_randomness;
pub mod msb_preprocessing;
pub mod msb_preprocessing_additive;
pub mod ops;
pub mod planes;
pub mod player;
pub mod prefix_adder;
pub mod prf;
pub mod prf_keys;
pub mod primefield;
pub mod product_laws;
pub mod ring;
pub mod ring48;
pub mod ring_lemmas;
pub mod rss5;
pub mod rss5_adder;
pub mod rss5_adder_laws;
pub mod rss5_binary;
pub mod rss5_open;
pub mod rss5_ops;
pub mod rss5_reconstruction;
pub mod rss5_run_laws;
pub mod rss5_session;
pub mod rss5_words;
pub mod run_laws;
pub mod select;
pub mod selection_laws;
pub mod session_policy;
pub mod shares;
pub mod store;
pub mod stream_laws;
pub mod swap;
pub mod sync;
pub mod test_utils;
pub mod two_way_split;
