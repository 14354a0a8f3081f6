//! Inference engine for Qwen-style language models: tokenizer, checkpoint formats, batching
//! scheduler, key/value caches and the chat protocol, each with a machine-checked contract.
//!
//! Numbers that the engine computes in floating point never enter this crate: weights, scales and
//! logits are carried as bit patterns or as values of an opaque element type.

pub mod backend;
pub mod batch;
pub mod bytemap;
pub mod bytes;
pub mod chat;
pub mod codes;
pub mod config;
pub mod decoding;
pub mod device;
pub mod documents;
pub mod draft;
pub mod files;
pub mod gpu;
pub mod http;
pub mod json;
pub mod kernels;
pub mod kv;
pub mod layout;
pub mod marks;
pub mod model;
pub mod names;
pub mod plan;
pub mod pool;
pub mod prefix;
pub mod pretokenize;
pub mod reply;
pub mod roundtrip;
pub mod safetensors;
pub mod sampler;
pub mod scheduler;
pub mod step;
pub mod text;
pub mod tokenizer;
pub mod vocabulary;
pub mod wcache;
pub mod weight;
