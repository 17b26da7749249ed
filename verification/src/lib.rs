pub mod admission;
pub mod artifact;
pub mod attn_tap;
pub mod backend;
pub mod bf16;
pub mod cancelled;
pub mod checkpoint;
pub mod chunks;
pub mod concrete;
pub mod constrained;
pub mod deal;
pub mod decision;
pub mod eviction;
pub mod flow;
pub mod forward;
pub mod gdn;
pub mod gpu_profile;
pub mod host;
pub mod identity;
pub mod landing;
pub mod laws;
pub mod leaf;
pub mod ledger;
pub mod lifecycle;
pub mod model;
pub mod moves;
pub mod nvfp4;
pub mod order;
pub mod plan;
pub mod prefill;
pub mod prefix;
pub mod progress;
pub mod request;
pub mod retained_slot;
pub mod retention;
pub mod reuse;
pub mod rounds;
pub mod runs;
pub mod scheduler;
pub mod sequence;
pub mod service;
pub mod serving;
pub mod text;
pub mod types;
pub mod weights;
