//! Day of Defeat demo tools: GoldSrc demo bit streams and messages, and the
//! transcoding of GoldSrc demos into Xash3D's IDEM container.
//!
//! - `bitvec_model`, `bit`: bit vectors, and the bit reader and writer of
//!   the demo format.
//! - `netmsg`: engine messages with a fixed wire form.
//! - `writer`, `idem`, `usercmd`, `transcode`, `validate`: writing an IDEM
//!   container from a demo, and checking one the way Xash reads it;
//!   `transcode_valid`: what the transcoder writes, the validator accepts;
//!   `accept`: what an accepted file is, said without the walk.
//! - `cut`, `chain`, `replay`: cutting a time window out of a demo;
//!   `cut_valid`: a cut demo validates too.
//! - `resources`, `pack`: which game files a demo needs.
//! - `text`, `cli`: text helpers and command-line arguments.
pub mod bitvec_model;
pub mod text;
pub mod bit;
pub mod writer;
pub mod idem;
pub mod validate;
pub mod usercmd;
pub mod transcode;
pub mod transcode_valid;
pub mod resources;
pub mod chain;
pub mod netmsg;
pub mod cli;
pub mod pack;
pub mod cut;
pub mod replay;
pub mod cut_valid;
pub mod accept;
