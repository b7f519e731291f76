//! In-process relay of analysis jobs between requesters and remote engine
//! providers: the job model and its normalisation, the rendezvous hub that
//! pairs deposits with polling providers, and the registry of dispatched jobs.

pub mod api;
pub mod digest;
pub mod hub;
pub mod keyed;
pub mod ongoing;
pub mod relay;
pub mod repo;
pub mod rules;
