//! What holds of every run, whatever it is told, and of runs on a repository that tells the truth.
pub mod canon;
pub mod choosing;
pub mod converging;
pub mod copying;
pub mod finding;
pub mod following;
pub mod keeping;
pub mod listing;
pub mod manning;
pub mod naming;
pub mod opening;
pub mod planning;
pub mod preserving;
pub mod purpose;
pub mod ranking;
pub mod repeating;
pub mod replay;
pub mod rooting;
pub mod rounds;
pub mod settling;
pub mod sifting;
pub mod soundness;
pub mod staying;
pub mod surveying;
pub mod tagging;
pub mod treasuring;
pub mod turns;
pub mod wording;
pub mod world;
