//! The pairing-based protocol: shared key and ciphertext shapes, the two
//! batching indices, and the scheme variants, which compute one and the
//! same session-key relation while grouping pairings differently.
pub mod common;
pub mod opt0;
pub mod opt1;
pub mod opt2;
pub mod opt3;
pub mod opt4;
pub mod opt5;
pub mod opt6;

pub use common::{Ciphertext, FullKey, Iota, PartialKey, PartialMPK, PartialMSK, PartialUSK, Tau,
    MPK, MSK, USK};
pub use opt0::Opt0;
pub use opt1::Opt1;
pub use opt2::Opt2;
pub use opt3::Opt3;
pub use opt4::Opt4;
pub use opt5::Opt5;
pub use opt6::Opt6;
