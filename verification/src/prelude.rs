//! The names that a user of the crate needs, under short names.
pub use crate::hash::HashId as HashID;
pub use crate::text::IdString;
pub use crate::util::DecodeErr;
pub use crate::variants::HashId;
pub use crate::variants::HashIdB32;
pub use crate::variants::HashIdB32 as B32;
pub use crate::variants::HashIdB64;
pub use crate::variants::HashIdB64 as B64;
pub use crate::variants::HashIdDefault;
pub use crate::variants::HashIdDefault as HashIds;
pub use crate::variants::HashIdDefault as Normal;
pub use crate::variants::HashIdQr;
pub use crate::variants::HashIdQr as QR;
