mod hashing;
pub mod gitlog;
pub mod numeral;
pub mod protocol;
pub mod registration;
pub mod registry;
pub mod snapshot;
pub mod store;

pub use gitlog::{CommitPoint, GitStorage};
pub use hashing::blake3_digest;
pub use registration::{GradYear, RegistrationData, Skill};
pub use registry::{MessageResponse, SessionRegistry};
pub use snapshot::{BinSet, FolderData, SnapError};
pub use store::Storage;
