//! In-memory core of a password-manager vault.
//!
//! The crate owns a hierarchical store of credential entries organised into
//! nested groups, with identity-addressed CRUD, a recycle bin for soft
//! deletion, a locked/unlocked facade, a base32 codec with a time-based
//! one-time-password policy, and pure search helpers.  Reading and writing
//! the on-disk container is left to an outer codec layer; this crate only
//! hands a well-formed tree back and forth.

pub mod entry;
pub mod error;
pub mod group;
pub mod search;
pub mod totp;
pub mod tree;
pub mod trusted;
pub mod util;
pub mod vault;

pub use entry::{CustomField, Entry};
pub use error::VaultError;
pub use group::Group;
pub use tree::Tree;
pub use vault::{Vault, VaultConfig};

