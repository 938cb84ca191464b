//! A custodial asset-transform registry: a durable record declares a recipe
//! converting input assets into output assets, and a creation protocol moves
//! custody of the named asset accounts to a derived custodian before the
//! record is committed exactly once.

pub mod codec;
pub mod create_transform;
pub mod error;
pub mod state;

pub use create_transform::{
    custodian_lookup, derive_custodian, outcome_view, registry_seed, seed_spec, CreateOutcome,
    CreateTransform, CreateTransformAccounts, CreateTransformArgs,
};
pub use error::TransformError;
pub use state::{Address, Token, TokenV, Transform, TransformMetadata, TransformV};
