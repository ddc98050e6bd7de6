//! The registry and the typed interner, for callers that want an identity
//! domain of their own instead of the default one. Tokens of different
//! interners must not be compared.
pub use crate::interner::Interner;
pub use crate::typed_interner::TypedInterner;
