//! A type-agnostic interner.
//!
//! Equal values are stored once, and callers hold cheap tokens whose equality
//! is a comparison of two integers. A value can be interned if its type says
//! what its key is ([`Internable`]); borrowed forms such as `str` and slices
//! can be interned without making the owned value first ([`Probe`]).
//!
//! ```text
//! let mut interner = Interner::new();
//! let a: Tok<String> = interner.i("foo");
//! let b: Tok<String> = interner.i(&"foo".to_string());
//! assert!(a.eq(&b));
//!
//! // A list of tokens is a value too.
//! let v1: Tok<Vec<Tok<String>>> = interner.iv(vec!["bar".to_string(), "quz".to_string()]);
//! let v2: Tok<Vec<Tok<String>>> = interner.ibv(&["bar", "quz"]);
//! assert!(v1.eq(&v2));
//! ```
//!
//! Tables hold their values weakly. The entries of values that no token holds
//! any more stay in the table until [`sweep`] or [`sweep_t`] removes them.
//!
//! The functions at the top of the crate work on a [`Global`], the place of a
//! default registry; [`instance`] has the registry and the typed interner for
//! callers that want an identity domain of their own. Tokens of different
//! interners must not be compared.
//!
//! What is proved of the library as a whole is in [`laws`].
pub mod global;
pub mod handle;
pub mod index;
pub mod instance;
pub mod interner;
pub mod key;
pub mod laws;
pub mod table;
pub mod tl_cache;
pub mod token;
pub mod typed_interner;

pub use global::ev;
pub use global::get_global;
pub use global::i;
pub use global::ibv;
pub use global::iv;
pub use global::set_global;
pub use global::sweep;
pub use global::sweep_t;
pub use global::Global;
pub use key::Internable;
pub use key::Probe;
pub use tl_cache::Cache;
pub use token::Tok;
pub use token::WeakTok;
