//! Rewriting of tree-filter expressions.
//!
//! A filter selects, relocates, combines or subtracts parts of a hierarchical
//! content tree. Filters live in a [`Store`], which hands out one handle per
//! distinct expression, so that two handles are equal exactly when the
//! expressions they stand for are equal. The rewrite functions take a handle
//! and return the handle of an equivalent expression in a canonical form.
//!
//! Every contract is stated over [`Term`], the expression a handle stands for.
//!
//! [`simplify`] always ends. Stepping a filter to the end need not: there are
//! filters on which [`step`] runs in a circle. A store is made with a limit,
//! and [`iterate`] and [`optimize`] give nothing where the limit is passed.

pub mod factor;
pub mod hashing;
pub mod optimize;
pub mod path;
pub mod simplify;
pub mod step;
pub mod store;
pub mod term;

pub use factor::{common_post, common_pre, group, last_chain, prefix_sort};
pub use optimize::optimize;
pub use path::Path;
pub use simplify::simplify;
pub use step::{iterate, step};
pub use store::{to_filter, to_op, Filter, Op, Shape, Store};
pub use term::Term;
