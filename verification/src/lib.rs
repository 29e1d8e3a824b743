//! An incremental pipeline engine: stages polled for answers, memoized under
//! content keys, with the dependencies between them observed rather than declared.

pub mod boundary;
pub mod builder;
pub mod chain;
pub mod context;
pub mod driver;
pub mod effect;
pub mod key;
pub mod laws;
pub mod memo;
pub mod node_set;
pub mod number;
pub mod pipeline;
pub mod stage;
pub mod store;
pub mod track;
pub mod wake;
pub mod watch;
