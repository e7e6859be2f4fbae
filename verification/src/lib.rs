//! A DSL-driven value context: compile a YAML DSL into compact tables, read them
//! back through an index, and resolve values for a request through stores.
pub mod provided;
pub mod required;
pub mod tree;
pub mod list;
pub mod order;
pub mod text;
pub mod args;
pub mod layout;
pub mod index;
pub mod dsl;
pub mod yaml;
pub mod emit;
pub mod reading;
pub mod context;
pub mod list_bk;
pub mod bit_line;
pub mod debug_log;
pub mod log_format;

pub use required::{Store, Stores, SetOutcome};
pub use list::{List, VariableList};
pub use index::Index;
pub use provided::{Tree, DslError, LoadError, StoreError, ContextError, Context};
pub use args::Args;
