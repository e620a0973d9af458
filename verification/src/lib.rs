//! Fills the `${key}` placeholders of a transaction manifest from `key=value`
//! arguments, names the transaction file that holds the result, and decides
//! the steps by which the scratch directory around it is made, used and
//! removed.

pub mod arguments;
pub mod error;
pub mod template;
pub mod text;
pub mod transaction;
pub mod workspace;

pub use arguments::{parse_arguments, ManifestArguments};
pub use error::RunError;
pub use template::replace_variables;
pub use transaction::{generate_random_file_id, ALPHABET};
