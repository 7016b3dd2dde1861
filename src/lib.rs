//! Schema-driven fake data generation: a descriptor grammar, a typed value
//! model, a generation session with memoised references and uniqueness
//! registries, and a walker that rebuilds a JSON-shaped tree.

pub mod assoc;
pub mod cli;
pub mod descriptor;
pub mod error;
pub mod json;
pub mod laws;
pub mod random;
pub mod session;
pub mod text;
pub mod tree;
pub mod value;

pub use cli::{find_other_than, read_int, CliArgs, Command};
pub use descriptor::{classify, parse_user_defined, Descriptor};
pub use error::Error;
pub use json::{JsonNumber, JsonValue};
pub use session::{Data, NULL_DENOMINATOR, NULL_NUMERATOR, UNIQUE_ATTEMPTS};
pub use text::{decimal, join_lines, parse_u64, split_char};
pub use tree::{generate_array, generate_object, generate_value, insert_entry, number_to_int, walk};
pub use value::{FloatSource, OutputData};
