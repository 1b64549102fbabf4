//! Fast flattening of struct fields for serde: field identifiers, the flat
//! layout of structs whose fields are flattened into their parent, what the
//! derives plan for a struct, and an example hierarchy.
pub mod identifier;
pub mod layout;
pub mod plan;
pub mod test_structs;

pub use identifier::{BorrowedFieldId, FieldId};
