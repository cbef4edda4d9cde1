//! The C++ type system: type definitions, inference and checking.

pub mod checking;
pub mod inference;
pub mod type_def;

pub use checking::TypeChecker;
pub use inference::TypeInference;
pub use type_def::TypeDef;
