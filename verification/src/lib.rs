//! Moving an actor, with everything it owns, from one package of serialized
//! objects into another.
//!
//! A package holds three tables: the objects it defines (exports), the objects
//! it borrows from other packages (imports), and the strings both are named
//! by. Objects point at each other with signed indices into the first two
//! tables. [`Actor::transplant`] copies an export and the exports it owns from
//! a donor into a recipient and rewrites every index on the way, so that the
//! recipient stays consistent.
pub mod export;
pub mod laws;
pub mod name;
pub mod package;
pub mod property;
pub mod reference;
pub mod resolve;
pub mod search;
pub mod subtree;
pub mod transplant;
pub mod unique;

pub use export::{on_import_refs, Export};
pub use name::Name;
pub use package::{Import, Package};
pub use property::Property;
pub use reference::{Reference, Target};
pub use transplant::{Actor, TransplantError};
pub use unique::give_unique_name;
