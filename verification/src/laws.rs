//! What the operations are for: how their results relate to what goes in.
//!
//! - `words`, `orders`, `paths` and `lists` are about texts, the order of things, and paths.
//! - `statements`, `reading`, `nodes` and `ids` are about schema texts and what is read of
//!   them.
//! - `comparing` and `remarks` are about what a comparison reports, and `printing` about how.
//! - `calling`, `selecting`, `finding` and `running` are about what a call asks for, which
//!   files are found, and what is run.

pub mod calling;
pub mod comparing;
pub mod finding;
pub mod ids;
pub mod lists;
pub mod nodes;
pub mod orders;
pub mod paths;
pub mod printing;
pub mod reading;
pub mod remarks;
pub mod running;
pub mod selecting;
pub mod statements;
pub mod words;
