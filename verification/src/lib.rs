//! Decision logic of a grid arena bot: line tracing, breadth-first grid
//! searches (a hero's next step, shortest paths through a labyrinth), turn
//! planning against the arena protocol, and listing the entries of a ZIP
//! archive.

pub mod archive;
pub mod line;
pub mod grid;
pub mod navigate;
pub mod labyrinth;
pub mod protocol;
pub mod client;
