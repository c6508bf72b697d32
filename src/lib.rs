pub mod formula;
pub mod lts;
pub mod mark;
pub mod process;
pub mod table;
