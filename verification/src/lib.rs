pub mod ancestry;
pub mod correlator;
pub mod extract;
pub mod glyph;
pub mod meta;
pub mod report;
pub mod table;
pub mod tower;
