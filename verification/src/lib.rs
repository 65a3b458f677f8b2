pub mod decimal;
pub mod laws;
pub mod pipeline;
pub mod rowmap;
pub mod table;
pub mod text;
