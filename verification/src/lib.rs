pub mod cursor;
pub mod model;
pub mod reader;
pub mod value;
