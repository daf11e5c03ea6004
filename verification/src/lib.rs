pub mod chunk;
pub mod compiler;
pub mod debug;
pub mod memory;
pub mod scanner;
pub mod table;
pub mod value;
pub mod vm;
