pub mod ast;
pub mod rewrite;
pub mod laws;
pub mod sat;
