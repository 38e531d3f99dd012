pub mod busses;
pub mod expr_nodes;
pub mod component;
pub mod renderer;
