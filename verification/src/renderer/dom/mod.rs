pub mod node;
