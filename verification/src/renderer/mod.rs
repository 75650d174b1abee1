pub mod dom;
pub mod html;
