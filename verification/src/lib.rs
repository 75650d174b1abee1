//! The markup-parsing core of a small browser engine.
//!
//! A character stream is cut into tokens by [`renderer::html::token::HtmlTokenizer`]
//! and the tokens are assembled into a document tree by
//! [`renderer::html::parser::HtmlParser`]. The tree lives in an arena,
//! [`renderer::dom::node::Window`], whose nodes refer to each other by index.
//! Two small collaborators, [`url::Url`] and [`http::HttpResponse`], split a
//! locator and a response text into their parts.

pub mod error;
pub mod http;
pub mod renderer;
pub mod text;
pub mod url;
