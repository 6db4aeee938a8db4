//! What the text of a stylesheet and of a document stand for.

pub mod css;
pub mod html;
