//! The visual-formatting core of a small browser engine.
//!
//! A document and a stylesheet are read from text (`html`, `css`, after the
//! grammars in `grammar`). The cascade gives each element the value of each
//! of its properties (`style`, `cascade`). Block layout turns the styled
//! tree into a tree of boxes, each block with its place and size inside its
//! containing block (`layout`). Painting gives each pixel of a canvas its
//! colour (`paint`).
//!
//! Lengths are whole pixels in 64 bits; a length written with a fraction is
//! read as the nearest whole pixel. A coordinate or size that cannot be
//! stored is reported as an error and never wraps around.

pub mod scan;
pub mod grammar;
pub mod css;
pub mod dom;
pub mod html;
pub mod style;
pub mod cascade;
pub mod layout;
pub mod paint;
