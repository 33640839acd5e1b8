//! The tables of the font, each with the bytes it is written as.

pub mod cmap;
pub mod glyf;
pub mod gsub;
pub mod head;
pub mod hhea;
pub mod hmtx;
pub mod loca;
pub mod maxp;
pub mod name;
pub mod os2;
pub mod post;
