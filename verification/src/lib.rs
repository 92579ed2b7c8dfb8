//! Texture synthesis: a large image is grown from a small source image, so
//! that it looks like the source without repeating it. Two engines are
//! offered, quilting (`quilt`), which lays out patches of the source and cuts
//! them along seams, and pixel search (`search`), which grows the image one
//! pixel at a time.

pub mod distance;
pub mod errors;
pub mod grid;
pub mod mean;
pub mod neighbourhood;
pub mod parallel;
pub mod pixel;
pub mod pyramid;
pub mod quilt;
pub mod random;
pub mod seam;
pub mod search;
pub mod sum;
pub mod wei_levoy;
