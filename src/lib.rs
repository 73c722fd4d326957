pub mod pixel;
pub mod digest;
pub mod search;
pub mod stream;
pub mod canvas;
pub mod codec;
