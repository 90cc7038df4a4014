pub mod prefix;
pub mod range;
pub mod text;
