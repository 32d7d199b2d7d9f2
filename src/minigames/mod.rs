pub mod jigsaw;
pub mod okey;
