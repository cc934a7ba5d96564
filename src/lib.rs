pub mod excerpt;
pub mod kind;
pub mod point;
pub mod refresh;
pub mod token_set;
