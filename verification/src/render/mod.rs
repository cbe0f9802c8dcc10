pub mod anim;
pub mod util;
