pub mod fraction;
pub mod util;
