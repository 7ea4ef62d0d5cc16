pub mod acquisition;
pub mod config;
pub mod decimal;
pub mod frame;
pub mod histogram;
pub mod reading;
pub mod series;
pub mod text;
pub mod window;
