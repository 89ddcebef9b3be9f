pub mod blur;
pub mod blur_laws;
pub mod capture;
pub mod capture_laws;
pub mod config;
pub mod content_laws;
pub mod draw;
pub mod draw_laws;
pub mod frame;
pub mod keys;
pub mod place_laws;
pub mod pump;
pub mod reduce;
pub mod reduction_laws;
pub mod scale;
pub mod settings;
pub mod shared;
pub mod step_laws;
pub mod text;
pub mod title;
pub mod user_laws;
pub mod window;
