//! Wallpaper daemon core: a cache of image files per watched directory and
//! the state machine of a cross-fading wallpaper renderer.

pub mod filelist_cache;
pub mod image_filter;
pub mod renderer;
pub mod wallpaper_info;
