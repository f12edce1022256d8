use vstd::prelude::*;

verus! {

/// Whether a watched directory is listed with its immediate children only,
/// or with its whole subtree.
#[derive(PartialEq, Eq, Structural, Clone, Copy, Debug)]
pub enum Recursive {
    Off,
    On,
}

/// The settings of the wallpaper of one display.
#[derive(PartialEq, Debug)]
pub struct WallpaperInfo {
    pub path: String,
    /// Time between two wallpapers, in milliseconds; `None` keeps one.
    pub duration: Option<u64>,
    pub apply_shadow: bool,
    pub sorting: Sorting,
    pub mode: BackgroundMode,
    pub drawn_images_queue_size: usize,
    /// Duration of a transition, in milliseconds.
    pub transition_time: u32,
    /// Whether the first wallpaper fades in from black rather than
    /// appearing at once.
    pub initial_transition: bool,
}

/// Order in which a wallpaper group picks its images.
#[derive(PartialEq, Eq, Structural, Clone, Copy, Debug)]
pub enum Sorting {
    Random,
    Ascending,
    Descending,
}

impl Default for Sorting {
    fn default() -> (r: Sorting)
        ensures
            r == Sorting::Random,
    {
        Sorting::Random
    }
}

/// How an image is mapped onto a display of another aspect ratio.
#[derive(PartialEq, Eq, Structural, Clone, Copy, Debug)]
pub enum BackgroundMode {
    Stretch,
    Center,
    Fit,
    Tile,
}

impl Default for BackgroundMode {
    fn default() -> (r: BackgroundMode)
        ensures
            r == BackgroundMode::Center,
    {
        BackgroundMode::Center
    }
}

} // verus!
