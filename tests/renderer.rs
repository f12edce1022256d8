use wpaperd::renderer::{
    texture_scale, texture_wrap, Ratio, Renderer, TextureScale, TextureWrap, Wallpaper,
};
use wpaperd::wallpaper_info::{BackgroundMode, Sorting, WallpaperInfo};

fn r(num: u64, den: u64) -> Ratio {
    Ratio { num, den }
}

fn scale(x: Ratio, y: Ratio) -> TextureScale {
    TextureScale { x, y }
}

#[test]
fn stretch_is_identity() {
    for (dw, dh, iw, ih) in [(1920, 1080, 1000, 1000), (800, 600, 10, 4000), (1, 1, 7, 3)] {
        assert_eq!(texture_scale(BackgroundMode::Stretch, dw, dh, iw, ih), scale(r(1, 1), r(1, 1)));
    }
}

#[test]
fn center_on_a_wide_display() {
    let s = texture_scale(BackgroundMode::Center, 1920, 1080, 1000, 1000);
    assert_eq!(s, scale(r(1_080_000, 1_080_000), r(1_080_000, 1_920_000)));
    assert!(s.x.num <= s.x.den && s.y.num <= s.y.den);
}

#[test]
fn fit_covers_the_display() {
    assert_eq!(
        texture_scale(BackgroundMode::Fit, 1920, 1080, 1000, 1000),
        scale(r(1920, 1000), r(1080, 1000))
    );
    assert_eq!(
        texture_scale(BackgroundMode::Fit, 1000, 1000, 2000, 1000),
        scale(r(2000, 2000), r(1000, 1000))
    );
}

#[test]
fn tile_on_a_wide_display() {
    assert_eq!(
        texture_scale(BackgroundMode::Tile, 1920, 1080, 1000, 1000),
        scale(r(3_686_400, 1_080_000), r(1920, 1000))
    );
}

#[test]
fn tile_falls_back_to_one_when_height_is_one() {
    assert_eq!(
        texture_scale(BackgroundMode::Tile, 800, 600, 1000, 1000),
        scale(r(1, 1), r(1, 1))
    );
}

#[test]
fn tile_on_a_tall_display() {
    assert_eq!(
        texture_scale(BackgroundMode::Tile, 1000, 1000, 2000, 1000),
        scale(r(2000, 2000), r(1000, 1000))
    );
    // a display shorter than the image shrinks it vertically
    assert_eq!(
        texture_scale(BackgroundMode::Tile, 100, 100, 200, 200),
        scale(r(200, 200), r(100, 200))
    );
}

#[test]
fn only_tile_repeats() {
    assert_eq!(texture_wrap(BackgroundMode::Tile), TextureWrap::Repeat);
    assert_eq!(texture_wrap(BackgroundMode::Fit), TextureWrap::ClampToBorder);
    assert_eq!(texture_wrap(BackgroundMode::Center), TextureWrap::ClampToBorder);
    assert_eq!(texture_wrap(BackgroundMode::Stretch), TextureWrap::ClampToBorder);
}

#[test]
fn defaults() {
    assert_eq!(BackgroundMode::default(), BackgroundMode::Center);
    assert_eq!(Sorting::default(), Sorting::Random);
    let info = WallpaperInfo {
        path: "/wp".to_string(),
        duration: Some(60_000),
        apply_shadow: false,
        sorting: Sorting::default(),
        mode: BackgroundMode::default(),
        drawn_images_queue_size: 10,
        transition_time: 300,
        initial_transition: true,
    };
    assert_eq!(info.mode, BackgroundMode::Center);
}

#[test]
fn new_renderer_holds_placeholders() {
    let renderer = Renderer::new(3, 10, 11, 1920, 1080, 300);
    assert_eq!(renderer.old_wallpaper, Wallpaper { texture: 10, image_width: 1, image_height: 1 });
    assert_eq!(renderer.current_wallpaper, Wallpaper { texture: 11, image_width: 1, image_height: 1 });
    assert_eq!(renderer.time_started, 0);
    assert_eq!(renderer.program, 3);
}

#[test]
fn progress_is_clamped_and_monotonic() {
    let mut renderer = Renderer::new(3, 10, 11, 1920, 1080, 1000);
    renderer.start_transition(100, 1000);
    assert_eq!(renderer.draw(50), (r(0, 1000), true));
    assert_eq!(renderer.draw(100), (r(0, 1000), true));
    assert_eq!(renderer.draw(600), (r(500, 1000), true));
    assert_eq!(renderer.draw(1099), (r(999, 1000), true));
    assert_eq!(renderer.draw(1100), (r(1000, 1000), false));
    assert_eq!(renderer.draw(9000), (r(1000, 1000), false));
    let mut last = 0;
    for t in (0..3000).step_by(37) {
        let (p, going) = renderer.draw(t);
        assert!(p.num >= last && p.num <= p.den);
        assert_eq!(going, p.num < p.den);
        last = p.num;
    }
}

#[test]
fn zero_duration_finishes_at_once() {
    let mut renderer = Renderer::new(3, 10, 11, 1920, 1080, 1000);
    renderer.update_transition_time(0);
    assert_eq!(renderer.draw(0), (r(1, 1), false));
}

#[test]
fn second_load_restarts_the_transition() {
    let mut renderer = Renderer::new(3, 10, 11, 1920, 1080, 1000);
    renderer.load_wallpaper(640, 480, BackgroundMode::Stretch, 100);
    assert_eq!(renderer.old_wallpaper, Wallpaper { texture: 11, image_width: 1, image_height: 1 });
    assert_eq!(renderer.current_wallpaper, Wallpaper { texture: 10, image_width: 640, image_height: 480 });
    assert!(renderer.draw(400).1);
    let scales = renderer.load_wallpaper(800, 600, BackgroundMode::Stretch, 400);
    assert_eq!(renderer.old_wallpaper, Wallpaper { texture: 10, image_width: 640, image_height: 480 });
    assert_eq!(renderer.current_wallpaper, Wallpaper { texture: 11, image_width: 800, image_height: 600 });
    assert_eq!(renderer.draw(400), (r(0, 1000), true));
    assert_eq!(scales.current, scale(r(1, 1), r(1, 1)));
    assert_eq!(scales.wrap, TextureWrap::ClampToBorder);
}

#[test]
fn set_mode_scales_both_slots() {
    let mut renderer = Renderer::new(3, 10, 11, 1920, 1080, 1000);
    renderer.load_wallpaper(1000, 1000, BackgroundMode::Fit, 0);
    let scales = renderer.set_mode(BackgroundMode::Fit);
    assert_eq!(scales.current, scale(r(1920, 1000), r(1080, 1000)));
    assert_eq!(scales.previous, scale(r(1920, 1), r(1080, 1)));
    renderer.resize(1000, 1000);
    let scales = renderer.set_mode(BackgroundMode::Tile);
    assert_eq!(scales.current, scale(r(1000, 1000), r(1000, 1000)));
    assert_eq!(scales.wrap, TextureWrap::Repeat);
}

#[test]
fn finished_transition_frees_the_previous_slot() {
    let mut renderer = Renderer::new(3, 10, 11, 1920, 1080, 1000);
    renderer.load_wallpaper(640, 480, BackgroundMode::Center, 0);
    renderer.load_wallpaper(800, 600, BackgroundMode::Center, 10);
    renderer.transition_finished();
    assert_eq!(renderer.old_wallpaper, Wallpaper { texture: 10, image_width: 1, image_height: 1 });
    assert_eq!(renderer.current_wallpaper, Wallpaper { texture: 11, image_width: 800, image_height: 600 });
}

#[test]
fn failed_program_keeps_the_old_one() {
    let mut renderer = Renderer::new(3, 10, 11, 1920, 1080, 1000);
    assert_eq!(renderer.update_transition(None), None);
    assert_eq!(renderer.program, 3);
    assert_eq!(renderer.update_transition(Some(7)), Some(3));
    assert_eq!(renderer.program, 7);
}
