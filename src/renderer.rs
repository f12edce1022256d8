use vstd::prelude::*;

use crate::wallpaper_info::BackgroundMode;

verus! {

/// A non-negative rational number `num / den`, kept exact so that the GPU
/// side can turn it into a float at the last moment.
#[derive(PartialEq, Eq, Structural, Clone, Copy, Debug)]
pub struct Ratio {
    pub num: u64,
    pub den: u64,
}

/// The factor by which a texture is scaled along each axis.
#[derive(PartialEq, Eq, Structural, Clone, Copy, Debug)]
pub struct TextureScale {
    pub x: Ratio,
    pub y: Ratio,
}

/// What happens to texture coordinates outside the image.
#[derive(PartialEq, Eq, Structural, Clone, Copy, Debug)]
pub enum TextureWrap {
    ClampToBorder,
    Repeat,
}

/// The uniforms that a scaling mode asks for: the scale of the current and
/// of the previous texture, and the wrap mode of both.
#[derive(PartialEq, Eq, Structural, Clone, Copy, Debug)]
pub struct TextureScales {
    pub current: TextureScale,
    pub previous: TextureScale,
    pub wrap: TextureWrap,
}

/// One texture slot: a GPU texture name and the size of the image it holds.
#[derive(PartialEq, Eq, Structural, Clone, Copy, Debug)]
pub struct Wallpaper {
    pub texture: u32,
    pub image_width: u32,
    pub image_height: u32,
}

pub open spec fn ratio(num: int, den: int) -> Ratio {
    Ratio { num: num as u64, den: den as u64 }
}

pub open spec fn max(a: int, b: int) -> int {
    if a >= b { a } else { b }
}

pub open spec fn min(a: int, b: int) -> int {
    if a <= b { a } else { b }
}

/// `r >= 1`.
pub open spec fn at_least_one(r: Ratio) -> bool {
    r.num >= r.den
}

/// `r <= 1`.
pub open spec fn at_most_one(r: Ratio) -> bool {
    r.num <= r.den
}

/// The texture scale for a display of `dw` x `dh` pixels and an image of
/// `iw` x `ih` pixels. The display is relatively wider than the image when
/// `dw / dh > iw / ih`, that is `dw * ih > iw * dh`.
pub open spec fn texture_scale_spec(mode: BackgroundMode, dw: int, dh: int, iw: int, ih: int) -> TextureScale {
    let wider = dw * ih > iw * dh;
    match mode {
        BackgroundMode::Stretch => TextureScale { x: ratio(1, 1), y: ratio(1, 1) },
        BackgroundMode::Center => TextureScale {
            x: ratio(min(dw * ih, dh * iw), dh * iw),
            y: ratio(min(dh * iw, dw * ih), dw * ih),
        },
        BackgroundMode::Fit => if wider {
            TextureScale { x: ratio(dw, iw), y: ratio(max(dh, ih), ih) }
        } else {
            TextureScale { x: ratio(max(dw, iw), iw), y: ratio(dh, ih) }
        },
        BackgroundMode::Tile => if wider {
            if dw <= ih {
                TextureScale { x: ratio(1, 1), y: ratio(1, 1) }
            } else {
                TextureScale { x: ratio(dw * dw, iw * dh), y: ratio(dw, ih) }
            }
        } else {
            TextureScale { x: ratio(max(dw, iw), iw), y: ratio(dh, ih) }
        },
    }
}

/// The transition progress at `time`: the time elapsed since `started`
/// over `duration`, clamped to 1; a zero duration is done at once.
pub open spec fn progress_spec(started: u32, duration: u32, time: u32) -> Ratio {
    let elapsed: int = if time >= started { time - started } else { 0 };
    if duration == 0 {
        ratio(1, 1)
    } else {
        ratio(min(elapsed, duration as int), duration as int)
    }
}

fn mul32(a: u32, b: u32) -> (r: u64)
    ensures
        r == a as int * b as int,
{
    proof {
        assert((a as int) * (b as int) <= 0xffff_ffffint * 0xffff_ffffint) by (nonlinear_arith)
            requires
                a <= 0xffff_ffffint,
                b <= 0xffff_ffffint,
        ;
    }
    (a as u64) * (b as u64)
}

fn max64(a: u64, b: u64) -> (r: u64)
    ensures
        r == max(a as int, b as int),
{
    if a >= b {
        a
    } else {
        b
    }
}

fn min64(a: u64, b: u64) -> (r: u64)
    ensures
        r == min(a as int, b as int),
{
    if a <= b {
        a
    } else {
        b
    }
}

/// The scale of an `image_width` x `image_height` texture on a
/// `display_width` x `display_height` display in the given mode.
pub fn texture_scale(
    mode: BackgroundMode,
    display_width: u32,
    display_height: u32,
    image_width: u32,
    image_height: u32,
) -> (r: TextureScale)
    ensures
        r == texture_scale_spec(
            mode,
            display_width as int,
            display_height as int,
            image_width as int,
            image_height as int,
        ),
{
    let dw = display_width as u64;
    let dh = display_height as u64;
    let iw = image_width as u64;
    let ih = image_height as u64;
    let one = Ratio { num: 1, den: 1 };
    assert(one == ratio(1, 1));
    let wider = mul32(display_width, image_height) > mul32(image_width, display_height);
    match mode {
        BackgroundMode::Stretch => TextureScale { x: one, y: one },
        BackgroundMode::Center => {
            let dw_ih = mul32(display_width, image_height);
            let dh_iw = mul32(display_height, image_width);
            TextureScale {
                x: Ratio { num: min64(dw_ih, dh_iw), den: dh_iw },
                y: Ratio { num: min64(dh_iw, dw_ih), den: dw_ih },
            }
        },
        BackgroundMode::Fit => {
            if wider {
                TextureScale { x: Ratio { num: dw, den: iw }, y: Ratio { num: max64(dh, ih), den: ih } }
            } else {
                TextureScale { x: Ratio { num: max64(dw, iw), den: iw }, y: Ratio { num: dh, den: ih } }
            }
        },
        BackgroundMode::Tile => {
            if wider {
                if dw <= ih {
                    TextureScale { x: one, y: one }
                } else {
                    TextureScale {
                        x: Ratio {
                            num: mul32(display_width, display_width),
                            den: mul32(image_width, display_height),
                        },
                        y: Ratio { num: dw, den: ih },
                    }
                }
            } else {
                TextureScale { x: Ratio { num: max64(dw, iw), den: iw }, y: Ratio { num: dh, den: ih } }
            }
        },
    }
}

/// Stretch maps the image onto the display as it is.
pub proof fn lemma_stretch_is_identity(dw: u32, dh: u32, iw: u32, ih: u32)
    ensures
        texture_scale_spec(BackgroundMode::Stretch, dw as int, dh as int, iw as int, ih as int)
            == (TextureScale { x: ratio(1, 1), y: ratio(1, 1) }),
{
}

/// Center never enlarges: both scales are at most 1.
pub proof fn lemma_center_shrinks(dw: u32, dh: u32, iw: u32, ih: u32)
    requires
        dw > 0 && dh > 0 && iw > 0 && ih > 0,
    ensures
        at_most_one(texture_scale_spec(BackgroundMode::Center, dw as int, dh as int, iw as int, ih as int).x),
        at_most_one(texture_scale_spec(BackgroundMode::Center, dw as int, dh as int, iw as int, ih as int).y),
{
    lemma_products_fit(dw, ih);
    lemma_products_fit(dh, iw);
}

/// Fit covers the display: at least one scale is at least 1.
pub proof fn lemma_fit_covers(dw: u32, dh: u32, iw: u32, ih: u32)
    requires
        dw > 0 && dh > 0 && iw > 0 && ih > 0,
    ensures
        at_least_one(texture_scale_spec(BackgroundMode::Fit, dw as int, dh as int, iw as int, ih as int).x)
            || at_least_one(
            texture_scale_spec(BackgroundMode::Fit, dw as int, dh as int, iw as int, ih as int).y,
        ),
{
}

/// Tile repeats the image and never shrinks it, on a display relatively
/// wider than the image, or on one at least as tall as the image.
pub proof fn lemma_tile_repeats(dw: u32, dh: u32, iw: u32, ih: u32)
    requires
        dw > 0 && dh > 0 && iw > 0 && ih > 0,
        dw * ih > iw * dh || dh >= ih,
    ensures
        at_least_one(texture_scale_spec(BackgroundMode::Tile, dw as int, dh as int, iw as int, ih as int).x),
        at_least_one(texture_scale_spec(BackgroundMode::Tile, dw as int, dh as int, iw as int, ih as int).y),
{
    lemma_products_fit(dw, dw);
    lemma_products_fit(iw, dh);
    lemma_products_fit(dw, ih);
    let (a, b, c, d) = (dw as int, dh as int, iw as int, ih as int);
    if a * d > c * b && a > d {
        assert(a * a >= c * b) by (nonlinear_arith)
            requires
                a * d > c * b,
                a > d,
                d > 0,
        ;
    }
}

proof fn lemma_products_fit(a: u32, b: u32)
    ensures
        0 <= (a as int) * (b as int) <= 0xffff_ffff_ffff_ffffint,
{
    assert(0 <= (a as int) * (b as int) <= 0xffff_ffffint * 0xffff_ffffint) by (nonlinear_arith)
        requires
            0 <= a <= 0xffff_ffffint,
            0 <= b <= 0xffff_ffffint,
    ;
}

/// The wrap mode of a scaling mode: only Tile repeats the texture.
pub fn texture_wrap(mode: BackgroundMode) -> (r: TextureWrap)
    ensures
        r == (if mode == BackgroundMode::Tile {
            TextureWrap::Repeat
        } else {
            TextureWrap::ClampToBorder
        }),
{
    match mode {
        BackgroundMode::Tile => TextureWrap::Repeat,
        _ => TextureWrap::ClampToBorder,
    }
}

/// Progress never goes back as time goes on, and stays within [0, 1].
pub proof fn lemma_progress_monotonic(started: u32, duration: u32, t1: u32, t2: u32)
    requires
        t1 <= t2,
    ensures
        progress_spec(started, duration, t1).den > 0,
        progress_spec(started, duration, t1).den == progress_spec(started, duration, t2).den,
        progress_spec(started, duration, t1).num <= progress_spec(started, duration, t2).num,
        at_most_one(progress_spec(started, duration, t1)),
        at_most_one(progress_spec(started, duration, t2)),
{
}

/// The state of a renderer that cross-fades from a previous to a current
/// wallpaper: the GPU names of its program and textures, the sizes of the
/// images they hold, the display size and the timing of the transition.
/// The GPU calls themselves are made by the caller from these values.
pub struct Renderer {
    pub program: u32,
    /// Duration of a transition, in milliseconds.
    pub transition_time: u32,
    pub time_started: u32,
    pub display_width: u32,
    pub display_height: u32,
    pub old_wallpaper: Wallpaper,
    pub current_wallpaper: Wallpaper,
}

impl Renderer {
    /// The scales and wrap mode that `mode` gives both slots on this display.
    pub open spec fn scales_spec(&self, mode: BackgroundMode) -> TextureScales {
        TextureScales {
            current: texture_scale_spec(
                mode,
                self.display_width as int,
                self.display_height as int,
                self.current_wallpaper.image_width as int,
                self.current_wallpaper.image_height as int,
            ),
            previous: texture_scale_spec(
                mode,
                self.display_width as int,
                self.display_height as int,
                self.old_wallpaper.image_width as int,
                self.old_wallpaper.image_height as int,
            ),
            wrap: if mode == BackgroundMode::Tile {
                TextureWrap::Repeat
            } else {
                TextureWrap::ClampToBorder
            },
        }
    }

    /// A renderer whose two slots hold a transparent 1x1 placeholder, so
    /// that a draw before any image is loaded is well defined.
    pub fn new(
        program: u32,
        old_texture: u32,
        current_texture: u32,
        display_width: u32,
        display_height: u32,
        transition_time: u32,
    ) -> (r: Renderer)
        ensures
            r.program == program,
            r.transition_time == transition_time,
            r.time_started == 0,
            r.display_width == display_width,
            r.display_height == display_height,
            r.old_wallpaper == (Wallpaper { texture: old_texture, image_width: 1, image_height: 1 }),
            r.current_wallpaper == (Wallpaper { texture: current_texture, image_width: 1, image_height: 1 }),
    {
        Renderer {
            program,
            transition_time,
            time_started: 0,
            display_width,
            display_height,
            old_wallpaper: Wallpaper { texture: old_texture, image_width: 1, image_height: 1 },
            current_wallpaper: Wallpaper { texture: current_texture, image_width: 1, image_height: 1 },
        }
    }

    /// The transition progress at `time`.
    pub fn progress(&self, time: u32) -> (r: Ratio)
        ensures
            r == progress_spec(self.time_started, self.transition_time, time),
    {
        let elapsed = time.saturating_sub(self.time_started);
        if self.transition_time == 0 {
            Ratio { num: 1, den: 1 }
        } else {
            Ratio { num: min64(elapsed as u64, self.transition_time as u64), den: self.transition_time as u64 }
        }
    }

    /// What a frame at `time` draws with: the progress to hand to the
    /// shader, and whether the transition is still going on, that is
    /// whether the progress is below 1.
    pub fn draw(&self, time: u32) -> (r: (Ratio, bool))
        ensures
            r.0 == progress_spec(self.time_started, self.transition_time, time),
            r.1 == (r.0.num < r.0.den),
    {
        let p = self.progress(time);
        (p, p.num < p.den)
    }

    /// The scales of both slots, and the wrap mode, for `mode`.
    pub fn set_mode(&self, mode: BackgroundMode) -> (r: TextureScales)
        ensures
            r == self.scales_spec(mode),
    {
        TextureScales {
            current: texture_scale(
                mode,
                self.display_width,
                self.display_height,
                self.current_wallpaper.image_width,
                self.current_wallpaper.image_height,
            ),
            previous: texture_scale(
                mode,
                self.display_width,
                self.display_height,
                self.old_wallpaper.image_width,
                self.old_wallpaper.image_height,
            ),
            wrap: texture_wrap(mode),
        }
    }

    /// Loads an `image_width` x `image_height` image: the current slot
    /// becomes the previous one, the image goes into the texture that the
    /// previous slot held, and the transition starts over at `time`. Returns
    /// the scales that `mode` gives the new pair; the caller uploads the
    /// image into `current_wallpaper.texture`.
    pub fn load_wallpaper(&mut self, image_width: u32, image_height: u32, mode: BackgroundMode, time: u32) -> (r: TextureScales)
        ensures
            final(self).old_wallpaper == old(self).current_wallpaper,
            final(self).current_wallpaper == (Wallpaper {
                texture: old(self).old_wallpaper.texture,
                image_width,
                image_height,
            }),
            final(self).time_started == time,
            final(self).transition_time == old(self).transition_time,
            final(self).program == old(self).program,
            final(self).display_width == old(self).display_width,
            final(self).display_height == old(self).display_height,
            r == final(self).scales_spec(mode),
    {
        let previous = self.current_wallpaper;
        self.current_wallpaper = Wallpaper { texture: self.old_wallpaper.texture, image_width, image_height };
        self.old_wallpaper = previous;
        self.time_started = time;
        self.set_mode(mode)
    }

    /// Starts a transition of `new_transition_time` milliseconds at `time`.
    pub fn start_transition(&mut self, time: u32, new_transition_time: u32)
        ensures
            *final(self) == (Renderer {
                time_started: time,
                transition_time: new_transition_time,
                ..*old(self)
            }),
    {
        self.time_started = time;
        self.transition_time = new_transition_time;
    }

    pub fn update_transition_time(&mut self, transition_time: u32)
        ensures
            *final(self) == (Renderer { transition_time, ..*old(self) }),
    {
        self.transition_time = transition_time;
    }

    /// Once the transition is over, the previous slot is given the 1x1
    /// placeholder, which frees the memory of its image; the caller uploads
    /// the placeholder into `old_wallpaper.texture`.
    pub fn transition_finished(&mut self)
        ensures
            *final(self) == (Renderer {
                old_wallpaper: Wallpaper {
                    texture: old(self).old_wallpaper.texture,
                    image_width: 1,
                    image_height: 1,
                },
                ..*old(self)
            }),
    {
        self.old_wallpaper = Wallpaper { texture: self.old_wallpaper.texture, image_width: 1, image_height: 1 };
    }

    /// Takes the display's new size; the textures keep theirs.
    pub fn resize(&mut self, display_width: u32, display_height: u32)
        ensures
            *final(self) == (Renderer { display_width, display_height, ..*old(self) }),
    {
        self.display_width = display_width;
        self.display_height = display_height;
    }

    /// Switches to the program built for a new transition. `new_program` is
    /// `None` where building it failed: the current program then stays. On a
    /// switch, returns the old program, which the caller deletes.
    pub fn update_transition(&mut self, new_program: Option<u32>) -> (r: Option<u32>)
        ensures
            new_program.is_none() ==> *final(self) == *old(self) && r.is_none(),
            new_program.is_some() ==> *final(self) == (Renderer {
                program: new_program.unwrap(),
                ..*old(self)
            }) && r == Some(old(self).program),
    {
        match new_program {
            Some(p) => {
                let previous = self.program;
                self.program = p;
                Some(previous)
            },
            None => None,
        }
    }
}

} // verus!
