//! The window a session owns, as the orchestration logic sees it. The
//! actual decode and native rendering are capabilities outside this
//! library; what the coordinator and the layout algorithm read is kept
//! here as plain values: whether a display exists yet, its intrinsic
//! size fixed at the first successful decode, its placement, and
//! whether it is still visible.

use vstd::prelude::*;

verus! {

/// Model of a created display: intrinsic size, placement once the
/// layout has set one, and visibility.
pub struct DisplayModel {
    pub width: int,
    pub height: int,
    pub pos: Option<(int, int)>,
    pub visible: bool,
}

/// Model of a session's window: its title and, once the first picture
/// decoded, its display.
pub struct WindowModel {
    pub name: Seq<char>,
    pub display: Option<DisplayModel>,
}

/// Whether the window has a display, that is, at least one picture has
/// been decoded and shown for its session.
pub open spec fn shown(m: WindowModel) -> bool {
    m.display is Some
}

/// The window's intrinsic size, `(0, 0)` while no display exists.
pub open spec fn spec_size(m: WindowModel) -> (int, int) {
    match m.display {
        Some(d) => (d.width, d.height),
        None => (0, 0),
    }
}

/// The window's placement, if the layout has set one.
pub open spec fn spec_pos(m: WindowModel) -> Option<(int, int)> {
    match m.display {
        Some(d) => d.pos,
        None => None,
    }
}

/// Well-formedness: a display's intrinsic size is nonnegative and fits
/// the machine word it is carried in.
pub open spec fn wf_window(m: WindowModel) -> bool {
    match m.display {
        Some(d) => 0 <= d.width <= i32::MAX && 0 <= d.height <= i32::MAX,
        None => true,
    }
}

struct DisplayState {
    width: i32,
    height: i32,
    pos: Option<(i32, i32)>,
    visible: bool,
}

/// A window that shows one H.264 stream. The decoder and the native
/// surface behind it are driven by the application; this type holds
/// the state the coordinator's decisions and the layout depend on.
pub struct H264Window {
    name: String,
    display: Option<DisplayState>,
}

impl View for H264Window {
    type V = WindowModel;

    closed spec fn view(&self) -> WindowModel {
        WindowModel {
            name: self.name@,
            display: match self.display {
                Some(d) => Some(
                    DisplayModel {
                        width: d.width as int,
                        height: d.height as int,
                        pos: match d.pos {
                            Some(p) => Some((p.0 as int, p.1 as int)),
                            None => None,
                        },
                        visible: d.visible,
                    },
                ),
                None => None,
            },
        }
    }
}

impl H264Window {
    /// A fresh window for a new session: named, with no display until
    /// the first picture decodes.
    pub fn new(name: String) -> (r: H264Window)
        ensures
            r@.name == name@,
            r@.display is None,
            wf_window(r@),
    {
        H264Window { name, display: None }
    }

    /// The window's title.
    pub fn name(&self) -> (r: &String)
        ensures
            r@ == self@.name,
    {
        &self.name
    }

    /// Records one successfully decoded picture of the given intrinsic
    /// size. The first such picture creates the display at that size;
    /// once a display exists its size is fixed and further pictures
    /// change nothing here (they only refresh the surface outside).
    pub fn draw(&mut self, width: i32, height: i32)
        requires
            0 <= width,
            0 <= height,
        ensures
            final(self)@.name == old(self)@.name,
            shown(final(self)@),
            old(self)@.display is Some ==> final(self)@ == old(self)@,
            old(self)@.display is None ==> final(self)@.display == Some(
                DisplayModel {
                    width: width as int,
                    height: height as int,
                    pos: None::<(int, int)>,
                    visible: true,
                },
            ),
            wf_window(old(self)@) ==> wf_window(final(self)@),
    {
        if self.display.is_none() {
            self.display = Some(DisplayState { width, height, pos: None, visible: true });
        }
    }

    /// Hides the window when its session ends.
    pub fn hide_window(&mut self)
        requires
            shown(old(self)@),
        ensures
            final(self)@ == (WindowModel {
                display: Some(
                    DisplayModel { visible: false, ..old(self)@.display->Some_0 },
                ),
                ..old(self)@
            }),
    {
        if let Some(d) = &mut self.display {
            d.visible = false;
        }
    }

    /// Moves the window to the given placement; without a display
    /// there is nothing to place and nothing changes.
    pub fn set_position(&mut self, x: i32, y: i32)
        ensures
            old(self)@.display is None ==> final(self)@ == old(self)@,
            old(self)@.display is Some ==> final(self)@ == (WindowModel {
                display: Some(
                    DisplayModel {
                        pos: Some((x as int, y as int)),
                        ..old(self)@.display->Some_0
                    },
                ),
                ..old(self)@
            }),
    {
        if let Some(d) = &mut self.display {
            d.pos = Some((x, y));
        }
    }

    /// The window's width, `0` while no display exists.
    pub fn width(&self) -> (r: i32)
        ensures
            r == spec_size(self@).0,
    {
        self.size().0
    }

    /// The window's height, `0` while no display exists.
    pub fn height(&self) -> (r: i32)
        ensures
            r == spec_size(self@).1,
    {
        self.size().1
    }

    /// The window's intrinsic size, `(0, 0)` while no display exists.
    pub fn size(&self) -> (r: (i32, i32))
        ensures
            (r.0 as int, r.1 as int) == spec_size(self@),
    {
        match &self.display {
            Some(d) => (d.width, d.height),
            None => (0, 0),
        }
    }

    /// Whether a display exists for this window.
    pub fn is_shown(&self) -> (r: bool)
        ensures
            r == shown(self@),
    {
        self.display.is_some()
    }

    /// The window's placement, if the layout has set one.
    pub fn position(&self) -> (r: Option<(i32, i32)>)
        ensures
            r is None <==> spec_pos(self@) is None,
            r is Some ==> spec_pos(self@) == Some(
                (r->Some_0.0 as int, r->Some_0.1 as int),
            ),
    {
        match &self.display {
            Some(d) => d.pos,
            None => None,
        }
    }
}

} // verus!
