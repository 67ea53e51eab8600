//! The input-event state machine: discrete events become point-store and
//! display-mode mutations.

use vstd::prelude::*;

use crate::codec::fmt_sites;
use crate::codec::save;
use crate::geom::near;
use crate::geom::Site;
use crate::geom::MAX_COORD;
use crate::render::DisplayMode;
use crate::store::PointStore;

verus! {

/// The keys the visualizer reacts to; everything else is `Other`.
#[derive(Clone, Copy, PartialEq, Eq, Structural, Debug)]
pub enum Key {
    N,
    R,
    L,
    C,
    S,
    Other,
}

/// One discrete input event, as the event loop hands it over.
#[derive(Clone, Copy, PartialEq, Eq, Structural, Debug)]
pub enum InputEvent {
    KeyRelease(Key),
    PointerRelease,
    PointerMove(i64, i64),
    Other,
}

/// Mutable interaction state: the display mode and the last cursor
/// position, plus the fixed session configuration (random-fill count and
/// canvas bounds, in micro-units).
pub struct Controller {
    pub mode: DisplayMode,
    pub cursor: Site,
    pub random_count: usize,
    pub width: i64,
    pub height: i64,
}

impl Controller {
    /// The canvas bounds are positive and within coordinate range.
    pub open spec fn wf(self) -> bool {
        0 < self.width <= MAX_COORD && 0 < self.height <= MAX_COORD
    }

    /// A fresh controller: cursor at the origin, mode as configured.
    pub fn new(outline_only: bool, random_count: usize, width: i64, height: i64) -> (c: Controller)
        requires
            0 < width <= MAX_COORD,
            0 < height <= MAX_COORD,
        ensures
            c.wf(),
            c.mode == (if outline_only {
                DisplayMode::OutlineOnly
            } else {
                DisplayMode::Filled
            }),
            c.cursor == (Site { x: 0, y: 0 }),
            c.random_count == random_count,
            c.width == width,
            c.height == height,
    {
        Controller {
            mode: if outline_only {
                DisplayMode::OutlineOnly
            } else {
                DisplayMode::Filled
            },
            cursor: Site { x: 0, y: 0 },
            random_count,
            width,
            height,
        }
    }

    /// Applies one input event: `N` clears, `R` refills with random
    /// sites, `L` toggles the mode, `C` recolors, `S` yields the saved
    /// text for the output channel, a pointer release inserts at the
    /// last cursor position, pointer motion only tracks the cursor, and
    /// every other event changes nothing.
    pub fn handle_event(&mut self, store: &mut PointStore, event: InputEvent) -> (out: Option<
        Vec<u8>,
    >)
        requires
            old(self).wf(),
            old(store).wf(),
        ensures
            final(self).wf(),
            final(store).wf(),
            final(self).random_count == old(self).random_count,
            final(self).width == old(self).width,
            final(self).height == old(self).height,
            match event {
                InputEvent::KeyRelease(Key::N) => *final(self) == *old(self)
                    && final(store).sites@.len() == 0 && final(store).colors@.len() == 0
                    && out is None,
                InputEvent::KeyRelease(Key::R) => *final(self) == *old(self)
                    && final(store).sites@.len() == old(self).random_count
                    && final(store).colors@.len() == old(self).random_count
                    && (forall|i: int| 0 <= i < final(store).sites@.len()
                        ==> 0 <= (#[trigger] final(store).sites@[i]).x < old(self).width
                        && 0 <= final(store).sites@[i].y < old(self).height)
                    && out is None,
                InputEvent::KeyRelease(Key::L) => final(self).mode == old(self).mode.spec_toggled()
                    && final(self).cursor == old(self).cursor && *final(store) == *old(store)
                    && out is None,
                InputEvent::KeyRelease(Key::C) => *final(self) == *old(self)
                    && final(store).sites@ == old(store).sites@
                    && final(store).colors@.len() == old(store).sites@.len() && out is None,
                InputEvent::KeyRelease(Key::S) => *final(self) == *old(self)
                    && *final(store) == *old(store) && (out matches Some(text)
                    && text@ == fmt_sites(old(store).sites@)),
                InputEvent::KeyRelease(Key::Other) => *final(self) == *old(self)
                    && *final(store) == *old(store) && out is None,
                InputEvent::PointerRelease => *final(self) == *old(self) && out is None && {
                    let p = old(self).cursor;
                    let hit = p.ok() && !exists|i: int|
                        0 <= i < old(store).sites@.len() && near(old(store).sites@[i], p);
                    if hit {
                        final(store).sites@ == old(store).sites@.push(p)
                            && final(store).colors@.len() == old(store).colors@.len() + 1
                    } else {
                        *final(store) == *old(store)
                    }
                },
                InputEvent::PointerMove(x, y) => final(self).cursor == (Site { x, y })
                    && final(self).mode == old(self).mode && *final(store) == *old(store)
                    && out is None,
                InputEvent::Other => *final(self) == *old(self) && *final(store) == *old(store)
                    && out is None,
            },
    {
        match event {
            InputEvent::KeyRelease(Key::N) => {
                store.clear();
                None
            },
            InputEvent::KeyRelease(Key::R) => {
                store.fill_random(self.random_count, self.width, self.height);
                None
            },
            InputEvent::KeyRelease(Key::L) => {
                self.mode = self.mode.toggled();
                None
            },
            InputEvent::KeyRelease(Key::C) => {
                store.recolor();
                None
            },
            InputEvent::KeyRelease(Key::S) => {
                Some(save(&store.sites))
            },
            InputEvent::KeyRelease(Key::Other) => None,
            InputEvent::PointerRelease => {
                let p = self.cursor;
                store.insert(p);
                None
            },
            InputEvent::PointerMove(x, y) => {
                self.cursor = Site { x, y };
                None
            },
            InputEvent::Other => None,
        }
    }
}

} // verus!
