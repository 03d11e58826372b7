//! Colors by key, and what a key press does in each of the two modes.
use vstd::prelude::*;
use crate::scene::{advanced, retreated, Scene};

verus! {

/// Channels per node: red, green, blue, circular-polarized, warm white,
/// neutral white, vertical-, horizontal- and diagonal-polarized.
pub const CHANNELS_PER_MODULE: usize = 9;

/// A key press, as the two modes tell them apart.
#[derive(Debug, Clone, Copy, PartialEq, Eq, Structural)]
pub enum KeyInput {
    Char(char),
    Up,
    Down,
    Left,
    Right,
    /// Escape or Ctrl-C.
    Quit,
    Other,
}

/// The channels that color key `k` lights at brightness `b`, if `k` names a color.
pub open spec fn channels_for(k: char, b: u8) -> Option<Seq<u8>> {
    if k == 'r' {
        Some(seq![b, 0, 0, 0, 0, 0, 0, 0, 0])
    } else if k == 'g' {
        Some(seq![0, b, 0, 0, 0, 0, 0, 0, 0])
    } else if k == 'b' {
        Some(seq![0, 0, b, 0, 0, 0, 0, 0, 0])
    } else if k == 'c' {
        Some(seq![0, 0, 0, b, 0, 0, 0, 0, 0])
    } else if k == 'w' {
        Some(seq![0, 0, 0, 0, b, 0, 0, 0, 0])
    } else if k == 'n' {
        Some(seq![0, 0, 0, 0, 0, b, 0, 0, 0])
    } else if k == 'v' {
        Some(seq![0, 0, 0, 0, 0, 0, b, 0, 0])
    } else if k == 'h' {
        Some(seq![0, 0, 0, 0, 0, 0, 0, b, 0])
    } else if k == 'd' {
        Some(seq![0, 0, 0, 0, 0, 0, 0, 0, b])
    } else if k == 'p' {
        Some(seq![0, 0, 0, b, 0, 0, b, b, b])
    } else if k == 'a' {
        Some(seq![b, b, b, b, b, b, b, b, b])
    } else if k == 'o' {
        Some(seq![0, 0, 0, 0, 0, 0, 0, 0, 0])
    } else {
        None
    }
}

/// The channels that color key `k` lights at `brightness`, or `None` for a
/// key that names no color.
pub fn match_mode(k: char, brightness: u8) -> (r: Option<[u8; 9]>)
    ensures
        r is None <==> channels_for(k, brightness) is None,
        r is Some ==> r->Some_0@ == channels_for(k, brightness)->Some_0,
{
    let b = brightness;
    let arr: [u8; 9] = if k == 'r' {
        [b, 0, 0, 0, 0, 0, 0, 0, 0]
    } else if k == 'g' {
        [0, b, 0, 0, 0, 0, 0, 0, 0]
    } else if k == 'b' {
        [0, 0, b, 0, 0, 0, 0, 0, 0]
    } else if k == 'c' {
        [0, 0, 0, b, 0, 0, 0, 0, 0]
    } else if k == 'w' {
        [0, 0, 0, 0, b, 0, 0, 0, 0]
    } else if k == 'n' {
        [0, 0, 0, 0, 0, b, 0, 0, 0]
    } else if k == 'v' {
        [0, 0, 0, 0, 0, 0, b, 0, 0]
    } else if k == 'h' {
        [0, 0, 0, 0, 0, 0, 0, b, 0]
    } else if k == 'd' {
        [0, 0, 0, 0, 0, 0, 0, 0, b]
    } else if k == 'p' {
        [0, 0, 0, b, 0, 0, b, b, b]
    } else if k == 'a' {
        [b, b, b, b, b, b, b, b, b]
    } else if k == 'o' {
        [0, 0, 0, 0, 0, 0, 0, 0, 0]
    } else {
        return None;
    };
    assert(arr@ =~= channels_for(k, brightness)->Some_0);
    Some(arr)
}

/// The uniform color of the interactive mode: the channels every node shows,
/// the key of the chosen color, and its brightness.
#[derive(Debug, Clone, Copy)]
pub struct ColorPicker {
    pub pixel: [u8; 9],
    pub color: char,
    pub brightness: u8,
}

/// Whether `brightness` is one the arrow keys can reach: a multiple of ten
/// from 10 to 250.
pub open spec fn reachable_brightness(brightness: u8) -> bool {
    10 <= brightness <= 250 && brightness % 10 == 0
}

impl ColorPicker {
    /// The chosen color names a color, and the brightness is reachable.
    pub open spec fn wf(&self) -> bool {
        &&& reachable_brightness(self.brightness)
        &&& channels_for(self.color, self.brightness) is Some
    }

    /// All lights off, color `o`, brightness 200.
    pub fn new() -> (r: Self)
        ensures
            r.wf(),
            r.pixel@ == seq![0u8, 0, 0, 0, 0, 0, 0, 0, 0],
            r.color == 'o',
            r.brightness == 200,
    {
        let r = ColorPicker { pixel: [0, 0, 0, 0, 0, 0, 0, 0, 0], color: 'o', brightness: 200 };
        assert(r.pixel@ =~= seq![0u8, 0, 0, 0, 0, 0, 0, 0, 0]);
        r
    }

    /// Applies one key press; the result says whether to quit. A color key
    /// chooses its color, any other character changes nothing; the up and down
    /// arrows move the brightness by ten within 10 to 250; quitting turns the
    /// lights off.
    pub fn handle_key(&mut self, key: KeyInput) -> (quit: bool)
        requires
            old(self).wf(),
        ensures
            final(self).wf(),
            quit == (key == KeyInput::Quit),
            key == KeyInput::Quit ==> {
                &&& final(self).pixel@ == seq![0u8, 0, 0, 0, 0, 0, 0, 0, 0]
                &&& final(self).color == old(self).color
                &&& final(self).brightness == old(self).brightness
            },
            key matches KeyInput::Char(k) ==> if channels_for(k, old(self).brightness) is Some {
                &&& final(self).pixel@ == channels_for(k, old(self).brightness)->Some_0
                &&& final(self).color == k
                &&& final(self).brightness == old(self).brightness
            } else {
                *final(self) == *old(self)
            },
            key == KeyInput::Up ==> if old(self).brightness < 250 {
                &&& final(self).brightness == old(self).brightness + 10
                &&& final(self).color == old(self).color
                &&& final(self).pixel@ == channels_for(old(self).color, final(self).brightness)->Some_0
            } else {
                *final(self) == *old(self)
            },
            key == KeyInput::Down ==> if old(self).brightness > 10 {
                &&& final(self).brightness == old(self).brightness - 10
                &&& final(self).color == old(self).color
                &&& final(self).pixel@ == channels_for(old(self).color, final(self).brightness)->Some_0
            } else {
                *final(self) == *old(self)
            },
            key == KeyInput::Left || key == KeyInput::Right || key == KeyInput::Other
                ==> *final(self) == *old(self),
    {
        match key {
            KeyInput::Char(k) => {
                if let Some(px) = match_mode(k, self.brightness) {
                    self.pixel = px;
                    self.color = k;
                }
                false
            },
            KeyInput::Up => {
                if self.brightness < 250 {
                    self.brightness = self.brightness + 10;
                    if let Some(px) = match_mode(self.color, self.brightness) {
                        self.pixel = px;
                    }
                }
                false
            },
            KeyInput::Down => {
                if self.brightness > 10 {
                    self.brightness = self.brightness - 10;
                    if let Some(px) = match_mode(self.color, self.brightness) {
                        self.pixel = px;
                    }
                }
                false
            },
            KeyInput::Quit => {
                self.pixel = [0, 0, 0, 0, 0, 0, 0, 0, 0];
                assert(self.pixel@ =~= seq![0u8, 0, 0, 0, 0, 0, 0, 0, 0]);
                true
            },
            _ => false,
        }
    }
}

impl<const N: usize, const M: usize> Scene<N, M> {
    /// Applies one key press of the scene player; the result says whether to
    /// quit. The right arrow moves to the next frame, the left arrow to the
    /// previous one; other keys change nothing.
    pub fn handle_key(&mut self, key: KeyInput) -> (quit: bool)
        requires
            old(self).wf(),
        ensures
            final(self).wf(),
            final(self)@ == old(self)@,
            quit == (key == KeyInput::Quit),
            final(self).cursor() == if key == KeyInput::Right {
                advanced(old(self).cursor(), old(self)@.len() as int)
            } else if key == KeyInput::Left {
                retreated(old(self).cursor())
            } else {
                old(self).cursor()
            },
    {
        match key {
            KeyInput::Right => {
                self.next();
                false
            },
            KeyInput::Left => {
                self.prev();
                false
            },
            KeyInput::Quit => true,
            _ => false,
        }
    }
}

} // verus!
