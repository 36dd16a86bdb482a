//! Keyboard and mouse state gathered from window events between frames. Keys and
//! mouse buttons are identified by integer codes.
use vstd::prelude::*;

verus! {

/// Which keys and mouse buttons are held, where the cursor is, and how far it
/// moved with the last cursor event of the current frame.
pub struct InputState {
    keys: Vec<u32>,
    buttons: Vec<u32>,
    last_mouse_position: (i32, i32),
    mouse_delta: (i64, i64),
}

fn contains(codes: &Vec<u32>, code: u32) -> (r: bool)
    ensures
        r == codes@.contains(code),
{
    let mut i: usize = 0;
    while i < codes.len()
        invariant
            i <= codes@.len(),
            forall|j: int| 0 <= j < i ==> codes@[j] != code,
        decreases codes@.len() - i,
    {
        if codes[i] == code {
            assert(codes@[i as int] == code);
            return true;
        }
        i = i + 1;
    }
    false
}

fn without_code(codes: &Vec<u32>, code: u32) -> (r: Vec<u32>)
    ensures
        r@.to_set() == codes@.to_set().remove(code),
{
    let mut out: Vec<u32> = Vec::new();
    let mut i: usize = 0;
    while i < codes.len()
        invariant
            i <= codes@.len(),
            out@.to_set() == codes@.subrange(0, i as int).to_set().remove(code),
        decreases codes@.len() - i,
    {
        let c = codes[i];
        proof {
            assert(codes@.subrange(0, i + 1) =~= codes@.subrange(0, i as int).push(c));
            codes@.subrange(0, i as int).lemma_push_to_set_commute(c);
        }
        if c != code {
            proof {
                out@.lemma_push_to_set_commute(c);
            }
            out.push(c);
            assert(out@.to_set() =~= codes@.subrange(0, i + 1).to_set().remove(code));
        } else {
            assert(out@.to_set() =~= codes@.subrange(0, i + 1).to_set().remove(code));
        }
        i = i + 1;
    }
    assert(codes@.subrange(0, codes@.len() as int) =~= codes@);
    out
}

fn insert_code(codes: &mut Vec<u32>, code: u32)
    ensures
        final(codes)@.to_set() == old(codes)@.to_set().insert(code),
{
    if !contains(codes, code) {
        proof {
            old(codes)@.lemma_push_to_set_commute(code);
        }
        codes.push(code);
    } else {
        assert(old(codes)@.to_set() =~= old(codes)@.to_set().insert(code));
    }
}

impl InputState {
    /// The keys held down.
    pub closed spec fn keys_down(&self) -> Set<u32> {
        self.keys@.to_set()
    }

    /// The mouse buttons held down.
    pub closed spec fn buttons_down(&self) -> Set<u32> {
        self.buttons@.to_set()
    }

    /// The last cursor position.
    pub closed spec fn position(&self) -> (i32, i32) {
        self.last_mouse_position
    }

    /// How far the cursor moved with its last event of the current frame.
    pub closed spec fn delta(&self) -> (i64, i64) {
        self.mouse_delta
    }

    /// No key or button held, the cursor at the origin and still.
    pub fn new() -> (r: InputState)
        ensures
            r.keys_down() == Set::<u32>::empty(),
            r.buttons_down() == Set::<u32>::empty(),
            r.position() == (0i32, 0i32),
            r.delta() == (0i64, 0i64),
    {
        let r = InputState {
            keys: Vec::new(),
            buttons: Vec::new(),
            last_mouse_position: (0, 0),
            mouse_delta: (0, 0),
        };
        assert(r.keys@.to_set() =~= Set::<u32>::empty());
        assert(r.buttons@.to_set() =~= Set::<u32>::empty());
        r
    }

    /// A key was pressed or released. Repeats of a held key change nothing.
    pub fn handle_key(&mut self, key: u32, pressed: bool, repeat: bool)
        ensures
            final(self).keys_down() == if repeat {
                old(self).keys_down()
            } else if pressed {
                old(self).keys_down().insert(key)
            } else {
                old(self).keys_down().remove(key)
            },
            final(self).buttons_down() == old(self).buttons_down(),
            final(self).position() == old(self).position(),
            final(self).delta() == old(self).delta(),
    {
        if repeat {
            return;
        }
        if pressed {
            insert_code(&mut self.keys, key);
        } else {
            self.keys = without_code(&self.keys, key);
        }
    }

    /// A mouse button was pressed or released.
    pub fn handle_mouse_button(&mut self, button: u32, pressed: bool)
        ensures
            final(self).buttons_down() == if pressed {
                old(self).buttons_down().insert(button)
            } else {
                old(self).buttons_down().remove(button)
            },
            final(self).keys_down() == old(self).keys_down(),
            final(self).position() == old(self).position(),
            final(self).delta() == old(self).delta(),
    {
        if pressed {
            insert_code(&mut self.buttons, button);
        } else {
            self.buttons = without_code(&self.buttons, button);
        }
    }

    /// The cursor moved to `(x, y)`: the movement is the difference from the last
    /// position, which becomes `(x, y)`.
    pub fn handle_cursor_moved(&mut self, x: i32, y: i32)
        ensures
            final(self).position() == (x, y),
            final(self).delta().0 == x - old(self).position().0,
            final(self).delta().1 == y - old(self).position().1,
            final(self).keys_down() == old(self).keys_down(),
            final(self).buttons_down() == old(self).buttons_down(),
    {
        let (lx, ly) = self.last_mouse_position;
        self.mouse_delta = (x as i64 - lx as i64, y as i64 - ly as i64);
        self.last_mouse_position = (x, y);
    }

    /// Forgets what is tracked per frame: the cursor movement.
    pub fn reset_current_frame(&mut self)
        ensures
            final(self).delta() == (0i64, 0i64),
            final(self).keys_down() == old(self).keys_down(),
            final(self).buttons_down() == old(self).buttons_down(),
            final(self).position() == old(self).position(),
    {
        self.mouse_delta = (0, 0);
    }

    /// Whether `key` is held down.
    pub fn key_pressed(&self, key: u32) -> (r: bool)
        ensures
            r == self.keys_down().contains(key),
    {
        contains(&self.keys, key)
    }

    /// The last cursor position.
    pub fn mouse_position(&self) -> (r: (i32, i32))
        ensures
            r == self.position(),
    {
        self.last_mouse_position
    }

    /// Whether mouse `button` is held down.
    pub fn mouse_pressed(&self, button: u32) -> (r: bool)
        ensures
            r == self.buttons_down().contains(button),
    {
        contains(&self.buttons, button)
    }

    /// How far the cursor moved with its last event of the current frame.
    pub fn mouse_delta(&self) -> (r: (i64, i64))
        ensures
            r == self.delta(),
    {
        self.mouse_delta
    }
}

} // verus!
