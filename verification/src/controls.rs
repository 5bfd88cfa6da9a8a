//! Decisions of the touch screen controls that do not depend on screen
//! geometry: the steps of the volume buttons, pressing buttons, muting,
//! the mode switch, which slider is selected, and whether the pedal
//! pipeline is running.
use crate::text::chars_of;
use vstd::prelude::*;

verus! {

/// The values that the volume buttons add to a slider (in 127ths).
#[derive(Debug, Clone, Copy, PartialEq, Eq, Structural)]
pub enum ButtonIncrement {
    NegativeSmall,
    NegativeBig,
    PositiveSmall,
    PositiveBig,
}

/// The step of each button.
pub open spec fn increment_of(b: ButtonIncrement) -> int {
    match b {
        ButtonIncrement::NegativeSmall => -1,
        ButtonIncrement::PositiveSmall => 1,
        ButtonIncrement::NegativeBig => -10,
        ButtonIncrement::PositiveBig => 10,
    }
}

impl ButtonIncrement {
    /// The step this button adds.
    pub fn value(&self) -> (v: isize)
        ensures
            v == increment_of(*self),
    {
        match self {
            ButtonIncrement::NegativeSmall => -1,
            ButtonIncrement::PositiveSmall => 1,
            ButtonIncrement::NegativeBig => -10,
            ButtonIncrement::PositiveBig => 10,
        }
    }
}

/// The mode of the main button: editing pedals in the web interface, or
/// playing with the pedals live.
#[derive(Debug, Clone, Copy, PartialEq, Eq, Structural)]
pub enum CommandMode {
    EditMode,
    LiveMode,
}

impl CommandMode {
    /// The other mode.
    pub open spec fn toggled_spec(self) -> CommandMode {
        match self {
            CommandMode::EditMode => CommandMode::LiveMode,
            CommandMode::LiveMode => CommandMode::EditMode,
        }
    }

    /// The other mode (a release of the main button switches to it).
    pub fn toggled(&self) -> (r: CommandMode)
        ensures
            r == self.toggled_spec(),
            r != *self,
    {
        match self {
            CommandMode::EditMode => CommandMode::LiveMode,
            CommandMode::LiveMode => CommandMode::EditMode,
        }
    }

    /// The argument of the mode command: `true` starts the pedals (live
    /// mode), `false` starts the web interface (edit mode).
    pub fn runs_pedals(&self) -> (r: bool)
        ensures
            r == (*self == CommandMode::LiveMode),
    {
        match self {
            CommandMode::EditMode => false,
            CommandMode::LiveMode => true,
        }
    }
}

/// A pointer event of the touch screen.
#[derive(Debug, Clone, Copy, PartialEq, Eq, Structural)]
pub enum MouseEvent {
    Down,
    Up,
    Move,
}

/// The press state of a touch button: pressed since a `Down` on it, and
/// whether the pointer is over it.
#[derive(Debug, Clone, Copy, PartialEq, Eq, Structural)]
pub struct ButtonPress {
    pub pressed: bool,
    pub mouse_in: bool,
}

impl ButtonPress {
    /// A button neither pressed nor under the pointer.
    pub fn new() -> (r: Self)
        ensures
            !r.pressed,
            !r.mouse_in,
    {
        ButtonPress { pressed: false, mouse_in: false }
    }

    /// The state after an event on the button: the pointer is over it;
    /// `Down` presses it, `Up` releases it, `Move` keeps the press.
    pub open spec fn after_event(self, e: MouseEvent) -> ButtonPress {
        ButtonPress {
            pressed: match e {
                MouseEvent::Down => true,
                MouseEvent::Up => false,
                MouseEvent::Move => self.pressed,
            },
            mouse_in: true,
        }
    }

    /// An event on the button.  `Down` presses it; `Up` releases it and
    /// completes a press (the result) if it was pressed.
    pub fn event(&mut self, e: MouseEvent) -> (fired: bool)
        ensures
            *final(self) == old(self).after_event(e),
            fired == (e == MouseEvent::Up && old(self).pressed),
    {
        self.mouse_in = true;
        match e {
            MouseEvent::Up => {
                let fired = self.pressed;
                self.pressed = false;
                fired
            },
            MouseEvent::Down => {
                self.pressed = true;
                false
            },
            MouseEvent::Move => false,
        }
    }

    /// The pointer moved; `inside` says whether it is over the button.
    pub fn mouse_at(&mut self, inside: bool)
        ensures
            final(self).mouse_in == inside,
            final(self).pressed == old(self).pressed,
    {
        self.mouse_in = inside;
    }

    /// The pointer was released; released outside, the press is dropped.
    pub fn mouse_released(&mut self, inside: bool)
        ensures
            final(self).pressed == (old(self).pressed && inside),
            final(self).mouse_in == old(self).mouse_in,
    {
        if self.pressed && !inside {
            self.pressed = false;
        }
    }

    /// The button is drawn as pressed: pressed and under the pointer.
    pub fn shows_pressed(&self) -> (r: bool)
        ensures
            r == (self.pressed && self.mouse_in),
    {
        self.pressed && self.mouse_in
    }
}

/// The mute button: its press state and whether the mixer is muted.
#[derive(Debug, Clone, Copy, PartialEq, Eq, Structural)]
pub struct MuteState {
    pub button: ButtonPress,
    pub muted: bool,
}

impl MuteState {
    /// An event on the mute button: a completed press toggles muting and
    /// gives the new setting (to be sent to the mixer).
    pub fn event(&mut self, e: MouseEvent) -> (r: Option<bool>)
        ensures
            final(self).button == old(self).button.after_event(e),
            (e == MouseEvent::Up && old(self).button.pressed) ==> (r == Some(!old(self).muted)
                && final(self).muted == !old(self).muted),
            !(e == MouseEvent::Up && old(self).button.pressed) ==> (r is None && final(self).muted
                == old(self).muted),
    {
        if self.button.event(e) {
            self.muted = !self.muted;
            Some(self.muted)
        } else {
            None
        }
    }
}

/// The main button that switches between editing and playing.
#[derive(Debug, Clone, Copy, PartialEq, Eq, Structural)]
pub struct ModeSwitch {
    pub mode: CommandMode,
    pub pressed: bool,
}

impl ModeSwitch {
    /// An event on the main button (`inside`: the pointer is over it).  A
    /// release over the button after a press switches the mode; the
    /// result says whether it did (the mode command is then run).
    pub fn event(&mut self, e: MouseEvent, inside: bool) -> (switched: bool)
        ensures
            switched == (e == MouseEvent::Up && inside && old(self).pressed),
            final(self).mode == if switched {
                old(self).mode.toggled_spec()
            } else {
                old(self).mode
            },
            final(self).pressed == match e {
                MouseEvent::Down => true,
                MouseEvent::Up => false,
                MouseEvent::Move => old(self).pressed,
            },
    {
        match e {
            MouseEvent::Up => {
                let switched = inside && self.pressed;
                if switched {
                    self.mode = self.mode.toggled();
                }
                self.pressed = false;
                switched
            },
            MouseEvent::Down => {
                self.pressed = true;
                false
            },
            MouseEvent::Move => false,
        }
    }
}

/// Which sliders are shown as selected: the one whose effect is the
/// selected one.
pub fn slider_selection(idxs: &Vec<u8>, selected: Option<u8>) -> (r: Vec<bool>)
    ensures
        r@.len() == idxs@.len(),
        forall|i: int| 0 <= i < idxs@.len() ==> r@[i] == (selected == Some(idxs@[i])),
{
    let mut r: Vec<bool> = Vec::new();
    let mut i: usize = 0;
    while i < idxs.len()
        invariant
            i <= idxs.len(),
            r@.len() == i,
            forall|j: int| 0 <= j < i ==> r@[j] == (selected == Some(idxs@[j])),
        decreases idxs.len() - i,
    {
        let s = match selected {
            Some(v) => v == idxs[i],
            None => false,
        };
        r.push(s);
        i = i + 1;
    }
    r
}

/// Whether the two sequences of characters are equal.
fn same_chars(a: &Vec<char>, b: &Vec<char>) -> (r: bool)
    ensures
        r == (a@ == b@),
{
    if a.len() != b.len() {
        return false;
    }
    let mut i: usize = 0;
    while i < a.len()
        invariant
            i <= a.len(),
            a.len() == b.len(),
            a@.take(i as int) == b@.take(i as int),
        decreases a.len() - i,
    {
        if a[i] != b[i] {
            return false;
        }
        i = i + 1;
        assert(a@.take(i as int) =~= b@.take(i as int));
    }
    assert(a@ =~= a@.take(i as int));
    assert(b@ =~= b@.take(i as int));
    true
}

/// The names of the three programs of the pedal pipeline.
pub open spec fn pipeline_names() -> Seq<Seq<char>> {
    seq![
        seq!['r', 'e', 'a', 'd', '_', 'm', 'i', 'd', 'i'],
        seq!['j', 'a', 'c', 'k', '_', 'm', 'i', 'd', 'i'],
        seq!['t', 'r', 'a', 'n', 's', 'l', 'a', 't', 'e', '_', 'm', 'i', 'd', 'i'],
    ]
}

/// The views of a list of names.
pub open spec fn names_view(v: Seq<String>) -> Seq<Seq<char>> {
    Seq::new(v.len(), |i: int| v[i]@)
}

/// Whether the pedal pipeline runs: each of `read_midi`, `jack_midi` and
/// `translate_midi` is among the names of the running processes.
pub fn pipeline_running(process_names: &Vec<String>) -> (r: bool)
    ensures
        r == forall|k: int|
            0 <= k < 3 ==> names_view(process_names@).contains(#[trigger] pipeline_names()[k]),
{
    let mut wanted: Vec<Vec<char>> = Vec::new();
    let mut w0: Vec<char> = Vec::new();
    w0.push('r'); w0.push('e'); w0.push('a'); w0.push('d'); w0.push('_');
    w0.push('m'); w0.push('i'); w0.push('d'); w0.push('i');
    let mut w1: Vec<char> = Vec::new();
    w1.push('j'); w1.push('a'); w1.push('c'); w1.push('k'); w1.push('_');
    w1.push('m'); w1.push('i'); w1.push('d'); w1.push('i');
    let mut w2: Vec<char> = Vec::new();
    w2.push('t'); w2.push('r'); w2.push('a'); w2.push('n'); w2.push('s');
    w2.push('l'); w2.push('a'); w2.push('t'); w2.push('e'); w2.push('_');
    w2.push('m'); w2.push('i'); w2.push('d'); w2.push('i');
    assert(w0@ =~= pipeline_names()[0]);
    assert(w1@ =~= pipeline_names()[1]);
    assert(w2@ =~= pipeline_names()[2]);
    wanted.push(w0);
    wanted.push(w1);
    wanted.push(w2);
    let mut k: usize = 0;
    while k < 3
        invariant
            k <= 3,
            wanted.len() == 3,
            forall|j: int| 0 <= j < 3 ==> wanted@[j]@ == pipeline_names()[j],
            forall|j: int|
                0 <= j < k ==> names_view(process_names@).contains(#[trigger] pipeline_names()[j]),
        decreases 3 - k,
    {
        let mut found = false;
        let mut i: usize = 0;
        while i < process_names.len()
            invariant
                i <= process_names.len(),
                k < 3,
                wanted.len() == 3,
                forall|j: int| 0 <= j < 3 ==> wanted@[j]@ == pipeline_names()[j],
                found ==> names_view(process_names@).contains(pipeline_names()[k as int]),
                !found ==> forall|j: int|
                    0 <= j < i ==> names_view(process_names@)[j] != pipeline_names()[k as int],
            decreases process_names.len() - i,
        {
            let n = chars_of(process_names[i].as_str());
            if same_chars(&n, &wanted[k]) {
                assert(names_view(process_names@)[i as int] == pipeline_names()[k as int]);
                found = true;
            }
            i = i + 1;
        }
        if !found {
            assert(!names_view(process_names@).contains(pipeline_names()[k as int]));
            return false;
        }
        k = k + 1;
    }
    true
}

} // verus!
