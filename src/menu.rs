//! Cyclic selection over a fixed, non-empty list of labels.

use vstd::prelude::*;

verus! {

/// A key read from the terminal.
#[derive(Clone, Copy, Debug, PartialEq, Eq, Structural)]
pub enum Key {
    /// A character key.
    Char(char),
    /// The up arrow.
    Up,
    /// The down arrow.
    Down,
    /// Any other key.
    Other,
}

/// What the capture loop does after a key.
#[derive(Clone, Copy, Debug, PartialEq, Eq, Structural)]
pub enum Action {
    /// Keep showing frames.
    Continue,
    /// Record the current frame under the selected label.
    Capture,
    /// Leave the loop.
    Quit,
}

/// `q` quits; `p` and Enter capture.
pub open spec fn key_action(key: Key) -> Action {
    match key {
        Key::Char(c) => if c == 'q' {
            Action::Quit
        } else if c == 'p' || c == '\n' {
            Action::Capture
        } else {
            Action::Continue
        },
        _ => Action::Continue,
    }
}

/// A non-empty list of choices and the index of the selected one.
pub struct Menu {
    choices: Vec<String>,
    choice: usize,
}

impl Menu {
    #[verifier::type_invariant]
    spec fn inv(&self) -> bool {
        self.choice < self.choices@.len()
    }

    /// The choices, in menu order.
    pub closed spec fn choice_seq(&self) -> Seq<Seq<char>> {
        self.choices@.map_values(|s: String| s@)
    }

    /// The index of the selected choice.
    pub closed spec fn index(&self) -> nat {
        self.choice as nat
    }

    /// A menu over `choices` with the first one selected.
    pub fn from_choices(choices: Vec<String>) -> (m: Self)
        requires
            choices@.len() > 0,
        ensures
            m.choice_seq() == choices@.map_values(|s: String| s@),
            m.index() == 0,
    {
        Menu { choices, choice: 0 }
    }

    /// The selected choice.
    pub fn current_choice(&self) -> (r: &str)
        ensures
            self.index() < self.choice_seq().len(),
            r@ == self.choice_seq()[self.index() as int],
    {
        proof {
            use_type_invariant(self);
        }
        self.choices[self.choice].as_str()
    }

    /// The index of the selected choice.
    pub fn choice_index(&self) -> (r: usize)
        ensures
            r == self.index(),
            r < self.choice_seq().len(),
    {
        proof {
            use_type_invariant(self);
        }
        self.choice
    }

    /// A copy of the choices, in menu order.
    pub fn labels(&self) -> (r: Vec<String>)
        ensures
            r@.map_values(|s: String| s@) == self.choice_seq(),
    {
        let mut r: Vec<String> = Vec::new();
        let mut i: usize = 0;
        while i < self.choices.len()
            invariant
                i <= self.choices@.len(),
                r@.len() == i,
                forall|k: int| 0 <= k < i ==> #[trigger] r@[k]@ == self.choices@[k]@,
            decreases self.choices@.len() - i,
        {
            r.push(self.choices[i].clone());
            i = i + 1;
        }
        assert(r@.map_values(|s: String| s@) =~= self.choice_seq());
        r
    }

    /// Number of choices.
    pub fn len(&self) -> (r: usize)
        ensures
            r == self.choice_seq().len(),
            r > 0,
    {
        proof {
            use_type_invariant(self);
        }
        self.choices.len()
    }

    /// Selects the previous choice, wrapping from the first to the last.
    pub fn up(&mut self)
        ensures
            final(self).choice_seq() == old(self).choice_seq(),
            final(self).index() == if old(self).index() == 0 {
                (old(self).choice_seq().len() - 1) as nat
            } else {
                (old(self).index() - 1) as nat
            },
    {
        proof {
            use_type_invariant(&*self);
        }
        if self.choice == 0 {
            self.choice = self.choices.len() - 1;
        } else {
            self.choice = self.choice - 1;
        }
    }

    /// Handles one key of the capture loop: the arrows move the selection,
    /// the other keys leave it alone and decide the action.
    pub fn on_key(&mut self, key: Key) -> (r: Action)
        ensures
            r == key_action(key),
            final(self).choice_seq() == old(self).choice_seq(),
            final(self).index() == match key {
                Key::Up => if old(self).index() == 0 {
                    (old(self).choice_seq().len() - 1) as nat
                } else {
                    (old(self).index() - 1) as nat
                },
                Key::Down => ((old(self).index() + 1) % old(self).choice_seq().len()) as nat,
                _ => old(self).index(),
            },
    {
        match key {
            Key::Up => {
                self.up();
                Action::Continue
            },
            Key::Down => {
                self.down();
                Action::Continue
            },
            Key::Char(c) => {
                if c == 'q' {
                    Action::Quit
                } else if c == 'p' || c == '\n' {
                    Action::Capture
                } else {
                    Action::Continue
                }
            },
            Key::Other => Action::Continue,
        }
    }

    /// Selects the next choice, wrapping from the last to the first.
    pub fn down(&mut self)
        ensures
            final(self).choice_seq() == old(self).choice_seq(),
            old(self).choice_seq().len() > 0,
            final(self).index() == (old(self).index() + 1) % old(self).choice_seq().len(),
    {
        proof {
            use_type_invariant(&*self);
        }
        let n = self.choices.len();
        self.choice = (self.choice + 1) % n;
    }
}

} // verus!
