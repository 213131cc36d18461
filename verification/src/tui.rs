//! The terminal menu's state and what each key does to it.

use crate::hypr::string_views;
use crate::plan::{Mode, Side, spec_label, spec_mode_at, spec_mode_index};
use crate::text::join;
use vstd::prelude::*;

verus! {

/// A key of the terminal menu.
#[derive(Debug, Clone, Copy, PartialEq, Eq, Structural)]
pub enum Key {
    /// `q` / Esc
    Quit,
    /// ↑ / `k`
    Up,
    /// ↓ / `j`
    Down,
    /// Tab / `t`
    NextTarget,
    /// → / `l`
    Right,
    /// ← / `h`
    Left,
    Enter,
    /// A digit key, `0`–`9`.
    Digit(u8),
    /// `r`
    Reload,
    Other,
}

/// What the menu asks for after a key.
#[derive(Debug, Clone, Copy, PartialEq, Eq, Structural)]
pub enum Action {
    Nothing,
    Quit,
    Apply(Mode),
    Reload,
}

/// The placements offered when extending, in menu order: keep, right, left, up, down.
pub open spec fn spec_side_at(i: int) -> Option<Side> {
    if i == 1 {
        Some(Side::Right)
    } else if i == 2 {
        Some(Side::Left)
    } else if i == 3 {
        Some(Side::Up)
    } else if i == 4 {
        Some(Side::Down)
    } else {
        None
    }
}

/// The menu's choices: the target (0 = all external screens, n = the n-th one),
/// the mode (index into the modes) and the placement (index into the placements).
pub struct Menu {
    target: usize,
    mode: usize,
    side: usize,
}

/// What a [`Menu`] holds: target, mode index and placement index.
pub struct MenuView {
    pub target: nat,
    pub mode: nat,
    pub side: nat,
}

impl View for Menu {
    type V = MenuView;

    closed spec fn view(&self) -> MenuView {
        MenuView { target: self.target as nat, mode: self.mode as nat, side: self.side as nat }
    }
}

/// The new state and action after `key`, with `n` external screens.
pub open spec fn spec_on_key(m: MenuView, key: Key, n: nat) -> (MenuView, Action) {
    match key {
        Key::Quit => (m, Action::Quit),
        Key::Up => (MenuView { mode: if m.mode > 0 {
            (m.mode - 1) as nat
        } else {
            0
        }, ..m }, Action::Nothing),
        Key::Down => (MenuView { mode: if m.mode + 1 < 3 {
            m.mode + 1
        } else {
            3
        }, ..m }, Action::Nothing),
        Key::NextTarget => (MenuView { target: (m.target + 1) % (n + 1), ..m }, Action::Nothing),
        Key::Right => (MenuView { side: (m.side + 1) % 5, ..m }, Action::Nothing),
        Key::Left => (MenuView { side: (m.side + 4) % 5, ..m }, Action::Nothing),
        Key::Enter => (m, Action::Apply(spec_mode_at(m.mode as int))),
        Key::Digit(d) => if 1 <= d <= 4 {
            (MenuView { mode: (d - 1) as nat, ..m }, Action::Apply(spec_mode_at(d - 1)))
        } else {
            (m, Action::Nothing)
        },
        Key::Reload => (m, Action::Reload),
        Key::Other => (m, Action::Nothing),
    }
}

impl Menu {
    #[verifier::type_invariant]
    closed spec fn inv(self) -> bool {
        self.mode < 4 && self.side < 5
    }

    /// All external screens, the first mode, placement kept.
    pub fn new() -> (m: Menu)
        ensures
            m@ == (MenuView { target: 0, mode: 0, side: 0 }),
    {
        Menu { target: 0, mode: 0, side: 0 }
    }

    /// The chosen target (0 = all external screens).
    pub fn target(&self) -> (t: usize)
        ensures
            t == self@.target,
    {
        self.target
    }

    /// The index of the chosen mode.
    pub fn mode_index(&self) -> (i: usize)
        ensures
            i == self@.mode,
            i < 4,
    {
        proof {
            use_type_invariant(self);
        }
        self.mode
    }

    /// The chosen mode.
    pub fn selected_mode(&self) -> (m: Mode)
        ensures
            m == spec_mode_at(self@.mode as int),
    {
        proof {
            use_type_invariant(self);
        }
        Mode::at(self.mode)
    }

    /// Selects `mode` when the screens are in one of our modes.
    pub fn select(&mut self, current: Option<Mode>)
        ensures
            final(self)@ == (match current {
                Some(m) => MenuView { mode: spec_mode_index(m), ..old(self)@ },
                None => old(self)@,
            }),
    {
        proof {
            use_type_invariant(&*self);
        }
        match current {
            Some(m) => {
                self.mode = m.index();
            },
            None => {},
        }
    }

    /// Keeps the target within the `n` external screens.
    pub fn clamp(&mut self, n: usize)
        ensures
            final(self)@ == (MenuView {
                target: if old(self)@.target <= n {
                    old(self)@.target
                } else {
                    n as nat
                },
                ..old(self)@
            }),
    {
        proof {
            use_type_invariant(&*self);
        }
        if self.target > n {
            self.target = n;
        }
    }

    /// What `key` does, with `n` external screens.
    pub fn on_key(&mut self, key: Key, n: usize) -> (a: Action)
        requires
            old(self)@.target <= n,
            n < usize::MAX,
        ensures
            (final(self)@, a) == spec_on_key(old(self)@, key, n as nat),
    {
        proof {
            use_type_invariant(&*self);
        }
        match key {
            Key::Quit => Action::Quit,
            Key::Up => {
                if self.mode > 0 {
                    self.mode = self.mode - 1;
                }
                Action::Nothing
            },
            Key::Down => {
                self.mode = if self.mode + 1 < 3 {
                    self.mode + 1
                } else {
                    3
                };
                Action::Nothing
            },
            Key::NextTarget => {
                self.target = (self.target + 1) % (n + 1);
                Action::Nothing
            },
            Key::Right => {
                self.side = (self.side + 1) % 5;
                Action::Nothing
            },
            Key::Left => {
                self.side = (self.side + 4) % 5;
                Action::Nothing
            },
            Key::Enter => Action::Apply(Mode::at(self.mode)),
            Key::Digit(d) => {
                if 1 <= d && d <= 4 {
                    let i = (d - 1) as usize;
                    self.mode = i;
                    Action::Apply(Mode::at(i))
                } else {
                    Action::Nothing
                }
            },
            Key::Reload => Action::Reload,
            Key::Other => Action::Nothing,
        }
    }

    /// The chosen placement.
    pub fn side(&self) -> (s: Option<Side>)
        ensures
            s == spec_side_at(self@.side as int),
    {
        if self.side == 1 {
            Some(Side::Right)
        } else if self.side == 2 {
            Some(Side::Left)
        } else if self.side == 3 {
            Some(Side::Up)
        } else if self.side == 4 {
            Some(Side::Down)
        } else {
            None
        }
    }

    /// The placement used when applying `mode`: none for mirror and internal only.
    pub fn side_for(&self, mode: Mode) -> (s: Option<Side>)
        ensures
            s == (if mode == Mode::Mirror || mode == Mode::InternalOnly {
                None
            } else {
                spec_side_at(self@.side as int)
            }),
    {
        if mode == Mode::Mirror || mode == Mode::InternalOnly {
            None
        } else {
            self.side()
        }
    }

    /// The outputs a setup is resolved with: none (all external screens) or the chosen one.
    pub fn outputs(&self, externals: &Vec<String>) -> (o: Vec<String>)
        requires
            self@.target <= externals@.len(),
        ensures
            string_views(o@) == (if self@.target == 0 {
                Seq::<Seq<char>>::empty()
            } else {
                seq![externals@[self@.target - 1]@]
            }),
    {
        let mut o: Vec<String> = Vec::new();
        if self.target > 0 {
            o.push(externals[self.target - 1].clone());
        }
        assert(string_views(o@) =~= (if self@.target == 0 {
            Seq::<Seq<char>>::empty()
        } else {
            seq![externals@[self@.target - 1]@]
        }));
        o
    }

    /// The chosen target, in words.
    pub fn target_label(&self, externals: &Vec<String>) -> (s: String)
        requires
            self@.target <= externals@.len(),
        ensures
            s@ == (if self@.target == 0 {
                if externals@.len() == 0 {
                    "no external screen"@
                } else {
                    "all external screens"@
                }
            } else {
                externals@[self@.target - 1]@
            }),
    {
        if self.target == 0 {
            if externals.len() == 0 {
                String::from_str("no external screen")
            } else {
                String::from_str("all external screens")
            }
        } else {
            externals[self.target - 1].clone()
        }
    }

    /// The chosen placement, in words.
    pub fn side_label(&self) -> (s: &'static str)
        ensures
            s@ == (match spec_side_at(self@.side as int) {
                None => "keep position"@,
                Some(Side::Right) => "right"@,
                Some(Side::Left) => "left"@,
                Some(Side::Up) => "above"@,
                Some(Side::Down) => "below"@,
            }),
    {
        match self.side() {
            None => "keep position",
            Some(Side::Right) => "right",
            Some(Side::Left) => "left",
            Some(Side::Up) => "above",
            Some(Side::Down) => "below",
        }
    }
}

/// The message after applying `mode`: `"<mode> applied"`, or the warnings
/// joined with `" · "` and flagged as an error.
pub fn apply_message(mode: Mode, warnings: &Vec<String>) -> (r: (String, bool))
    ensures
        r.0@ == (if warnings@.len() == 0 {
            spec_label(mode) + " applied"@
        } else {
            join(string_views(warnings@), " · "@)
        }),
        r.1 == (warnings@.len() != 0),
{
    if warnings.len() == 0 {
        let mut s = String::from_str(mode.label());
        s.append(" applied");
        return (s, false);
    }
    let ghost ws = string_views(warnings@);
    let mut out = String::new();
    let mut k: usize = 0;
    assert(ws.take(0) =~= Seq::<Seq<char>>::empty());
    while k < warnings.len()
        invariant
            k <= warnings@.len(),
            ws == string_views(warnings@),
            out@ == join(ws.take(k as int), " · "@),
        decreases warnings.len() - k,
    {
        if k > 0 {
            out.append(" · ");
        }
        let ghost before = out@;
        out.append(warnings[k].as_str());
        proof {
            let t = ws.take(k + 1);
            assert(t.drop_last() =~= ws.take(k as int));
            assert(t.last() == warnings@[k as int]@);
            if k == 0 {
                assert(join(t, " · "@) == t[0]);
                assert(out@ =~= t[0]);
            } else {
                assert(out@ =~= join(t, " · "@));
            }
        }
        k = k + 1;
    }
    assert(ws.take(k as int) =~= ws);
    (out, true)
}

} // verus!
