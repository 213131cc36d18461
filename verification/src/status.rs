//! What `switchout status` shows: the physical screens and which is primary.

use crate::hypr::{
    Monitor, MonitorView, monitor_views, spec_is_mirroring, spec_is_virtual, spec_mode_string,
    string_views,
};
use crate::plan::{Pick, Setup, find_id, find_internal, first_where, spec_resolve};
use vstd::prelude::*;

verus! {

/// One line of the status: a physical screen.
#[derive(Debug)]
pub struct Screen {
    pub name: String,
    pub description: String,
    pub primary: bool,
    pub enabled: bool,
    /// Whether it shows another screen's content.
    pub mirroring: bool,
    /// The name of the screen it mirrors, when that screen is known.
    pub mirror_of: Option<String>,
    pub mode: String,
}

/// What a [`Screen`] holds, as plain values.
pub struct ScreenView {
    pub name: Seq<char>,
    pub description: Seq<char>,
    pub primary: bool,
    pub enabled: bool,
    pub mirroring: bool,
    pub mirror_of: Option<Seq<char>>,
    pub mode: Seq<char>,
}

impl View for Screen {
    type V = ScreenView;

    open spec fn view(&self) -> ScreenView {
        ScreenView {
            name: self.name@,
            description: self.description@,
            primary: self.primary,
            enabled: self.enabled,
            mirroring: self.mirroring,
            mirror_of: match self.mirror_of {
                Some(s) => Some(s@),
                None => None,
            },
            mode: self.mode@,
        }
    }
}

/// The views of a list of status lines.
pub open spec fn screen_views(v: Seq<Screen>) -> Seq<ScreenView> {
    v.map_values(|s: Screen| s@)
}

/// The primary screen: the one a default setup picks, else the laptop panel.
pub open spec fn status_primary(ms: Seq<MonitorView>) -> Option<Seq<char>> {
    match spec_resolve(ms, None, Seq::empty()) {
        Ok(s) => Some(s.primary.name),
        Err(_) => {
            let i = first_where(ms, Pick::Internal);
            if i < ms.len() {
                Some(ms[i as int].name)
            } else {
                None
            }
        },
    }
}

/// The other screens a default setup acts on (none when there is no setup).
pub open spec fn status_externals(ms: Seq<MonitorView>) -> Seq<Seq<char>> {
    match spec_resolve(ms, None, Seq::empty()) {
        Ok(s) => s.targets.map_values(|m: MonitorView| m.name),
        Err(_) => Seq::empty(),
    }
}

/// The name of the screen `m` mirrors, found by its id.
pub open spec fn mirror_source(ms: Seq<MonitorView>, m: MonitorView) -> Option<Seq<char>> {
    if spec_is_mirroring(m) {
        let i = first_where(ms, Pick::WithId(m.mirror_of));
        if i < ms.len() {
            Some(ms[i as int].name)
        } else {
            None
        }
    } else {
        None
    }
}

/// The status line of the screen `m`.
pub open spec fn screen_of(ms: Seq<MonitorView>, primary: Option<Seq<char>>, m: MonitorView) -> ScreenView {
    ScreenView {
        name: m.name,
        description: m.description,
        primary: Some(m.name) == primary,
        enabled: !m.disabled,
        mirroring: spec_is_mirroring(m),
        mirror_of: mirror_source(ms, m),
        mode: spec_mode_string(m),
    }
}

/// The screens of `part`, virtual ones left out, in order.
pub open spec fn screens_of(ms: Seq<MonitorView>, primary: Option<Seq<char>>, part: Seq<MonitorView>) -> Seq<
    ScreenView,
>
    decreases part.len(),
{
    if part.len() == 0 {
        seq![]
    } else {
        let before = screens_of(ms, primary, part.drop_last());
        if spec_is_virtual(part.last()) {
            before
        } else {
            before.push(screen_of(ms, primary, part.last()))
        }
    }
}

/// The status lines of the physical screens, in order.
pub open spec fn spec_screens(ms: Seq<MonitorView>) -> Seq<ScreenView> {
    screens_of(ms, status_primary(ms), ms)
}

/// The primary screen and the names of the other screens a default setup acts on.
pub fn primary_and_externals(monitors: &[Monitor]) -> (r: (Option<String>, Vec<String>))
    ensures
        match r.0 {
            Some(p) => status_primary(monitor_views(monitors@)) == Some(p@),
            None => status_primary(monitor_views(monitors@)) is None,
        },
        string_views(r.1@) == status_externals(monitor_views(monitors@)),
{
    let ghost ms = monitor_views(monitors@);
    let no_outputs: Vec<String> = Vec::new();
    assert(crate::plan::strings_view(no_outputs@) =~= Seq::<Seq<char>>::empty());
    match Setup::resolve(monitors, None, no_outputs.as_slice()) {
        Ok(s) => {
            let ghost sv = s@;
            let mut names: Vec<String> = Vec::new();
            let mut i: usize = 0;
            while i < s.targets.len()
                invariant
                    i <= s.targets@.len(),
                    sv == s@,
                    string_views(names@) == sv.targets.take(i as int).map_values(|m: MonitorView| m.name),
                decreases s.targets.len() - i,
            {
                let ghost before = names@;
                names.push(s.targets[i].name.clone());
                assert(string_views(names@) =~= string_views(before).push(s.targets@[i as int].name@));
                assert(sv.targets.take(i + 1).map_values(|m: MonitorView| m.name) =~= sv.targets.take(
                    i as int,
                ).map_values(|m: MonitorView| m.name).push(sv.targets[i as int].name));
                i = i + 1;
            }
            assert(sv.targets.take(i as int) =~= sv.targets);
            (Some(s.primary.name), names)
        },
        Err(_) => {
            let i = find_internal(monitors);
            let names: Vec<String> = Vec::new();
            assert(string_views(names@) =~= Seq::<Seq<char>>::empty());
            if i < monitors.len() {
                (Some(monitors[i].name.clone()), names)
            } else {
                (None, names)
            }
        },
    }
}

/// The physical screens, with which one is primary and what each mirrors.
pub fn screens(monitors: &[Monitor]) -> (r: Vec<Screen>)
    ensures
        screen_views(r@) == spec_screens(monitor_views(monitors@)),
{
    let ghost ms = monitor_views(monitors@);
    let (primary, _) = primary_and_externals(monitors);
    let ghost pv = match &primary {
        Some(p) => Some(p@),
        None => None,
    };
    let mut out: Vec<Screen> = Vec::new();
    let mut i: usize = 0;
    assert(ms.take(0) =~= Seq::<MonitorView>::empty());
    while i < monitors.len()
        invariant
            i <= monitors@.len(),
            ms == monitor_views(monitors@),
            pv == status_primary(ms),
            pv == match &primary {
                Some(p) => Some(p@),
                None => None::<Seq<char>>,
            },
            screen_views(out@) == screens_of(ms, pv, ms.take(i as int)),
        decreases monitors.len() - i,
    {
        let m = &monitors[i];
        proof {
            assert(ms.take(i + 1).drop_last() =~= ms.take(i as int));
            assert(ms.take(i + 1).last() == m@);
        }
        if !m.is_virtual() {
            let is_primary = match &primary {
                Some(p) => m.name == *p,
                None => false,
            };
            let mirroring = m.is_mirroring();
            let mirror_of = if mirroring {
                let k = find_id(monitors, &m.mirror_of);
                if k < monitors.len() {
                    Some(monitors[k].name.clone())
                } else {
                    None
                }
            } else {
                None
            };
            let sc = Screen {
                name: m.name.clone(),
                description: m.description.clone(),
                primary: is_primary,
                enabled: !m.disabled,
                mirroring,
                mirror_of,
                mode: m.mode_string(),
            };
            assert(sc@ == screen_of(ms, pv, m@));
            let ghost before = out@;
            out.push(sc);
            assert(screen_views(out@) =~= screen_views(before).push(sc@));
        }
        i = i + 1;
    }
    assert(ms.take(i as int) =~= ms);
    out
}

/// `s` padded with spaces to `w` characters (`{:<w}`).
pub open spec fn pad(s: Seq<char>, w: nat) -> Seq<char> {
    if s.len() >= w {
        s
    } else {
        s + Seq::new((w - s.len()) as nat, |i: int| ' ')
    }
}

/// `off`, `mirrors NAME` or `on`.
pub open spec fn state_text(sc: ScreenView) -> Seq<char> {
    if !sc.enabled {
        "off"@
    } else {
        match sc.mirror_of {
            Some(src) => "mirrors "@ + src,
            None => "on"@,
        }
    }
}

/// The status line of a screen: name, mode, state, description, primary tag.
pub open spec fn spec_line(sc: ScreenView) -> Seq<char> {
    pad(sc.name, 10) + " "@ + pad(sc.mode, 16) + " "@ + pad(state_text(sc), 14) + " "@
        + sc.description + if sc.primary {
        " (primary)"@
    } else {
        ""@
    }
}

fn push_padded(out: &mut String, s: &str, w: usize)
    ensures
        final(out)@ == old(out)@ + pad(s@, w as nat),
{
    out.append(s);
    let n = crate::text::chars_of(s).len();
    let mut k = n;
    let ghost base = old(out)@ + s@;
    while k < w
        invariant
            n == s@.len(),
            n <= k <= w || (k == n && n >= w),
            out@ == base + Seq::new((k - n) as nat, |i: int| ' '),
        decreases w - k,
    {
        crate::text::push_char(out, ' ');
        assert(out@ =~= base + Seq::new((k + 1 - n) as nat, |i: int| ' '));
        k = k + 1;
    }
    if n >= w {
        assert(out@ =~= base);
    } else {
        assert(out@ =~= old(out)@ + pad(s@, w as nat));
    }
}

impl Screen {
    /// The line `switchout status` prints for this screen.
    pub fn line(&self) -> (s: String)
        ensures
            s@ == spec_line(self@),
    {
        let mut state = String::new();
        if !self.enabled {
            state.append("off");
        } else {
            match &self.mirror_of {
                Some(src) => {
                    state.append("mirrors ");
                    state.append(src.as_str());
                },
                None => state.append("on"),
            }
        }
        assert(state@ =~= state_text(self@));
        let mut out = String::new();
        push_padded(&mut out, self.name.as_str(), 10);
        out.append(" ");
        push_padded(&mut out, self.mode.as_str(), 16);
        out.append(" ");
        push_padded(&mut out, state.as_str(), 14);
        out.append(" ");
        out.append(self.description.as_str());
        if self.primary {
            out.append(" (primary)");
        } else {
            out.append("");
        }
        assert(out@ =~= spec_line(self@));
        out
    }
}

} // verus!
