//! Turns "put the screens in mode X" into a list of `hl.monitor` rules.

use crate::hypr::{
    Monitor, MonitorView, monitor_views, spec_is_extended, spec_is_internal, spec_is_virtual,
    spec_key, spec_mode_string,
};
use crate::state::{Geometry, GeometryView, Layouts, geometry_of};
use crate::text::{
    chars_of, dec_int, dec_nat, digit, digit_of, int_string, join, push_char, push_dec,
};
use vstd::prelude::*;

verus! {

/// What to do with the external screens.
#[derive(Debug, Clone, Copy, PartialEq, Eq, Structural)]
pub enum Mode {
    /// External screens show the same thing as the primary screen
    Mirror,
    /// External screens are extra desktop space
    Extend,
    /// Only the external screens are on
    ExternalOnly,
    /// Only the primary screen is on
    InternalOnly,
}

/// The name of a mode in menus and messages.
pub open spec fn spec_label(mode: Mode) -> Seq<char> {
    match mode {
        Mode::Mirror => "Mirror"@,
        Mode::Extend => "Extend"@,
        Mode::ExternalOnly => "External only"@,
        Mode::InternalOnly => "Internal only"@,
    }
}

/// The modes in menu order.
pub open spec fn spec_mode_at(i: int) -> Mode {
    if i == 0 {
        Mode::Mirror
    } else if i == 1 {
        Mode::Extend
    } else if i == 2 {
        Mode::ExternalOnly
    } else {
        Mode::InternalOnly
    }
}

/// The place of a mode in the menu.
pub open spec fn spec_mode_index(m: Mode) -> nat {
    match m {
        Mode::Mirror => 0,
        Mode::Extend => 1,
        Mode::ExternalOnly => 2,
        Mode::InternalOnly => 3,
    }
}

impl Mode {
    /// The name of the mode in menus and messages.
    pub fn label(self) -> (s: &'static str)
        ensures
            s@ == spec_label(self),
    {
        match self {
            Mode::Mirror => "Mirror",
            Mode::Extend => "Extend",
            Mode::ExternalOnly => "External only",
            Mode::InternalOnly => "Internal only",
        }
    }

    /// The `i`-th mode of the menu (Mirror, Extend, External only, Internal only).
    pub fn at(i: usize) -> (m: Mode)
        requires
            i < 4,
        ensures
            m == spec_mode_at(i as int),
    {
        if i == 0 {
            Mode::Mirror
        } else if i == 1 {
            Mode::Extend
        } else if i == 2 {
            Mode::ExternalOnly
        } else {
            Mode::InternalOnly
        }
    }

    /// The place of this mode in the menu.
    pub fn index(self) -> (i: usize)
        ensures
            i == spec_mode_index(self),
            i < 4,
            spec_mode_at(i as int) == self,
    {
        match self {
            Mode::Mirror => 0,
            Mode::Extend => 1,
            Mode::ExternalOnly => 2,
            Mode::InternalOnly => 3,
        }
    }
}

/// Where extended screens go relative to the others.
#[derive(Debug, Clone, Copy, PartialEq, Eq, Structural)]
pub enum Side {
    Left,
    Right,
    Up,
    Down,
}

/// The Hyprland position keyword of a side.
pub open spec fn spec_position(side: Side) -> Seq<char> {
    match side {
        Side::Left => "auto-left"@,
        Side::Right => "auto-right"@,
        Side::Up => "auto-up"@,
        Side::Down => "auto-down"@,
    }
}

impl Side {
    /// The Hyprland position keyword of the side.
    pub fn position(self) -> (s: &'static str)
        ensures
            s@ == spec_position(self),
    {
        match self {
            Side::Left => "auto-left",
            Side::Right => "auto-right",
            Side::Up => "auto-up",
            Side::Down => "auto-down",
        }
    }
}

/// One `hl.monitor` rule.
#[derive(Debug, PartialEq)]
pub enum Rule {
    Disable { output: String },
    Enable { output: String, geometry: Geometry, mirror: Option<String> },
}

/// What a [`Rule`] holds, as plain values.
pub enum RuleView {
    Disable { output: Seq<char> },
    Enable { output: Seq<char>, geometry: GeometryView, mirror: Option<Seq<char>> },
}

impl View for Rule {
    type V = RuleView;

    open spec fn view(&self) -> RuleView {
        match self {
            Rule::Disable { output } => RuleView::Disable { output: output@ },
            Rule::Enable { output, geometry, mirror } => RuleView::Enable {
                output: output@,
                geometry: geometry@,
                mirror: match mirror {
                    Some(m) => Some(m@),
                    None => None,
                },
            },
        }
    }
}

/// The views of a list of rules.
pub open spec fn rule_views(rs: Seq<Rule>) -> Seq<RuleView> {
    rs.map_values(|r: Rule| r@)
}

/// How one character is written inside a Lua string literal.
pub open spec fn escape_char(c: char) -> Seq<char> {
    let u = c as u32;
    if c == '\\' {
        seq!['\\', '\\']
    } else if c == '"' {
        seq!['\\', '"']
    } else if c == '\n' {
        seq!['\\', 'n']
    } else if u < 32 || u == 127 {
        seq!['\\', digit((u / 100) as nat), digit(((u / 10) % 10) as nat), digit((u % 10) as nat)]
    } else {
        seq![c]
    }
}

/// The characters of `s`, each escaped.
pub open spec fn escaped(s: Seq<char>) -> Seq<char>
    decreases s.len(),
{
    if s.len() == 0 {
        seq![]
    } else {
        escape_char(s[0]) + escaped(s.drop_first())
    }
}

/// `s` as a quoted, escaped Lua string literal.
pub open spec fn spec_lua_str(s: Seq<char>) -> Seq<char> {
    seq!['"'] + escaped(s) + seq!['"']
}

/// Escaping one more character appends its escape.
pub proof fn lemma_escaped_push(s: Seq<char>, c: char)
    ensures
        escaped(s.push(c)) == escaped(s) + escape_char(c),
    decreases s.len(),
{
    if s.len() == 0 {
        assert(s.push(c).drop_first() =~= Seq::<char>::empty());
        assert(s.push(c)[0] == c);
        assert(escaped(Seq::<char>::empty()) =~= Seq::<char>::empty());
        assert(escaped(s) =~= Seq::<char>::empty());
        assert(escaped(s.push(c)) =~= escape_char(c) + escaped(Seq::<char>::empty()));
        assert(escaped(s.push(c)) =~= escaped(s) + escape_char(c));
    } else {
        assert(s.push(c).drop_first() =~= s.drop_first().push(c));
        lemma_escaped_push(s.drop_first(), c);
        assert(escaped(s.push(c)) =~= escaped(s) + escape_char(c));
    }
}

/// Monitor names come from the outside world: quote and escape them.
pub fn lua_str(s: &str) -> (r: String)
    ensures
        r@ == spec_lua_str(s@),
{
    let v = chars_of(s);
    let mut out = String::new();
    push_char(&mut out, '"');
    let mut i: usize = 0;
    assert(v@.take(0) =~= Seq::<char>::empty());
    while i < v.len()
        invariant
            i <= v@.len(),
            out@ == seq!['"'] + escaped(v@.take(i as int)),
        decreases v.len() - i,
    {
        let c = v[i];
        let u = c as u32;
        let ghost before = out@;
        if c == '\\' {
            push_char(&mut out, '\\');
            push_char(&mut out, '\\');
        } else if c == '"' {
            push_char(&mut out, '\\');
            push_char(&mut out, '"');
        } else if c == '\n' {
            push_char(&mut out, '\\');
            push_char(&mut out, 'n');
        } else if u < 32 || u == 127 {
            push_char(&mut out, '\\');
            push_char(&mut out, digit_of((u / 100) as u64));
            push_char(&mut out, digit_of(((u / 10) % 10) as u64));
            push_char(&mut out, digit_of((u % 10) as u64));
        } else {
            push_char(&mut out, c);
        }
        proof {
            assert(out@ =~= before + escape_char(c));
            assert(v@.take(i + 1) =~= v@.take(i as int).push(c));
            lemma_escaped_push(v@.take(i as int), c);
        }
        i = i + 1;
    }
    push_char(&mut out, '"');
    assert(v@.take(i as int) =~= v@);
    out
}

/// Trailing `'0'`s removed.
pub open spec fn trim_zeros(s: Seq<char>) -> Seq<char>
    decreases s.len(),
{
    if s.len() > 0 && s.last() == '0' {
        trim_zeros(s.drop_last())
    } else {
        s
    }
}

/// `f` (below a million) as six digits, with leading zeros.
pub open spec fn six_digits(f: nat) -> Seq<char> {
    seq![
        digit(f / 100000),
        digit((f / 10000) % 10),
        digit((f / 1000) % 10),
        digit((f / 100) % 10),
        digit((f / 10) % 10),
        digit(f % 10),
    ]
}

/// The absolute value.
pub open spec fn abs(x: int) -> nat {
    if x < 0 {
        (-x) as nat
    } else {
        x as nat
    }
}

/// A number of millionths written as a decimal: no trailing zeros and no
/// fraction part when it is whole (`1500000` is `1.5`, `2000000` is `2`).
pub open spec fn spec_lua_num(x: int) -> Seq<char> {
    let a = abs(x);
    let whole = a / 1000000;
    let frac = a % 1000000;
    (if x < 0 {
        seq!['-']
    } else {
        Seq::<char>::empty()
    }) + dec_nat(whole) + (if frac == 0 {
        Seq::<char>::empty()
    } else {
        seq!['.'] + trim_zeros(six_digits(frac))
    })
}

/// A scale given in millionths, written for Lua.
pub fn lua_num(x: i64) -> (r: String)
    ensures
        r@ == spec_lua_num(x as int),
{
    let a: u64 = if x < 0 {
        (0 - (x as i128)) as u64
    } else {
        x as u64
    };
    let whole = a / 1000000;
    let frac = a % 1000000;
    let mut out = String::new();
    if x < 0 {
        push_char(&mut out, '-');
    }
    push_dec(&mut out, whole);
    if frac != 0 {
        let mut ds: Vec<char> = Vec::new();
        ds.push(digit_of(frac / 100000));
        ds.push(digit_of((frac / 10000) % 10));
        ds.push(digit_of((frac / 1000) % 10));
        ds.push(digit_of((frac / 100) % 10));
        ds.push(digit_of((frac / 10) % 10));
        ds.push(digit_of(frac % 10));
        assert(ds@ =~= six_digits(frac as nat));
        assert(ds@.take(6) =~= ds@);
        let mut n: usize = 6;
        while n > 0 && ds[n - 1] == '0'
            invariant
                n <= 6,
                ds@.len() == 6,
                trim_zeros(six_digits(frac as nat)) == trim_zeros(ds@.take(n as int)),
            decreases n,
        {
            assert(ds@.take(n as int).drop_last() =~= ds@.take(n - 1));
            n = n - 1;
        }
        push_char(&mut out, '.');
        let mut k: usize = 0;
        let ghost before = out@;
        while k < n
            invariant
                k <= n <= 6,
                ds@.len() == 6,
                out@ == before + ds@.take(k as int),
            decreases n - k,
        {
            push_char(&mut out, ds[k]);
            assert(ds@.take(k + 1) =~= ds@.take(k as int).push(ds@[k as int]));
            k = k + 1;
        }
        assert(trim_zeros(ds@.take(n as int)) == ds@.take(n as int));
        assert(out@ =~= spec_lua_num(x as int));
    } else {
        assert(out@ =~= spec_lua_num(x as int));
    }
    out
}

/// The Lua text of a rule.
pub open spec fn spec_to_lua(r: RuleView) -> Seq<char> {
    match r {
        RuleView::Disable { output } => "hl.monitor({ output = "@ + spec_lua_str(output)
            + ", disabled = true })"@,
        RuleView::Enable { output, geometry, mirror } => "hl.monitor({ output = "@ + spec_lua_str(
            output,
        ) + ", disabled = false, mode = "@ + spec_lua_str(geometry.mode) + ", position = "@
            + spec_lua_str(geometry.position) + ", scale = "@ + spec_lua_num(
            geometry.scale_micro as int,
        ) + ", transform = "@ + dec_nat(geometry.transform as nat) + ", mirror = "@ + spec_lua_str(
            match mirror {
                Some(m) => m,
                None => Seq::<char>::empty(),
            },
        ) + " })"@,
    }
}

impl Rule {
    /// Always a complete rule: `hl.monitor` merges into the previous rule for the
    /// same output, so a partial one would keep a stale `mirror` or `disabled`.
    pub fn to_lua(&self) -> (s: String)
        ensures
            s@ == spec_to_lua(self@),
    {
        match self {
            Rule::Disable { output } => {
                let mut s = String::from_str("hl.monitor({ output = ");
                s.append(lua_str(output.as_str()).as_str());
                s.append(", disabled = true })");
                s
            },
            Rule::Enable { output, geometry, mirror } => {
                let mut s = String::from_str("hl.monitor({ output = ");
                s.append(lua_str(output.as_str()).as_str());
                s.append(", disabled = false, mode = ");
                s.append(lua_str(geometry.mode.as_str()).as_str());
                s.append(", position = ");
                s.append(lua_str(geometry.position.as_str()).as_str());
                s.append(", scale = ");
                s.append(lua_num(geometry.scale_micro).as_str());
                s.append(", transform = ");
                push_dec(&mut s, geometry.transform as u64);
                s.append(", mirror = ");
                let m = match mirror {
                    Some(m) => lua_str(m.as_str()),
                    None => lua_str(""),
                };
                proof {
                    if mirror is None {
                        assert(""@ =~= Seq::<char>::empty()) by {
                            reveal_strlit("");
                        }
                    }
                }
                s.append(m.as_str());
                s.append(" })");
                s
            },
        }
    }
}

/// The rules as one Lua script, one rule per line.
pub open spec fn spec_script(rs: Seq<RuleView>) -> Seq<char> {
    join(rs.map_values(|r: RuleView| spec_to_lua(r)), seq!['\n'])
}

/// The Lua text of the rules, one per line.
pub fn script(rules: &[Rule]) -> (s: String)
    ensures
        s@ == spec_script(rule_views(rules@)),
{
    let ghost rs = rule_views(rules@);
    let ghost lua = rs.map_values(|r: RuleView| spec_to_lua(r));
    let mut out = String::new();
    let mut i: usize = 0;
    while i < rules.len()
        invariant
            i <= rules@.len(),
            rs == rule_views(rules@),
            lua == rs.map_values(|r: RuleView| spec_to_lua(r)),
            out@ == join(lua.take(i as int), seq!['\n']),
        decreases rules.len() - i,
    {
        let ghost before = out@;
        if i > 0 {
            push_char(&mut out, '\n');
        }
        out.append(rules[i].to_lua().as_str());
        proof {
            let t = lua.take(i + 1);
            assert(t.drop_last() =~= lua.take(i as int));
            assert(t.last() == spec_to_lua(rules@[i as int]@));
            if i == 0 {
                assert(join(t, seq!['\n']) == t[0]);
                assert(out@ =~= join(t, seq!['\n']));
            } else {
                assert(out@ =~= join(t, seq!['\n']));
            }
        }
        i = i + 1;
    }
    assert(lua.take(i as int) =~= lua);
    out
}

/// A way to pick a screen in a list.
pub enum Pick {
    Named(Seq<char>),
    Internal,
    Focused,
    /// The screen whose id, in decimal, is this text.
    WithId(Seq<char>),
}

/// Whether `p` picks the screen `m`.
pub open spec fn picks(p: Pick, m: MonitorView) -> bool {
    match p {
        Pick::Named(n) => m.name == n,
        Pick::Internal => spec_is_internal(m),
        Pick::Focused => m.focused,
        Pick::WithId(id) => dec_int(m.id as int) == id,
    }
}

/// Index of the first screen that `p` picks, or the length of the list when none.
pub open spec fn first_where(ms: Seq<MonitorView>, p: Pick) -> nat
    decreases ms.len(),
{
    if ms.len() == 0 {
        0
    } else if picks(p, ms[0]) {
        0
    } else {
        1 + first_where(ms.drop_first(), p)
    }
}

/// `first_where` is the first index that `p` picks (or the length).
pub proof fn lemma_first_where(ms: Seq<MonitorView>, p: Pick, i: int)
    requires
        0 <= i <= ms.len(),
        forall|k: int| 0 <= k < i ==> !picks(p, #[trigger] ms[k]),
        i == ms.len() || picks(p, ms[i]),
    ensures
        first_where(ms, p) == i,
    decreases ms.len(),
{
    if ms.len() > 0 && i > 0 {
        assert(!picks(p, ms[0]));
        assert forall|k: int| 0 <= k < i - 1 implies !picks(p, #[trigger] ms.drop_first()[k]) by {
            assert(ms.drop_first()[k] == ms[k + 1]);
        }
        lemma_first_where(ms.drop_first(), p, i - 1);
    }
}

/// Why the screens a mode applies to could not be found.
#[derive(Debug)]
pub enum ResolveError {
    NoScreenNamed(String),
    NoScreen,
    IsPrimary(String),
    NoExternal,
}

/// What a [`ResolveError`] holds, as plain values.
pub enum ResolveFailure {
    NoScreenNamed(Seq<char>),
    NoScreen,
    IsPrimary(Seq<char>),
    NoExternal,
}

impl View for ResolveError {
    type V = ResolveFailure;

    open spec fn view(&self) -> ResolveFailure {
        match self {
            ResolveError::NoScreenNamed(n) => ResolveFailure::NoScreenNamed(n@),
            ResolveError::NoScreen => ResolveFailure::NoScreen,
            ResolveError::IsPrimary(n) => ResolveFailure::IsPrimary(n@),
            ResolveError::NoExternal => ResolveFailure::NoExternal,
        }
    }
}

/// A resolve failure as a sentence.
pub open spec fn spec_message(e: ResolveFailure) -> Seq<char> {
    match e {
        ResolveFailure::NoScreenNamed(n) => "no screen named "@ + n,
        ResolveFailure::NoScreen => "no screen found"@,
        ResolveFailure::IsPrimary(n) => n + " is the primary screen"@,
        ResolveFailure::NoExternal => "no external screen connected"@,
    }
}

impl ResolveError {
    /// The error as a sentence.
    pub fn message(&self) -> (s: String)
        ensures
            s@ == spec_message(self@),
    {
        match self {
            ResolveError::NoScreenNamed(n) => {
                let mut s = String::from_str("no screen named ");
                s.append(n.as_str());
                s
            },
            ResolveError::NoScreen => String::from_str("no screen found"),
            ResolveError::IsPrimary(n) => {
                let mut s = n.clone();
                s.append(" is the primary screen");
                s
            },
            ResolveError::NoExternal => String::from_str("no external screen connected"),
        }
    }
}

/// The screens a mode is applied to.
#[derive(Debug)]
pub struct Setup {
    pub primary: Monitor,
    pub targets: Vec<Monitor>,
}

/// What a [`Setup`] holds, as plain values.
pub struct SetupView {
    pub primary: MonitorView,
    pub targets: Seq<MonitorView>,
}

impl View for Setup {
    type V = SetupView;

    open spec fn view(&self) -> SetupView {
        SetupView { primary: self.primary@, targets: monitor_views(self.targets@) }
    }
}

/// Primary: the named screen, else the laptop panel, else the focused screen, else the first.
pub open spec fn spec_primary(ms: Seq<MonitorView>, primary: Option<Seq<char>>) -> Result<
    MonitorView,
    ResolveFailure,
> {
    match primary {
        Some(name) => {
            let i = first_where(ms, Pick::Named(name));
            if i < ms.len() {
                Ok(ms[i as int])
            } else {
                Err(ResolveFailure::NoScreenNamed(name))
            }
        },
        None => {
            let i = first_where(ms, Pick::Internal);
            let j = first_where(ms, Pick::Focused);
            if i < ms.len() {
                Ok(ms[i as int])
            } else if j < ms.len() {
                Ok(ms[j as int])
            } else if ms.len() > 0 {
                Ok(ms[0])
            } else {
                Err(ResolveFailure::NoScreen)
            }
        },
    }
}

/// Every physical screen other than the primary, in order.
pub open spec fn others(ms: Seq<MonitorView>, primary: Seq<char>) -> Seq<MonitorView>
    decreases ms.len(),
{
    if ms.len() == 0 {
        seq![]
    } else {
        let before = others(ms.drop_last(), primary);
        let m = ms.last();
        if m.name != primary && !spec_is_virtual(m) {
            before.push(m)
        } else {
            before
        }
    }
}

/// The screens named in `outs`, in order; the first name that is missing or
/// is the primary decides the error.
pub open spec fn named_targets(ms: Seq<MonitorView>, primary: Seq<char>, outs: Seq<Seq<char>>) -> Result<
    Seq<MonitorView>,
    ResolveFailure,
>
    decreases outs.len(),
{
    if outs.len() == 0 {
        Ok(seq![])
    } else {
        match named_targets(ms, primary, outs.drop_last()) {
            Err(e) => Err(e),
            Ok(ts) => {
                let name = outs.last();
                let i = first_where(ms, Pick::Named(name));
                if i < ms.len() {
                    if ms[i as int].name == primary {
                        Err(ResolveFailure::IsPrimary(name))
                    } else {
                        Ok(ts.push(ms[i as int]))
                    }
                } else {
                    Err(ResolveFailure::NoScreenNamed(name))
                }
            },
        }
    }
}

/// The setup for a primary name (if any) and the named outputs (all others when none).
pub open spec fn spec_resolve(
    ms: Seq<MonitorView>,
    primary: Option<Seq<char>>,
    outs: Seq<Seq<char>>,
) -> Result<SetupView, ResolveFailure> {
    match spec_primary(ms, primary) {
        Err(e) => Err(e),
        Ok(p) => {
            let ts = if outs.len() == 0 {
                Ok(others(ms, p.name))
            } else {
                named_targets(ms, p.name, outs)
            };
            match ts {
                Err(e) => Err(e),
                Ok(t) => if t.len() == 0 {
                    Err(ResolveFailure::NoExternal)
                } else {
                    Ok(SetupView { primary: p, targets: t })
                },
            }
        },
    }
}

/// The view of an optional string.
pub open spec fn opt_view(o: Option<&str>) -> Option<Seq<char>> {
    match o {
        Some(s) => Some(s@),
        None => None,
    }
}

/// The views of a list of strings.
pub open spec fn strings_view(v: Seq<String>) -> Seq<Seq<char>> {
    v.map_values(|s: String| s@)
}

/// The mode the screens are in, if it is one of ours.
pub open spec fn spec_current_mode(s: SetupView) -> Option<Mode> {
    let p = s.primary;
    let t = s.targets;
    if forall|i: int| 0 <= i < t.len() ==> (#[trigger] t[i]).disabled {
        Some(Mode::InternalOnly)
    } else if p.disabled {
        if forall|i: int| 0 <= i < t.len() ==> spec_is_extended(#[trigger] t[i]) {
            Some(Mode::ExternalOnly)
        } else {
            None
        }
    } else if forall|i: int|
        0 <= i < t.len() ==> !(#[trigger] t[i]).disabled && t[i].mirror_of == dec_int(p.id as int) {
        Some(Mode::Mirror)
    } else if forall|i: int| 0 <= i < t.len() ==> spec_is_extended(#[trigger] t[i]) {
        Some(Mode::Extend)
    } else {
        None
    }
}

/// Where a screen goes when it is (re)enabled: where it is now if it is already
/// extended, else where it was last time it was, else next to the others.
pub open spec fn spec_restore(m: MonitorView, layouts: Map<Seq<char>, GeometryView>) -> GeometryView {
    if spec_is_extended(m) {
        geometry_of(m)
    } else if layouts.contains_key(spec_key(m)) {
        layouts[spec_key(m)]
    } else {
        GeometryView {
            mode: if m.disabled {
                "preferred"@
            } else {
                spec_mode_string(m)
            },
            position: "auto-right"@,
            scale_micro: m.scale_micro,
            transform: m.transform,
        }
    }
}

/// The rule that turns `m` on, at `position` if given, mirroring `mirror` if given.
pub open spec fn enable_rule(
    m: MonitorView,
    layouts: Map<Seq<char>, GeometryView>,
    position: Option<Seq<char>>,
    mirror: Option<Seq<char>>,
) -> RuleView {
    let g = spec_restore(m, layouts);
    RuleView::Enable {
        output: m.name,
        geometry: match position {
            Some(p) => GeometryView {
                mode: g.mode,
                position: p,
                scale_micro: g.scale_micro,
                transform: g.transform,
            },
            None => g,
        },
        mirror,
    }
}

/// The position keyword of an optional side.
pub open spec fn side_position(side: Option<Side>) -> Option<Seq<char>> {
    match side {
        Some(s) => Some(spec_position(s)),
        None => None,
    }
}

/// The rule for one target screen.
pub open spec fn target_rule(
    s: SetupView,
    mode: Mode,
    side: Option<Side>,
    layouts: Map<Seq<char>, GeometryView>,
    t: MonitorView,
) -> RuleView {
    match mode {
        Mode::Mirror => enable_rule(t, layouts, None, Some(s.primary.name)),
        Mode::Extend | Mode::ExternalOnly => enable_rule(t, layouts, side_position(side), None),
        Mode::InternalOnly => RuleView::Disable { output: t.name },
    }
}

/// The rules for a mode: the primary first when it has to be turned back on,
/// then one rule per target in order, then the primary turned off for
/// "external only", so that there is never a moment with no screen.
pub open spec fn spec_plan(
    s: SetupView,
    mode: Mode,
    side: Option<Side>,
    layouts: Map<Seq<char>, GeometryView>,
) -> Seq<RuleView> {
    let head = if mode != Mode::ExternalOnly && !spec_is_extended(s.primary) {
        seq![enable_rule(s.primary, layouts, None, None)]
    } else {
        Seq::<RuleView>::empty()
    };
    let body = s.targets.map_values(|t: MonitorView| target_rule(s, mode, side, layouts, t));
    let tail = if mode == Mode::ExternalOnly {
        seq![RuleView::Disable { output: s.primary.name }]
    } else {
        Seq::<RuleView>::empty()
    };
    head + body + tail
}

/// Index of the first screen called `name`.
pub fn find_named(monitors: &[Monitor], name: &String) -> (i: usize)
    ensures
        i == first_where(monitor_views(monitors@), Pick::Named(name@)),
        i <= monitors@.len(),
{
    let ghost ms = monitor_views(monitors@);
    let mut i: usize = 0;
    while i < monitors.len() && !(monitors[i].name == *name)
        invariant
            i <= monitors@.len(),
            ms == monitor_views(monitors@),
            forall|k: int| 0 <= k < i ==> !picks(Pick::Named(name@), #[trigger] ms[k]),
        decreases monitors.len() - i,
    {
        i = i + 1;
    }
    proof {
        lemma_first_where(ms, Pick::Named(name@), i as int);
    }
    i
}

/// Index of the first laptop panel.
pub fn find_internal(monitors: &[Monitor]) -> (i: usize)
    ensures
        i == first_where(monitor_views(monitors@), Pick::Internal),
        i <= monitors@.len(),
{
    let ghost ms = monitor_views(monitors@);
    let mut i: usize = 0;
    while i < monitors.len() && !monitors[i].is_internal()
        invariant
            i <= monitors@.len(),
            ms == monitor_views(monitors@),
            forall|k: int| 0 <= k < i ==> !picks(Pick::Internal, #[trigger] ms[k]),
        decreases monitors.len() - i,
    {
        i = i + 1;
    }
    proof {
        lemma_first_where(ms, Pick::Internal, i as int);
    }
    i
}

/// Index of the first focused screen.
fn find_focused(monitors: &[Monitor]) -> (i: usize)
    ensures
        i == first_where(monitor_views(monitors@), Pick::Focused),
        i <= monitors@.len(),
{
    let ghost ms = monitor_views(monitors@);
    let mut i: usize = 0;
    while i < monitors.len() && !monitors[i].focused
        invariant
            i <= monitors@.len(),
            ms == monitor_views(monitors@),
            forall|k: int| 0 <= k < i ==> !picks(Pick::Focused, #[trigger] ms[k]),
        decreases monitors.len() - i,
    {
        i = i + 1;
    }
    proof {
        lemma_first_where(ms, Pick::Focused, i as int);
    }
    i
}

/// Where a screen goes when it is (re)enabled.
fn restore(m: &Monitor, layouts: &Layouts) -> (g: Geometry)
    ensures
        g@ == spec_restore(m@, layouts@),
{
    if m.is_extended() {
        return Geometry::of(m);
    }
    match layouts.get(m) {
        Some(g) => g.clone(),
        None => Geometry {
            mode: if m.disabled {
                String::from_str("preferred")
            } else {
                m.mode_string()
            },
            position: String::from_str("auto-right"),
            scale_micro: m.scale_micro,
            transform: m.transform,
        },
    }
}

/// The rule that turns `m` on.
fn enable(m: &Monitor, layouts: &Layouts, position: Option<&str>, mirror: Option<&String>) -> (r: Rule)
    ensures
        r@ == enable_rule(
            m@,
            layouts@,
            opt_view(position),
            match mirror {
                Some(s) => Some(s@),
                None => None,
            },
        ),
{
    let mut geometry = restore(m, layouts);
    match position {
        Some(p) => {
            geometry.position = String::from_str(p);
        },
        None => {},
    }
    Rule::Enable {
        output: m.name.clone(),
        geometry,
        mirror: match mirror {
            Some(s) => Some(s.clone()),
            None => None,
        },
    }
}

impl Setup {
    /// Primary: `--primary`, else the laptop panel, else the focused screen.
    /// Targets: `--output`s, else every other physical screen.
    pub fn resolve(monitors: &[Monitor], primary: Option<&str>, outputs: &[String]) -> (r: Result<
        Setup,
        ResolveError,
    >)
        ensures
            match r {
                Ok(s) => spec_resolve(monitor_views(monitors@), opt_view(primary), strings_view(outputs@))
                    == Ok::<SetupView, ResolveFailure>(s@),
                Err(e) => spec_resolve(monitor_views(monitors@), opt_view(primary), strings_view(outputs@))
                    == Err::<SetupView, ResolveFailure>(e@),
            },
    {
        let ghost ms = monitor_views(monitors@);
        let ghost outs = strings_view(outputs@);
        let n = monitors.len();
        let pi: usize = match primary {
            Some(name) => {
                let owned = String::from_str(name);
                let i = find_named(monitors, &owned);
                if i == n {
                    return Err(ResolveError::NoScreenNamed(owned));
                }
                i
            },
            None => {
                let i = find_internal(monitors);
                if i < n {
                    i
                } else {
                    let j = find_focused(monitors);
                    if j < n {
                        j
                    } else if n > 0 {
                        0
                    } else {
                        return Err(ResolveError::NoScreen);
                    }
                }
            },
        };
        let p = &monitors[pi];
        assert(spec_primary(ms, opt_view(primary)) == Ok::<MonitorView, ResolveFailure>(p@));
        let mut targets: Vec<Monitor> = Vec::new();
        if outputs.len() == 0 {
            let mut i: usize = 0;
            assert(ms.take(0) =~= Seq::<MonitorView>::empty());
            while i < n
                invariant
                    n == monitors@.len(),
                    i <= n,
                    ms == monitor_views(monitors@),
                    monitor_views(targets@) == others(ms.take(i as int), p@.name),
                decreases n - i,
            {
                let m = &monitors[i];
                proof {
                    assert(ms.take(i + 1).drop_last() =~= ms.take(i as int));
                    assert(ms.take(i + 1).last() == m@);
                }
                let ghost before = targets@;
                if !(m.name == p.name) && !m.is_virtual() {
                    targets.push(m.clone());
                    assert(monitor_views(targets@) =~= monitor_views(before).push(m@));
                }
                i = i + 1;
            }
            assert(ms.take(n as int) =~= ms);
        } else {
            let mut k: usize = 0;
            assert(outs.take(0) =~= Seq::<Seq<char>>::empty());
            assert(monitor_views(targets@) =~= Seq::<MonitorView>::empty());
            while k < outputs.len()
                invariant
                    n == monitors@.len(),
                    pi < n,
                    p == &monitors@[pi as int],
                    spec_primary(ms, opt_view(primary)) == Ok::<MonitorView, ResolveFailure>(p@),
                    k <= outputs@.len(),
                    ms == monitor_views(monitors@),
                    outs == strings_view(outputs@),
                    named_targets(ms, p@.name, outs.take(k as int)) == Ok::<
                        Seq<MonitorView>,
                        ResolveFailure,
                    >(monitor_views(targets@)),
                decreases outputs.len() - k,
            {
                let name = &outputs[k];
                proof {
                    assert(outs.take(k + 1).drop_last() =~= outs.take(k as int));
                    assert(outs.take(k + 1).last() == name@);
                }
                let i = find_named(monitors, name);
                if i == n {
                    proof {
                        assert(named_targets(ms, p@.name, outs.take(k + 1)) == Err::<Seq<MonitorView>, ResolveFailure>(ResolveFailure::NoScreenNamed(name@)));
                        lemma_named_targets_err(ms, p@.name, outs, k as int + 1);
                    }
                    return Err(ResolveError::NoScreenNamed(name.clone()));
                }
                if monitors[i].name == p.name {
                    proof {
                        assert(ms[i as int] == monitors@[i as int]@);
                        assert(named_targets(ms, p@.name, outs.take(k + 1)) == Err::<Seq<MonitorView>, ResolveFailure>(ResolveFailure::IsPrimary(name@)));
                        lemma_named_targets_err(ms, p@.name, outs, k as int + 1);
                    }
                    return Err(ResolveError::IsPrimary(name.clone()));
                }
                let ghost before = targets@;
                targets.push(monitors[i].clone());
                assert(monitor_views(targets@) =~= monitor_views(before).push(ms[i as int]));
                k = k + 1;
            }
            assert(outs.take(k as int) =~= outs);
        }
        if targets.len() == 0 {
            return Err(ResolveError::NoExternal);
        }
        Ok(Setup { primary: p.clone(), targets })
    }

    /// The mode the screens are in right now, if it is one of ours.
    pub fn current_mode(&self) -> (r: Option<Mode>)
        ensures
            r == spec_current_mode(self@),
    {
        let ghost t = self@.targets;
        let pid = int_string(self.primary.id);
        let mut all_off = true;
        let mut all_extended = true;
        let mut all_mirror = true;
        let mut i: usize = 0;
        while i < self.targets.len()
            invariant
                i <= self.targets@.len(),
                t == self@.targets,
                pid@ == dec_int(self.primary.id as int),
                all_off == forall|k: int| 0 <= k < i ==> (#[trigger] t[k]).disabled,
                all_extended == forall|k: int| 0 <= k < i ==> spec_is_extended(#[trigger] t[k]),
                all_mirror == forall|k: int|
                    0 <= k < i ==> !(#[trigger] t[k]).disabled && t[k].mirror_of == dec_int(
                        self.primary.id as int,
                    ),
            decreases self.targets.len() - i,
        {
            let m = &self.targets[i];
            assert(t[i as int] == m@);
            all_off = all_off && m.disabled;
            all_extended = all_extended && m.is_extended();
            all_mirror = all_mirror && !m.disabled && m.mirror_of == pid;
            i = i + 1;
        }
        if all_off {
            Some(Mode::InternalOnly)
        } else if self.primary.disabled {
            if all_extended {
                Some(Mode::ExternalOnly)
            } else {
                None
            }
        } else if all_mirror {
            Some(Mode::Mirror)
        } else if all_extended {
            Some(Mode::Extend)
        } else {
            None
        }
    }

    /// The rules that put the screens in `mode`.
    pub fn plan(&self, mode: Mode, side: Option<Side>, layouts: &Layouts) -> (rules: Vec<Rule>)
        ensures
            rule_views(rules@) == spec_plan(self@, mode, side, layouts@),
    {
        let ghost sv = self@;
        let ghost f = |t: MonitorView| target_rule(sv, mode, side, layouts@, t);
        let mut rules: Vec<Rule> = Vec::new();
        if mode != Mode::ExternalOnly && !self.primary.is_extended() {
            rules.push(enable(&self.primary, layouts, None, None));
        }
        let ghost head = rule_views(rules@);
        let position: Option<&str> = match side {
            Some(s) => Some(s.position()),
            None => None,
        };
        assert(opt_view(position) == side_position(side));
        let mut i: usize = 0;
        assert(sv.targets.take(0).map_values(f) =~= Seq::<RuleView>::empty());
        assert(rule_views(rules@) =~= head + sv.targets.take(0).map_values(f));
        while i < self.targets.len()
            invariant
                i <= self.targets@.len(),
                sv == self@,
                f == (|t: MonitorView| target_rule(sv, mode, side, layouts@, t)),
                opt_view(position) == side_position(side),
                rule_views(rules@) == head + sv.targets.take(i as int).map_values(f),
            decreases self.targets.len() - i,
        {
            let t = &self.targets[i];
            let r = match mode {
                Mode::Mirror => enable(t, layouts, None, Some(&self.primary.name)),
                Mode::Extend | Mode::ExternalOnly => enable(t, layouts, position, None),
                Mode::InternalOnly => Rule::Disable { output: t.name.clone() },
            };
            let ghost before = rules@;
            rules.push(r);
            proof {
                assert(sv.targets[i as int] == t@);
                assert(sv.targets.take(i + 1).map_values(f) =~= sv.targets.take(i as int).map_values(
                    f,
                ).push(f(t@)));
                assert(rule_views(rules@) =~= rule_views(before).push(r@));
            }
            i = i + 1;
        }
        assert(sv.targets.take(i as int) =~= sv.targets);
        if mode == Mode::ExternalOnly {
            let ghost before = rules@;
            rules.push(Rule::Disable { output: self.primary.name.clone() });
            assert(rule_views(rules@) =~= rule_views(before).push(
                RuleView::Disable { output: sv.primary.name },
            ));
        }
        assert(rule_views(rules@) =~= spec_plan(sv, mode, side, layouts@));
        rules
    }
}

proof fn lemma_named_targets_err(
    ms: Seq<MonitorView>,
    primary: Seq<char>,
    outs: Seq<Seq<char>>,
    k: int,
)
    requires
        0 < k <= outs.len(),
        named_targets(ms, primary, outs.take(k)) is Err,
    ensures
        named_targets(ms, primary, outs) == named_targets(ms, primary, outs.take(k)),
    decreases outs.len() - k,
{
    if k < outs.len() {
        assert(outs.take(k + 1).drop_last() =~= outs.take(k));
        lemma_named_targets_err(ms, primary, outs, k + 1);
    } else {
        assert(outs.take(k) =~= outs);
    }
}

/// Index of the first screen whose id, in decimal, is `id`.
pub fn find_id(monitors: &[Monitor], id: &String) -> (i: usize)
    ensures
        i == first_where(monitor_views(monitors@), Pick::WithId(id@)),
        i <= monitors@.len(),
{
    let ghost ms = monitor_views(monitors@);
    let mut i: usize = 0;
    while i < monitors.len() && !(int_string(monitors[i].id) == *id)
        invariant
            i <= monitors@.len(),
            ms == monitor_views(monitors@),
            forall|k: int| 0 <= k < i ==> !picks(Pick::WithId(id@), #[trigger] ms[k]),
        decreases monitors.len() - i,
    {
        i = i + 1;
    }
    proof {
        lemma_first_where(ms, Pick::WithId(id@), i as int);
    }
    i
}

} // verus!
