//! Properties that hold across the library's functions.

use crate::applied::{id_of, rule_met, rule_met_by, rule_output, spec_warnings, warning_text};
use crate::hypr::{MonitorView, spec_is_extended, spec_is_mirroring, spec_key};
use crate::plan::{
    abs, six_digits, spec_lua_num, trim_zeros,
    Mode, Pick, RuleView, SetupView, Side, enable_rule, first_where, lemma_first_where, picks, escape_char, escaped, named_targets, others,
    spec_current_mode, spec_lua_str, spec_plan, spec_resolve, spec_script, spec_to_lua,
    target_rule,
};
use crate::setup::{
    begin_marker, begin_prefix, bind_block, bind_line, cased_parts,
    end_marker, ended, key_lines, key_parts, separated, spec_config_with_bind,
    spec_config_without_bind, spec_current_key, spec_normalize, spec_strip_block, strip_lines,
    uppercase,
};
use crate::state::{GeometryView, geometry_of, record_changes, recorded};
use crate::text::{
    join, split, trim, all_digits, lemma_digits_val_grows, pow10,
    dec_int, dec_nat, digit, digit_val, digits_val, idx_of, is_digit, lemma_idx_of, lemma_idx_of_bounds,
    line_text, raw_lines, strip_cr, trim_newlines,
};
use crate::tui::{Action, Key, MenuView, spec_on_key};
use vstd::prelude::*;

verus! {

/// No screen is turned off before every screen that the rules turn on is on:
/// once a rule disables a screen, every later rule disables one too.
pub proof fn law_enables_before_disables(
    s: SetupView,
    mode: Mode,
    side: Option<Side>,
    layouts: Map<Seq<char>, GeometryView>,
    i: int,
    j: int,
)
    requires
        0 <= i < j < spec_plan(s, mode, side, layouts).len(),
        spec_plan(s, mode, side, layouts)[i] is Disable,
    ensures
        spec_plan(s, mode, side, layouts)[j] is Disable,
{
    let rules = spec_plan(s, mode, side, layouts);
    let h: int = if mode != Mode::ExternalOnly && !spec_is_extended(s.primary) {
        1
    } else {
        0
    };
    let n = s.targets.len();
    assert(rules.len() == h + n + if mode == Mode::ExternalOnly {
        1int
    } else {
        0
    });
    if i < h {
        assert(rules[i] == enable_rule(s.primary, layouts, None, None));
    } else if i < h + n {
        assert(rules[i] == target_rule(s, mode, side, layouts, s.targets[i - h]));
        if j < h + n {
            assert(rules[j] == target_rule(s, mode, side, layouts, s.targets[j - h]));
        }
    }
}

/// "External only" turns every target on first, each in target order, and the
/// primary screen off last.
pub proof fn law_external_only_turns_primary_off_last(
    s: SetupView,
    side: Option<Side>,
    layouts: Map<Seq<char>, GeometryView>,
)
    ensures
        ({
            let rules = spec_plan(s, Mode::ExternalOnly, side, layouts);
            &&& rules.len() == s.targets.len() + 1
            &&& rules.last() == RuleView::Disable { output: s.primary.name }
            &&& forall|i: int|
                0 <= i < s.targets.len() ==> (#[trigger] rules[i]) is Enable && rules[i]->Enable_output
                    == s.targets[i].name
        }),
{
    let rules = spec_plan(s, Mode::ExternalOnly, side, layouts);
    assert forall|i: int| 0 <= i < s.targets.len() implies (#[trigger] rules[i]) is Enable
        && rules[i]->Enable_output == s.targets[i].name by {
        assert(rules[i] == target_rule(s, Mode::ExternalOnly, side, layouts, s.targets[i]));
    }
}

/// In mirror mode every target is turned on showing the primary screen, and
/// nothing is turned off.
pub proof fn law_mirror_shows_primary(
    s: SetupView,
    side: Option<Side>,
    layouts: Map<Seq<char>, GeometryView>,
)
    ensures
        ({
            let rules = spec_plan(s, Mode::Mirror, side, layouts);
            let h = rules.len() - s.targets.len();
            &&& 0 <= h <= 1
            &&& forall|i: int| 0 <= i < rules.len() ==> (#[trigger] rules[i]) is Enable
            &&& forall|i: int|
                0 <= i < s.targets.len() ==> (#[trigger] rules[h + i])->Enable_output == s.targets[i].name
                    && rules[h + i]->Enable_mirror == Some(s.primary.name)
        }),
{
    let rules = spec_plan(s, Mode::Mirror, side, layouts);
    let h = rules.len() - s.targets.len();
    assert forall|i: int| 0 <= i < rules.len() implies (#[trigger] rules[i]) is Enable by {
        if i >= h {
            assert(rules[i] == target_rule(s, Mode::Mirror, side, layouts, s.targets[i - h]));
        }
    }
    assert forall|i: int| 0 <= i < s.targets.len() implies (#[trigger] rules[h + i])->Enable_output
        == s.targets[i].name && rules[h + i]->Enable_mirror == Some(s.primary.name) by {
        assert(rules[h + i] == target_rule(s, Mode::Mirror, side, layouts, s.targets[i]));
    }
}

/// After the screens in `seen` are recorded, the last extended one with a
/// given key is what the layouts hold for that key.
pub proof fn lemma_recorded_last(layouts: Map<Seq<char>, GeometryView>, seen: Seq<MonitorView>, k: int)
    requires
        0 <= k < seen.len(),
        spec_is_extended(seen[k]),
        forall|j: int|
            k < j < seen.len() && spec_is_extended(#[trigger] seen[j]) ==> spec_key(seen[j]) != spec_key(
                seen[k],
            ),
    ensures
        recorded(layouts, seen).contains_key(spec_key(seen[k])),
        recorded(layouts, seen)[spec_key(seen[k])] == geometry_of(seen[k]),
    decreases seen.len(),
{
    if k < seen.len() - 1 {
        let init = seen.drop_last();
        assert forall|j: int|
            k < j < init.len() && spec_is_extended(#[trigger] init[j]) implies spec_key(init[j])
            != spec_key(init[k]) by {
            assert(init[j] == seen[j]);
        }
        assert(init[k] == seen[k]);
        lemma_recorded_last(layouts, init, k);
    }
}

/// A screen that is extended again goes back where it was last seen extended:
/// after `seen` is recorded, extending a target that is not extended now
/// turns it on with the geometry its last extended sighting had.
pub proof fn law_extend_restores_recorded_place(
    layouts: Map<Seq<char>, GeometryView>,
    seen: Seq<MonitorView>,
    k: int,
    s: SetupView,
    t: int,
)
    requires
        0 <= k < seen.len(),
        spec_is_extended(seen[k]),
        forall|j: int|
            k < j < seen.len() && spec_is_extended(#[trigger] seen[j]) ==> spec_key(seen[j]) != spec_key(
                seen[k],
            ),
        0 <= t < s.targets.len(),
        spec_key(s.targets[t]) == spec_key(seen[k]),
        !spec_is_extended(s.targets[t]),
    ensures
        ({
            let rules = spec_plan(s, Mode::Extend, None, recorded(layouts, seen));
            rules[rules.len() - s.targets.len() + t] == RuleView::Enable {
                output: s.targets[t].name,
                geometry: geometry_of(seen[k]),
                mirror: None,
            }
        }),
{
    let l = recorded(layouts, seen);
    lemma_recorded_last(layouts, seen, k);
    let rules = spec_plan(s, Mode::Extend, None, l);
    let h = rules.len() - s.targets.len();
    assert(rules[h + t] == target_rule(s, Mode::Extend, None, l, s.targets[t]));
}

/// Every target of a resolved setup is some screen other than the primary.
pub proof fn law_primary_is_never_a_target(
    ms: Seq<MonitorView>,
    primary: Option<Seq<char>>,
    outs: Seq<Seq<char>>,
)
    requires
        spec_resolve(ms, primary, outs) is Ok,
    ensures
        ({
            let s = spec_resolve(ms, primary, outs)->Ok_0;
            &&& s.targets.len() > 0
            &&& forall|i: int|
                0 <= i < s.targets.len() ==> (#[trigger] s.targets[i]).name != s.primary.name
                    && ms.contains(s.targets[i])
        }),
{
    let s = spec_resolve(ms, primary, outs)->Ok_0;
    if outs.len() == 0 {
        lemma_others(ms, s.primary.name);
    } else {
        lemma_named_targets(ms, s.primary.name, outs);
    }
}

proof fn lemma_others(ms: Seq<MonitorView>, p: Seq<char>)
    ensures
        forall|i: int|
            0 <= i < others(ms, p).len() ==> (#[trigger] others(ms, p)[i]).name != p && ms.contains(
                others(ms, p)[i],
            ),
    decreases ms.len(),
{
    if ms.len() > 0 {
        lemma_others(ms.drop_last(), p);
        let before = others(ms.drop_last(), p);
        assert forall|i: int| 0 <= i < others(ms, p).len() implies (#[trigger] others(ms, p)[i]).name
            != p && ms.contains(others(ms, p)[i]) by {
            if i < before.len() {
                assert(others(ms, p)[i] == before[i]);
                let j = choose|j: int| 0 <= j < ms.drop_last().len() && ms.drop_last()[j] == before[i];
                assert(ms[j] == before[i]);
            } else {
                assert(ms[ms.len() - 1] == ms.last());
            }
        }
    }
}

proof fn lemma_named_targets(ms: Seq<MonitorView>, p: Seq<char>, outs: Seq<Seq<char>>)
    requires
        named_targets(ms, p, outs) is Ok,
    ensures
        forall|i: int|
            0 <= i < named_targets(ms, p, outs)->Ok_0.len() ==> (#[trigger] named_targets(
                ms,
                p,
                outs,
            )->Ok_0[i]).name != p && ms.contains(named_targets(ms, p, outs)->Ok_0[i]),
    decreases outs.len(),
{
    if outs.len() > 0 {
        lemma_named_targets(ms, p, outs.drop_last());
        let before = named_targets(ms, p, outs.drop_last())->Ok_0;
        let all = named_targets(ms, p, outs)->Ok_0;
        let name = outs.last();
        let j = crate::plan::first_where(ms, crate::plan::Pick::Named(name));
        assert forall|i: int| 0 <= i < all.len() implies (#[trigger] all[i]).name != p && ms.contains(
            all[i],
        ) by {
            if i < before.len() {
                assert(all[i] == before[i]);
            } else {
                assert(all[i] == ms[j as int]);
            }
        }
    }
}

/// Reading a Lua decimal escape: up to three digits.
pub open spec fn escape_digits(t: Seq<char>) -> nat {
    if t.len() >= 3 && is_digit(t[0]) && is_digit(t[1]) && is_digit(t[2]) {
        3
    } else if t.len() >= 2 && is_digit(t[0]) && is_digit(t[1]) {
        2
    } else {
        1
    }
}

/// What Lua reads from the text after the opening quote of a short string
/// literal, when that text is exactly the rest of the literal and its closing
/// quote: `None` for anything Lua would refuse or that does not end there.
pub open spec fn lua_read(t: Seq<char>) -> Option<Seq<char>>
    decreases t.len(),
{
    if t.len() == 0 {
        None
    } else if t[0] == '"' {
        if t.len() == 1 {
            Some(Seq::<char>::empty())
        } else {
            None
        }
    } else if t[0] == '\n' || t[0] == '\r' {
        None
    } else if t[0] == '\\' {
        if t.len() < 2 {
            None
        } else {
            let e = t[1];
            let rest = t.skip(2);
            if e == '\\' || e == '"' || e == 'n' {
                let c = if e == 'n' {
                    '\n'
                } else {
                    e
                };
                match lua_read(rest) {
                    Some(r) => Some(seq![c] + r),
                    None => None,
                }
            } else if is_digit(e) {
                let n = escape_digits(t.skip(1));
                let v = digits_val(t.subrange(1, 1 + n as int));
                if v < 128 {
                    match lua_read(t.skip(1 + n as int)) {
                        Some(r) => Some(seq![v as char] + r),
                        None => None,
                    }
                } else {
                    None
                }
            } else {
                None
            }
        }
    } else {
        match lua_read(t.drop_first()) {
            Some(r) => Some(seq![t[0]] + r),
            None => None,
        }
    }
}

proof fn lemma_read_control(c: char, tail: Seq<char>)
    requires
        (c as u32) < 32 || (c as u32) == 127,
        c != '\n',
    ensures
        lua_read(escape_char(c) + tail) == (match lua_read(tail) {
            Some(r) => Some(seq![c] + r),
            None => None,
        }),
{
    let u = c as u32;
    let t = escape_char(c) + tail;
    let d = seq![digit((u / 100) as nat), digit(((u / 10) % 10) as nat), digit((u % 10) as nat)];
    assert(escape_char(c) =~= seq!['\\'] + d);
    assert(t.skip(1).take(3) =~= d);
    assert(t.subrange(1, 4) =~= d);
    assert(t.skip(4) =~= tail);
    assert(is_digit(d[0]) && is_digit(d[1]) && is_digit(d[2]));
    assert(escape_digits(t.skip(1)) == 3);
    assert(d.drop_last().drop_last().drop_last() =~= Seq::<char>::empty());
    assert(d.drop_last().drop_last() =~= seq![d[0]]);
    assert(d.drop_last() =~= seq![d[0], d[1]]);
    assert(digits_val(d) == u) by {
        reveal_with_fuel(digits_val, 4);
    }
    assert(((u as nat) as char) == c);
}

proof fn lemma_read_escaped_char(c: char, tail: Seq<char>)
    ensures
        lua_read(escape_char(c) + tail) == (match lua_read(tail) {
            Some(r) => Some(seq![c] + r),
            None => None,
        }),
{
    let t = escape_char(c) + tail;
    let u = c as u32;
    if c == '\\' || c == '"' || c == '\n' {
        assert(t.skip(2) =~= tail);
    } else if u < 32 || u == 127 {
        lemma_read_control(c, tail);
    } else {
        assert(t.drop_first() =~= tail);
    }
}

/// A quoted name reads back as the name: Lua gets exactly the characters that
/// were quoted, whatever they are.
pub proof fn law_lua_str_reads_back(s: Seq<char>)
    ensures
        spec_lua_str(s)[0] == '"',
        lua_read(spec_lua_str(s).drop_first()) == Some(s),
    decreases s.len(),
{
    let q = spec_lua_str(s);
    assert(q.drop_first() =~= escaped(s) + seq!['"']);
    if s.len() == 0 {
        assert(escaped(s) =~= Seq::<char>::empty());
        assert(escaped(s) + seq!['"'] =~= seq!['"']);
    } else {
        let c = s[0];
        let rest = s.drop_first();
        law_lua_str_reads_back(rest);
        assert(spec_lua_str(rest).drop_first() =~= escaped(rest) + seq!['"']);
        let tail = escaped(rest) + seq!['"'];
        assert(escaped(s) + seq!['"'] =~= escape_char(c) + tail);
        lemma_read_escaped_char(c, tail);
        assert(seq![c] + rest =~= s);
    }
}

/// No character of `s` is `c`.
pub open spec fn lacks(s: Seq<char>, c: char) -> bool {
    forall|k: int| 0 <= k < s.len() ==> s[k] != c
}

/// Extended screens that share a key are placed alike.
pub open spec fn consistent(ms: Seq<MonitorView>) -> bool {
    forall|i: int, j: int|
        0 <= i < ms.len() && 0 <= j < ms.len() && spec_is_extended(#[trigger] ms[i])
            && spec_is_extended(#[trigger] ms[j]) && spec_key(ms[i]) == spec_key(ms[j])
            ==> geometry_of(ms[i]) == geometry_of(ms[j])
}

/// The layouts already hold each extended screen of `ms` as it is.
pub open spec fn holds_all(map: Map<Seq<char>, GeometryView>, ms: Seq<MonitorView>) -> bool {
    forall|i: int|
        0 <= i < ms.len() && spec_is_extended(#[trigger] ms[i]) ==> map.contains_key(spec_key(ms[i]))
            && map[spec_key(ms[i])] == geometry_of(ms[i])
}

proof fn lemma_recorded_holds(map: Map<Seq<char>, GeometryView>, ms: Seq<MonitorView>)
    requires
        consistent(ms),
    ensures
        holds_all(recorded(map, ms), ms),
    decreases ms.len(),
{
    if ms.len() > 0 {
        let init = ms.drop_last();
        assert(consistent(init)) by {
            assert forall|i: int, j: int|
                0 <= i < init.len() && 0 <= j < init.len() && spec_is_extended(#[trigger] init[i])
                    && spec_is_extended(#[trigger] init[j]) && spec_key(init[i]) == spec_key(init[j])
                    implies geometry_of(init[i]) == geometry_of(init[j]) by {
                assert(init[i] == ms[i] && init[j] == ms[j]);
            }
        }
        lemma_recorded_holds(map, init);
        let n = ms.len() - 1;
        assert forall|i: int|
            0 <= i < ms.len() && spec_is_extended(#[trigger] ms[i]) implies recorded(map, ms).contains_key(
            spec_key(ms[i]),
        ) && recorded(map, ms)[spec_key(ms[i])] == geometry_of(ms[i]) by {
            if i < n {
                assert(init[i] == ms[i]);
                if spec_is_extended(ms[n]) && spec_key(ms[n]) == spec_key(ms[i]) {
                    assert(geometry_of(ms[i]) == geometry_of(ms[n]));
                }
            }
        }
    }
}

proof fn lemma_recorded_fixed(map: Map<Seq<char>, GeometryView>, ms: Seq<MonitorView>)
    requires
        holds_all(map, ms),
    ensures
        recorded(map, ms) == map,
    decreases ms.len(),
{
    if ms.len() > 0 {
        let init = ms.drop_last();
        assert(holds_all(map, init)) by {
            assert forall|i: int| 0 <= i < init.len() && spec_is_extended(#[trigger] init[i]) implies map.contains_key(
                spec_key(init[i]),
            ) && map[spec_key(init[i])] == geometry_of(init[i]) by {
                assert(init[i] == ms[i]);
            }
        }
        lemma_recorded_fixed(map, init);
        let m = ms.last();
        if spec_is_extended(m) {
            assert(ms[ms.len() - 1] == m);
            assert(map.insert(spec_key(m), geometry_of(m)) =~= map);
        }
    }
}

/// Recording the same screens again changes nothing and reports no change
/// (when extended screens that share a key are placed alike).
pub proof fn law_record_twice_changes_nothing(map: Map<Seq<char>, GeometryView>, ms: Seq<MonitorView>)
    requires
        consistent(ms),
    ensures
        recorded(recorded(map, ms), ms) == recorded(map, ms),
        !record_changes(recorded(map, ms), ms),
{
    let m1 = recorded(map, ms);
    lemma_recorded_holds(map, ms);
    lemma_recorded_fixed(m1, ms);
    assert forall|i: int|
        0 <= i < ms.len() && spec_is_extended(#[trigger] ms[i]) implies (recorded(m1, ms.take(i)).contains_key(
        spec_key(ms[i]),
    ) && recorded(m1, ms.take(i))[spec_key(ms[i])] == geometry_of(ms[i])) by {
        let pre = ms.take(i);
        assert(holds_all(m1, pre)) by {
            assert forall|k: int| 0 <= k < pre.len() && spec_is_extended(#[trigger] pre[k]) implies m1.contains_key(
                spec_key(pre[k]),
            ) && m1[spec_key(pre[k])] == geometry_of(pre[k]) by {
                assert(pre[k] == ms[k]);
            }
        }
        lemma_recorded_fixed(m1, pre);
    }
}

/// Virtual screens (headless, nested) are never default targets: only a
/// named output can pick one.
pub proof fn law_default_targets_are_physical(ms: Seq<MonitorView>, primary: Option<Seq<char>>)
    requires
        spec_resolve(ms, primary, Seq::empty()) is Ok,
    ensures
        forall|i: int|
            0 <= i < spec_resolve(ms, primary, Seq::empty())->Ok_0.targets.len() ==> !crate::hypr::spec_is_virtual(
                #[trigger] spec_resolve(ms, primary, Seq::empty())->Ok_0.targets[i],
            ),
{
    let s = spec_resolve(ms, primary, Seq::empty())->Ok_0;
    lemma_others_physical(ms, s.primary.name);
}

proof fn lemma_others_physical(ms: Seq<MonitorView>, p: Seq<char>)
    ensures
        forall|i: int|
            0 <= i < others(ms, p).len() ==> !crate::hypr::spec_is_virtual(#[trigger] others(ms, p)[i]),
    decreases ms.len(),
{
    if ms.len() > 0 {
        lemma_others_physical(ms.drop_last(), p);
        let before = others(ms.drop_last(), p);
        assert forall|i: int| 0 <= i < others(ms, p).len() implies !crate::hypr::spec_is_virtual(
            #[trigger] others(ms, p)[i],
        ) by {
            if i < before.len() {
                assert(others(ms, p)[i] == before[i]);
            }
        }
    }
}

/// Only modifiers are upper-cased: a normalized key ends with its key name as
/// written (the last part, trimmed), and each modifier before it is the
/// upper case of what was written.
pub proof fn law_key_name_kept_as_written(key: Seq<char>)
    ensures
        spec_normalize(key) matches Some(r) ==> {
            let name = trim(split(key, '+').last());
            &&& name.is_suffix_of(r)
            &&& forall|i: int|
                0 <= i < split(key, '+').len() - 1 ==> #[trigger] cased_parts(key_parts(key))[i]
                    == uppercase(trim(split(key, '+')[i]))
        },
{
    let ps = cased_parts(key_parts(key));
    let n = split(key, '+').len();
    assert(n >= 1);
    if let Some(r) = spec_normalize(key) {
        assert(r == join(ps, " + "@));
        assert(ps.last() == trim(split(key, '+').last()));
        if n == 1 {
            assert(r == ps[0]);
            assert(ps.last().is_suffix_of(r)) by {
                assert(r.subrange(0, r.len() as int) =~= r);
            }
        } else {
            let pre = join(ps.drop_last(), " + "@) + " + "@;
            assert(r == pre + ps.last());
            assert((pre + ps.last()).subrange(pre.len() as int, (pre + ps.last()).len() as int)
                =~= ps.last());
        }
    }
}

/// In the terminal menu, moving the placement right then left gives back the
/// same choices.
pub proof fn law_left_undoes_right(m: MenuView, n: nat)
    requires
        m.side < 5,
    ensures
        spec_on_key(spec_on_key(m, Key::Right, n).0, Key::Left, n).0 == m,
{
}

/// Pressing Tab once per target and once more comes back to "all external screens".
pub proof fn law_tab_cycles_through_targets(m: MenuView, n: nat)
    requires
        m.target <= n,
    ensures
        (spec_on_key(m, Key::NextTarget, n).0).target <= n,
        m.target == n ==> (spec_on_key(m, Key::NextTarget, n).0).target == 0,
        m.target < n ==> (spec_on_key(m, Key::NextTarget, n).0).target == m.target + 1,
{
    let t = m.target;
    assert((t + 1) % (n + 1) <= n) by (nonlinear_arith);
    assert(t == n ==> (t + 1) % (n + 1) == 0) by (nonlinear_arith);
    assert(t < n ==> (t + 1) % (n + 1) == t + 1) by (nonlinear_arith);
}

/// The state each mode's rules ask for: the primary on (off for "external
/// only"), and the targets mirroring it, extended, or off.
pub open spec fn outcome_of(s: SetupView, mode: Mode) -> bool {
    let p = s.primary;
    let t = s.targets;
    match mode {
        Mode::Mirror => spec_is_extended(p) && forall|i: int|
            0 <= i < t.len() ==> !(#[trigger] t[i]).disabled && t[i].mirror_of == dec_int(p.id as int),
        Mode::Extend => spec_is_extended(p) && forall|i: int| 0 <= i < t.len() ==> spec_is_extended(#[trigger] t[i]),
        Mode::ExternalOnly => p.disabled && forall|i: int|
            0 <= i < t.len() ==> spec_is_extended(#[trigger] t[i]),
        Mode::InternalOnly => spec_is_extended(p) && forall|i: int| 0 <= i < t.len() ==> (#[trigger] t[i]).disabled,
    }
}

proof fn lemma_dec_nat_starts_with_digit(n: nat)
    ensures
        dec_nat(n).len() > 0,
        is_digit(dec_nat(n)[0]),
    decreases n,
{
    if n >= 10 {
        lemma_dec_nat_starts_with_digit(n / 10);
        assert(dec_nat(n)[0] == dec_nat(n / 10)[0]);
    }
}

/// Once the screens are in the state a mode asks for, that mode is the one
/// detected: each mode's outcome is recognised as that mode.
pub proof fn law_outcome_is_detected(s: SetupView, mode: Mode)
    requires
        s.targets.len() > 0,
        outcome_of(s, mode),
    ensures
        spec_current_mode(s) == Some(mode),
{
    let t = s.targets;
    let p = s.primary;
    assert(t[0] == t[0]);
    let id = dec_int(p.id as int);
    assert(id.len() > 0 && id != "none"@) by {
        reveal_strlit("none");
        if p.id < 0 {
            lemma_dec_nat_starts_with_digit((-p.id) as nat);
            assert(id[1] == dec_nat((-p.id) as nat)[0]);
        } else {
            lemma_dec_nat_starts_with_digit(p.id as nat);
        }
        assert(id[0] != 'n');
    }
    match mode {
        Mode::Mirror => {
            assert(!t[0].disabled);
            assert(!p.disabled);
        },
        Mode::Extend => {
            assert(spec_is_extended(t[0]));
            assert(!t[0].disabled);
            assert(!(t[0].mirror_of == id));
            assert(!p.disabled);
        },
        Mode::ExternalOnly => {
            assert(spec_is_extended(t[0]));
            assert(!t[0].disabled);
        },
        Mode::InternalOnly => {},
    }
}

/// The value in millionths of a decimal numeral as Lua reads it: an optional
/// `-`, digits, and an optional `.` with one to six fraction digits (`None`
/// for anything else).
pub open spec fn read_millionths(t: Seq<char>) -> Option<int> {
    let neg = t.len() > 0 && t[0] == '-';
    let u = if neg {
        t.drop_first()
    } else {
        t
    };
    let i = idx_of(u, '.');
    let whole = u.take(i as int);
    let frac = if i < u.len() {
        u.skip(i + 1int)
    } else {
        Seq::<char>::empty()
    };
    if whole.len() > 0 && all_digits(whole) && all_digits(frac) && frac.len() <= 6 && (i < u.len()
        ==> frac.len() > 0) {
        let v = (digits_val(whole) * 1000000 + digits_val(frac) * pow10((6 - frac.len()) as nat)) as int;
        Some(
            if neg {
                -v
            } else {
                v
            },
        )
    } else {
        None
    }
}

proof fn lemma_digit_val(d: nat)
    requires
        d < 10,
    ensures
        is_digit(digit(d)),
        digit_val(digit(d)) == d,
{
    assert(((d + 48) as char) as u32 == d + 48);
}

proof fn lemma_dec_nat_digits(n: nat)
    ensures
        dec_nat(n).len() > 0,
        all_digits(dec_nat(n)),
        digits_val(dec_nat(n)) == n,
    decreases n,
{
    if n >= 10 {
        lemma_dec_nat_digits(n / 10);
        let s = dec_nat(n / 10);
        let c = digit(n % 10);
        lemma_digit_val(n % 10);
        lemma_digits_val_grows(s, c);
        assert(dec_nat(n) == s.push(c));
        assert forall|i: int| 0 <= i < s.push(c).len() implies is_digit(#[trigger] s.push(c)[i]) by {
            if i < s.len() {
                assert(s.push(c)[i] == s[i]);
            }
        }
        assert((n / 10) * 10 + n % 10 == n);
    } else {
        lemma_digit_val(n);
        assert(dec_nat(n) == seq![digit(n)]);
        assert(seq![digit(n)].drop_last() =~= Seq::<char>::empty());
        assert(digits_val(seq![digit(n)]) == digits_val(Seq::<char>::empty()) * 10 + digit_val(digit(n)));
    }
}

proof fn lemma_pow10_step(k: nat)
    ensures
        pow10(k + 1) == 10 * pow10(k),
        pow10(k) >= 1,
    decreases k,
{
    if k > 0 {
        lemma_pow10_step((k - 1) as nat);
    }
}

proof fn lemma_trim_zeros(s: Seq<char>)
    requires
        all_digits(s),
    ensures
        trim_zeros(s).len() <= s.len(),
        trim_zeros(s) == s.take(trim_zeros(s).len() as int),
        all_digits(trim_zeros(s)),
        digits_val(trim_zeros(s)) * pow10((s.len() - trim_zeros(s).len()) as nat) == digits_val(s),
        trim_zeros(s).len() == 0 ==> digits_val(s) == 0,
    decreases s.len(),
{
    if s.len() > 0 && s.last() == '0' {
        let d = s.drop_last();
        assert forall|i: int| 0 <= i < d.len() implies is_digit(#[trigger] d[i]) by {
            assert(d[i] == s[i]);
        }
        lemma_trim_zeros(d);
        let t = trim_zeros(d);
        assert(trim_zeros(s) == t);
        assert(d.push('0') =~= s);
        lemma_digits_val_grows(d, '0');
        let k = (d.len() - t.len()) as nat;
        lemma_pow10_step(k);
        assert((s.len() - t.len()) as nat == k + 1);
        let a = digits_val(t);
        let p = pow10(k);
        assert(digit_val('0') == 0);
        assert(digits_val(s) == digits_val(d) * 10);
        assert(a * p == digits_val(d));
        assert(a * (10 * p) == (a * p) * 10) by (nonlinear_arith);
        assert(pow10((s.len() - t.len()) as nat) == 10 * p);
        assert(s.take(t.len() as int) =~= d.take(t.len() as int));
    } else {
        assert(s.take(s.len() as int) =~= s);
        assert(pow10(0) == 1);
        assert(digits_val(s) * 1 == digits_val(s));
    }
}

#[verifier::spinoff_prover]
#[verifier::rlimit(40)]
proof fn lemma_six_digits(f: nat)
    requires
        f < 1000000,
    ensures
        six_digits(f).len() == 6,
        all_digits(six_digits(f)),
        digits_val(six_digits(f)) == f,
{
    let d = six_digits(f);
    assert(is_digit(d[0]) && is_digit(d[1]) && is_digit(d[2]) && is_digit(d[3]) && is_digit(d[4])
        && is_digit(d[5]));
    assert(d.drop_last() =~= seq![d[0], d[1], d[2], d[3], d[4]]);
    assert(d.drop_last().drop_last() =~= seq![d[0], d[1], d[2], d[3]]);
    assert(d.drop_last().drop_last().drop_last() =~= seq![d[0], d[1], d[2]]);
    assert(d.drop_last().drop_last().drop_last().drop_last() =~= seq![d[0], d[1]]);
    assert(d.drop_last().drop_last().drop_last().drop_last().drop_last() =~= seq![d[0]]);
    assert(seq![d[0]].drop_last() =~= Seq::<char>::empty());
    assert(digits_val(d) == ((((f / 100000) * 10 + (f / 10000) % 10) * 10 + (f / 1000) % 10) * 10
        + (f / 100) % 10) * 10 * 10 + ((f / 10) % 10) * 10 + f % 10) by {
        reveal_with_fuel(digits_val, 7);
    }
}

/// A scale written for Lua reads back as the same number of millionths.
#[verifier::spinoff_prover]
pub proof fn law_lua_num_reads_back(x: int)
    ensures
        read_millionths(spec_lua_num(x)) == Some(x),
{
    let a = abs(x);
    let w = a / 1000000;
    let f = a % 1000000;
    lemma_dec_nat_digits(w);
    let dw = dec_nat(w);
    let sign = if x < 0 {
        seq!['-']
    } else {
        Seq::<char>::empty()
    };
    let u = if f == 0 {
        dw
    } else {
        dw + (seq!['.'] + trim_zeros(six_digits(f)))
    };
    let t = spec_lua_num(x);
    assert(t =~= sign + u);
    assert(u.len() > 0 && is_digit(u[0])) by {
        assert(u[0] == dw[0]);
    }
    let neg = t.len() > 0 && t[0] == '-';
    assert(neg == (x < 0)) by {
        if x >= 0 {
            assert(t =~= u);
        }
    }
    let rest = if neg {
        t.drop_first()
    } else {
        t
    };
    assert(rest =~= u);
    assert(w * 1000000 + f == a);
    let v = read_millionths(t);
    if f == 0 {
        lemma_idx_of(u, '.', u.len() as int);
        assert(idx_of(u, '.') == u.len());
        assert(u.take(u.len() as int) =~= dw);
        assert(pow10(6) == 1000000) by {
            reveal_with_fuel(pow10, 7);
        }
        assert(digits_val(Seq::<char>::empty()) == 0);
        assert(all_digits(Seq::<char>::empty()));
        assert(w * 1000000 == a);
        let i = idx_of(rest, '.');
        assert(i == u.len());
        assert(rest.take(i as int) =~= dw);
        assert(digits_val(dw) == w);
        assert(digits_val(Seq::<char>::empty()) == 0);
        assert(digits_val(Seq::<char>::empty()) * pow10(6) == 0);
        assert(digits_val(dw) * 1000000 + digits_val(Seq::<char>::empty()) * pow10(6) == a);
        assert(v == Some(if neg { -(a as int) } else { a as int }));
    } else {
        lemma_six_digits(f);
        lemma_trim_zeros(six_digits(f));
        let tf = trim_zeros(six_digits(f));
        assert(tf.len() > 0);
        assert forall|k: int| 0 <= k < dw.len() implies u[k] != '.' by {
            assert(u[k] == dw[k]);
            assert(is_digit(dw[k]));
        }
        assert(u[dw.len() as int] == '.');
        lemma_idx_of(u, '.', dw.len() as int);
        assert(idx_of(u, '.') == dw.len());
        assert(u.take(dw.len() as int) =~= dw);
        assert(u.skip(dw.len() + 1int) =~= tf);
        assert(digits_val(tf) * pow10((6 - tf.len()) as nat) == f);
        assert(v == Some(if neg { -(a as int) } else { a as int }));
    }
}

/// The text of written lines, one after the other.
pub open spec fn flat(ls: Seq<Seq<char>>) -> Seq<char>
    decreases ls.len(),
{
    if ls.len() == 0 {
        seq![]
    } else {
        ls[0] + flat(ls.drop_first())
    }
}

/// Lines as `raw_lines` cuts them: none empty, a `\n` only at the end of a
/// line, and every line but the last ending in one.
pub open spec fn proper(ls: Seq<Seq<char>>) -> bool {
    forall|i: int|
        0 <= i < ls.len() ==> {
            &&& (#[trigger] ls[i]).len() > 0
            &&& lacks(ls[i].drop_last(), '\n')
            &&& (i < ls.len() - 1 ==> ls[i].last() == '\n')
        }
}

/// The lines that stripping keeps.
pub open spec fn kept(ls: Seq<Seq<char>>, inside: bool) -> Seq<Seq<char>>
    decreases ls.len(),
{
    if ls.len() == 0 {
        seq![]
    } else {
        let l = ls[0];
        let rest = ls.drop_first();
        if begin_prefix().is_prefix_of(l) {
            kept(rest, true)
        } else if inside && end_marker().is_prefix_of(l) {
            kept(rest, false)
        } else if !inside {
            seq![l] + kept(rest, false)
        } else {
            kept(rest, true)
        }
    }
}

/// Whether a managed block is still open after the lines `ls`.
pub open spec fn open_after(ls: Seq<Seq<char>>, inside: bool) -> bool
    decreases ls.len(),
{
    if ls.len() == 0 {
        inside
    } else {
        let l = ls[0];
        let rest = ls.drop_first();
        if begin_prefix().is_prefix_of(l) {
            open_after(rest, true)
        } else if inside && end_marker().is_prefix_of(l) {
            open_after(rest, false)
        } else {
            open_after(rest, inside)
        }
    }
}

/// No line opens a managed block.
pub open spec fn clean(ls: Seq<Seq<char>>) -> bool {
    forall|i: int| 0 <= i < ls.len() ==> !begin_prefix().is_prefix_of(#[trigger] ls[i])
}

/// No line closes a managed block.
pub open spec fn unclosed(ls: Seq<Seq<char>>) -> bool {
    forall|i: int| 0 <= i < ls.len() ==> !end_marker().is_prefix_of(#[trigger] ls[i])
}

proof fn lemma_flat_cons(l: Seq<char>, ls: Seq<Seq<char>>)
    ensures
        flat(seq![l] + ls) == l + flat(ls),
{
    assert((seq![l] + ls)[0] == l);
    assert((seq![l] + ls).drop_first() =~= ls);
}

proof fn lemma_flat_push(ls: Seq<Seq<char>>, x: Seq<char>)
    ensures
        flat(ls.push(x)) == flat(ls) + x,
    decreases ls.len(),
{
    if ls.len() == 0 {
        assert(ls.push(x) =~= seq![x] + Seq::<Seq<char>>::empty());
        lemma_flat_cons(x, Seq::<Seq<char>>::empty());
        assert(flat(Seq::<Seq<char>>::empty()) =~= Seq::<char>::empty());
        assert(x + Seq::<char>::empty() =~= x);
        assert(flat(ls) + x =~= x);
    } else {
        assert(ls.push(x)[0] == ls[0]);
        assert(ls.push(x).drop_first() =~= ls.drop_first().push(x));
        lemma_flat_push(ls.drop_first(), x);
        assert(flat(ls.push(x)) =~= flat(ls) + x);
    }
}

proof fn lemma_proper_rest(ls: Seq<Seq<char>>)
    requires
        proper(ls),
        ls.len() > 0,
    ensures
        proper(ls.drop_first()),
{
    let r = ls.drop_first();
    assert forall|i: int| 0 <= i < r.len() implies {
        &&& (#[trigger] r[i]).len() > 0
        &&& lacks(r[i].drop_last(), '\n')
        &&& (i < r.len() - 1 ==> r[i].last() == '\n')
    } by {
        assert(r[i] == ls[i + 1]);
    }
}

proof fn lemma_raw_lines(s: Seq<char>)
    ensures
        proper(raw_lines(s)),
        flat(raw_lines(s)) == s,
    decreases s.len(),
{
    if s.len() == 0 {
        assert(flat(raw_lines(s)) =~= s);
    } else {
        lemma_idx_of_bounds(s, '\n');
        let i = idx_of(s, '\n');
        if i >= s.len() {
            assert(raw_lines(s) == seq![s]);
            assert(lacks(s.drop_last(), '\n')) by {
                assert forall|k: int| 0 <= k < s.drop_last().len() implies s.drop_last()[k] != '\n' by {
                    assert(s.drop_last()[k] == s[k]);
                }
            }
            lemma_flat_cons(s, Seq::<Seq<char>>::empty());
            assert(seq![s] + Seq::<Seq<char>>::empty() =~= seq![s]);
            assert(s + flat(Seq::<Seq<char>>::empty()) =~= s);
        } else {
            let head = s.take(i + 1int);
            let rest = s.skip(i + 1int);
            lemma_raw_lines(rest);
            let r = raw_lines(rest);
            assert(raw_lines(s) == seq![head] + r);
            assert(head.drop_last() =~= s.take(i as int));
            assert(lacks(head.drop_last(), '\n')) by {
                assert forall|k: int| 0 <= k < head.drop_last().len() implies head.drop_last()[k] != '\n' by {
                    assert(head.drop_last()[k] == s[k]);
                }
            }
            assert(head.last() == s[i as int]);
            let all = seq![head] + r;
            assert forall|j: int| 0 <= j < all.len() implies {
                &&& (#[trigger] all[j]).len() > 0
                &&& lacks(all[j].drop_last(), '\n')
                &&& (j < all.len() - 1 ==> all[j].last() == '\n')
            } by {
                if j > 0 {
                    assert(all[j] == r[j - 1]);
                }
            }
            lemma_flat_cons(head, r);
            assert(head + rest =~= s);
        }
    }
}

proof fn lemma_raw_append(a: Seq<char>, b: Seq<char>)
    requires
        a.len() == 0 || a.last() == '\n',
    ensures
        raw_lines(a + b) == raw_lines(a) + raw_lines(b),
    decreases a.len(),
{
    if a.len() == 0 {
        assert(a + b =~= b);
        assert(raw_lines(a) =~= Seq::<Seq<char>>::empty());
        assert(raw_lines(a) + raw_lines(b) =~= raw_lines(b));
    } else {
        lemma_idx_of_bounds(a, '\n');
        let i = idx_of(a, '\n');
        assert(i < a.len());
        let ab = a + b;
        assert forall|k: int| 0 <= k < i implies ab[k] != '\n' by {
            assert(ab[k] == a[k]);
        }
        assert(ab[i as int] == a[i as int]);
        lemma_idx_of(ab, '\n', i as int);
        assert(ab.take(i + 1int) =~= a.take(i + 1int));
        assert(ab.skip(i + 1int) =~= a.skip(i + 1int) + b);
        let a2 = a.skip(i + 1int);
        assert(a2.len() == 0 || a2.last() == '\n') by {
            if a2.len() > 0 {
                assert(a2.last() == a.last());
            }
        }
        lemma_raw_append(a2, b);
        assert(raw_lines(ab) =~= raw_lines(a) + raw_lines(b));
    }
}

proof fn lemma_raw_one(p: Seq<char>)
    requires
        p.len() > 0,
        lacks(p.drop_last(), '\n'),
    ensures
        raw_lines(p) == seq![p],
{
    let n = p.len() as int;
    assert forall|k: int| 0 <= k < n - 1 implies p[k] != '\n' by {
        assert(p.drop_last()[k] == p[k]);
    }
    if p.last() == '\n' {
        lemma_idx_of(p, '\n', n - 1);
        assert(p.take(n) =~= p);
        assert(p.skip(n) =~= Seq::<char>::empty());
        assert(raw_lines(Seq::<char>::empty()) =~= Seq::<Seq<char>>::empty());
        assert(raw_lines(p) =~= seq![p]);
    } else {
        lemma_idx_of(p, '\n', n);
    }
}

proof fn lemma_raw_flat(ls: Seq<Seq<char>>)
    requires
        proper(ls),
    ensures
        raw_lines(flat(ls)) == ls,
    decreases ls.len(),
{
    if ls.len() == 0 {
        assert(raw_lines(flat(ls)) =~= ls);
    } else {
        let l = ls[0];
        let rest = ls.drop_first();
        lemma_proper_rest(ls);
        lemma_raw_flat(rest);
        lemma_raw_one(l);
        assert(ls =~= seq![l] + rest);
        if rest.len() == 0 {
            assert(flat(rest) =~= Seq::<char>::empty());
            assert(flat(ls) =~= l);
        } else {
            assert(l.last() == '\n');
            lemma_raw_append(l, flat(rest));
        }
    }
}

proof fn lemma_strip_kept(ls: Seq<Seq<char>>, inside: bool)
    ensures
        strip_lines(ls, inside) == flat(kept(ls, inside)),
        clean(kept(ls, inside)),
        proper(ls) ==> proper(kept(ls, inside)),
        ls.len() == 0 ==> kept(ls, inside).len() == 0,
    decreases ls.len(),
{
    if ls.len() > 0 {
        let l = ls[0];
        let rest = ls.drop_first();
        if proper(ls) {
            lemma_proper_rest(ls);
        }
        if begin_prefix().is_prefix_of(l) {
            lemma_strip_kept(rest, true);
        } else if inside && end_marker().is_prefix_of(l) {
            lemma_strip_kept(rest, false);
        } else if !inside {
            lemma_strip_kept(rest, false);
            let k = kept(rest, false);
            let all = seq![l] + k;
            lemma_flat_cons(l, k);
            assert forall|i: int| 0 <= i < all.len() implies !begin_prefix().is_prefix_of(
                #[trigger] all[i],
            ) by {
                if i > 0 {
                    assert(all[i] == k[i - 1]);
                }
            }
            if proper(ls) {
                assert forall|i: int| 0 <= i < all.len() implies {
                    &&& (#[trigger] all[i]).len() > 0
                    &&& lacks(all[i].drop_last(), '\n')
                    &&& (i < all.len() - 1 ==> all[i].last() == '\n')
                } by {
                    if i > 0 {
                        assert(all[i] == k[i - 1]);
                    } else {
                        assert(ls[0] == l);
                        if i < all.len() - 1 {
                            assert(rest.len() > 0);
                        }
                    }
                }
            }
        } else {
            lemma_strip_kept(rest, true);
        }
    }
}

proof fn lemma_clean_rest(ls: Seq<Seq<char>>)
    requires
        clean(ls),
        ls.len() > 0,
    ensures
        clean(ls.drop_first()),
        !begin_prefix().is_prefix_of(ls[0]),
{
    assert forall|i: int| 0 <= i < ls.drop_first().len() implies !begin_prefix().is_prefix_of(
        #[trigger] ls.drop_first()[i],
    ) by {
        assert(ls.drop_first()[i] == ls[i + 1]);
    }
}

proof fn lemma_clean_kept(ls: Seq<Seq<char>>)
    requires
        clean(ls),
    ensures
        kept(ls, false) == ls,
        strip_lines(ls, false) == flat(ls),
        !open_after(ls, false),
    decreases ls.len(),
{
    lemma_strip_kept(ls, false);
    if ls.len() > 0 {
        lemma_clean_rest(ls);
        lemma_clean_kept(ls.drop_first());
        assert(seq![ls[0]] + ls.drop_first() =~= ls);
    } else {
        assert(kept(ls, false) =~= ls);
    }
}

proof fn lemma_strip_concat(ls1: Seq<Seq<char>>, ls2: Seq<Seq<char>>, inside: bool)
    ensures
        strip_lines(ls1 + ls2, inside) == strip_lines(ls1, inside) + strip_lines(
            ls2,
            open_after(ls1, inside),
        ),
        open_after(ls1 + ls2, inside) == open_after(ls2, open_after(ls1, inside)),
    decreases ls1.len(),
{
    if ls1.len() == 0 {
        assert(ls1 + ls2 =~= ls2);
        assert(strip_lines(ls1, inside) =~= Seq::<char>::empty());
        assert(Seq::<char>::empty() + strip_lines(ls2, inside) =~= strip_lines(ls2, inside));
    } else {
        let l = ls1[0];
        assert((ls1 + ls2)[0] == l);
        assert((ls1 + ls2).drop_first() =~= ls1.drop_first() + ls2);
        if begin_prefix().is_prefix_of(l) {
            lemma_strip_concat(ls1.drop_first(), ls2, true);
        } else if inside && end_marker().is_prefix_of(l) {
            lemma_strip_concat(ls1.drop_first(), ls2, false);
        } else if !inside {
            lemma_strip_concat(ls1.drop_first(), ls2, false);
            assert(strip_lines(ls1 + ls2, inside) =~= strip_lines(ls1, inside) + strip_lines(
                ls2,
                open_after(ls1, inside),
            ));
        } else {
            lemma_strip_concat(ls1.drop_first(), ls2, true);
        }
    }
}

proof fn lemma_strip_inside(ls: Seq<Seq<char>>)
    requires
        unclosed(ls),
    ensures
        strip_lines(ls, true) == Seq::<char>::empty(),
        open_after(ls, true),
    decreases ls.len(),
{
    if ls.len() > 0 {
        assert(unclosed(ls.drop_first())) by {
            assert forall|i: int| 0 <= i < ls.drop_first().len() implies !end_marker().is_prefix_of(
                #[trigger] ls.drop_first()[i],
            ) by {
                assert(ls.drop_first()[i] == ls[i + 1]);
            }
        }
        assert(!end_marker().is_prefix_of(ls[0]));
        lemma_strip_inside(ls.drop_first());
    }
}

proof fn lemma_marker_facts()
    ensures
        begin_prefix().is_prefix_of(begin_marker()),
        lacks(begin_marker(), '\n'),
        lacks(begin_prefix(), '\n'),
        begin_prefix().len() > 0,
        begin_prefix()[0] == '-',
        lacks(end_marker(), '\n'),
        end_marker().len() > 0,
        end_marker()[0] == '-',
        end_marker().is_prefix_of(end_marker()),
        !begin_prefix().is_prefix_of(end_marker()),
        "hl.bind(\""@.len() == 9,
{
    reveal_strlit("-- >>> switchout (managed by `switchout setup`, remove with `switchout setup --remove`)");
    reveal_strlit("-- >>> switchout");
    reveal_strlit("-- <<< switchout");
    reveal_strlit("hl.bind(\"");
    assert(begin_marker().subrange(0, begin_prefix().len() as int) =~= begin_prefix());
    assert(end_marker().subrange(0, end_marker().len() as int) =~= end_marker());
    assert(end_marker()[4] != begin_prefix()[4]);
}

/// A prefix without `\n` that does not start `p` does not start `p` with a
/// `\n` appended either.
proof fn lemma_prefix_push(pre: Seq<char>, p: Seq<char>)
    requires
        !pre.is_prefix_of(p),
        lacks(pre, '\n'),
    ensures
        !pre.is_prefix_of(p.push('\n')),
{
    let q = p.push('\n');
    let b = pre;
    if b.is_prefix_of(q) {
        if p.len() >= b.len() {
            assert forall|k: int| 0 <= k < b.len() implies p[k] == b[k] by {
                assert(q[k] == p[k]);
                assert(q.subrange(0, b.len() as int)[k] == q[k]);
            }
            assert(p.subrange(0, b.len() as int) =~= b);
        } else {
            let n = p.len() as int;
            assert(q[n] == '\n');
            assert(q.subrange(0, b.len() as int)[n] == q[n]);
            assert(b[n] != '\n');
        }
    }
}

/// A line ending in `\n` after `p` opens no block when `p` opens none.
proof fn lemma_no_begin_push(p: Seq<char>)
    requires
        !begin_prefix().is_prefix_of(p),
    ensures
        !begin_prefix().is_prefix_of(p.push('\n')),
{
    lemma_marker_facts();
    lemma_prefix_push(begin_prefix(), p);
}

/// A line starting with `c` opens no block unless `c` is `-`.
proof fn lemma_no_begin_first(l: Seq<char>)
    requires
        l.len() > 0,
        l[0] != '-',
    ensures
        !begin_prefix().is_prefix_of(l),
        !end_marker().is_prefix_of(l),
{
    lemma_marker_facts();
    if begin_prefix().is_prefix_of(l) {
        assert(l.subrange(0, begin_prefix().len() as int)[0] == l[0]);
    }
    if end_marker().is_prefix_of(l) {
        assert(l.subrange(0, end_marker().len() as int)[0] == l[0]);
    }
}

/// The stripped config with its last line ended, as lines that all end in
/// `\n` and open no block.
proof fn lemma_ended_lines(config: Seq<char>) -> (k1: Seq<Seq<char>>)
    ensures
        proper(k1),
        clean(k1),
        forall|i: int| 0 <= i < k1.len() ==> (#[trigger] k1[i]).last() == '\n',
        flat(k1) == ended(spec_strip_block(config)),
{
    let ls = raw_lines(config);
    lemma_raw_lines(config);
    lemma_strip_kept(ls, false);
    let k = kept(ls, false);
    let s = spec_strip_block(config);
    assert(flat(k) == s);
    let k1 = if s.len() > 0 && s.last() != '\n' {
        let p = k.last();
        assert(k.len() > 0) by {
            if k.len() == 0 {
                assert(flat(k) =~= Seq::<char>::empty());
            }
        }
        assert(k =~= k.drop_last().push(p));
        lemma_flat_push(k.drop_last(), p);
        assert(p.len() > 0);
        assert(s.last() == p.last());
        lemma_flat_push(k.drop_last(), p.push('\n'));
        assert(flat(k.drop_last()) + p.push('\n') =~= s.push('\n'));
        let k1 = k.drop_last().push(p.push('\n'));
        assert(!begin_prefix().is_prefix_of(k[k.len() - 1]));
        lemma_no_begin_push(p);
        assert(lacks(p, '\n')) by {
            assert forall|j: int| 0 <= j < p.len() implies p[j] != '\n' by {
                if j < p.len() - 1 {
                    assert(p.drop_last()[j] == p[j]);
                }
            }
        }
        assert forall|i: int| 0 <= i < k1.len() implies {
            &&& (#[trigger] k1[i]).len() > 0
            &&& lacks(k1[i].drop_last(), '\n')
            &&& (i < k1.len() - 1 ==> k1[i].last() == '\n')
            &&& k1[i].last() == '\n'
            &&& !begin_prefix().is_prefix_of(k1[i])
        } by {
            if i < k1.len() - 1 {
                assert(k1[i] == k[i]);
            } else {
                assert(k1[i] == p.push('\n'));
                assert(p.push('\n').drop_last() =~= p);
            }
        }
        k1
    } else {
        assert forall|i: int| 0 <= i < k.len() implies (#[trigger] k[i]).last() == '\n' by {
            if i == k.len() - 1 {
                assert(k =~= k.drop_last().push(k[i]));
                lemma_flat_push(k.drop_last(), k[i]);
                assert(s.last() == k[i].last());
            }
        }
        k
    };
    assert(flat(k1) == ended(s));
    k1
}

/// Lines that all end in `\n` and open no block, with a blank line added.
proof fn lemma_add_blank(k1: Seq<Seq<char>>) -> (us: Seq<Seq<char>>)
    requires
        proper(k1),
        clean(k1),
        forall|i: int| 0 <= i < k1.len() ==> (#[trigger] k1[i]).last() == '\n',
    ensures
        proper(us),
        clean(us),
        forall|i: int| 0 <= i < us.len() ==> (#[trigger] us[i]).last() == '\n',
        flat(us) == flat(k1).push('\n'),
        us.len() > 0,
{
    let t = flat(k1);
    let nl = seq!['\n'];
    let us = k1.push(nl);
    lemma_flat_push(k1, nl);
    assert(t + nl =~= t.push('\n'));
    lemma_no_begin_first(nl);
    assert forall|i: int| 0 <= i < us.len() implies {
        &&& (#[trigger] us[i]).len() > 0
        &&& lacks(us[i].drop_last(), '\n')
        &&& (i < us.len() - 1 ==> us[i].last() == '\n')
        &&& us[i].last() == '\n'
        &&& !begin_prefix().is_prefix_of(us[i])
    } by {
        if i < us.len() - 1 {
            assert(us[i] == k1[i]);
        } else {
            assert(us[i] == nl);
            assert(nl.drop_last() =~= Seq::<char>::empty());
        }
    }
    us
}

/// The lines before an installed block: the stripped config with its last
/// line ended and a blank line after it, as lines that all end in `\n` and
/// open no block.
proof fn lemma_before_block(config: Seq<char>) -> (us: Seq<Seq<char>>)
    ensures
        proper(us),
        clean(us),
        forall|i: int| 0 <= i < us.len() ==> (#[trigger] us[i]).last() == '\n',
        flat(us) == separated(ended(spec_strip_block(config))),
        us.len() > 0,
{
    let k1 = lemma_ended_lines(config);
    let t = ended(spec_strip_block(config));
    if "\n\n"@.is_suffix_of(t) {
        reveal_strlit("\n\n");
        assert(k1.len() > 0) by {
            if k1.len() == 0 {
                assert(flat(k1) =~= Seq::<char>::empty());
            }
        }
        k1
    } else {
        lemma_add_blank(k1)
    }
}

/// Lines outside a managed block are never touched: a config in which no line
/// opens a block strips to itself, byte for byte.
pub proof fn law_strip_leaves_other_lines(config: Seq<char>)
    requires
        clean(raw_lines(config)),
    ensures
        spec_strip_block(config) == config,
{
    lemma_raw_lines(config);
    lemma_clean_kept(raw_lines(config));
}

/// Only the managed block goes: the lines before and after it stay, unchanged
/// and in order (for lines before it that open no block and end in `\n`, a
/// block whose inner lines do not close it, and lines after it that open none).
pub proof fn law_strip_removes_only_the_block(c: Seq<char>, b: Seq<char>, d: Seq<char>)
    requires
        c.len() == 0 || c.last() == '\n',
        clean(raw_lines(c)),
        unclosed(raw_lines(b.push('\n'))),
        clean(raw_lines(d)),
    ensures
        spec_strip_block(
            c + begin_marker().push('\n') + b.push('\n') + end_marker().push('\n') + d,
        ) == c + d,
{
    lemma_marker_facts();
    let bm = begin_marker().push('\n');
    let bb = b.push('\n');
    let em = end_marker().push('\n');
    let x = c + (bm + (bb + (em + d)));
    assert(x =~= c + bm + bb + em + d);
    assert(bm.drop_last() =~= begin_marker());
    assert(em.drop_last() =~= end_marker());
    lemma_raw_one(bm);
    lemma_raw_one(em);
    lemma_raw_append(em, d);
    lemma_raw_append(bb, em + d);
    lemma_raw_append(bm, bb + (em + d));
    lemma_raw_append(c, bm + (bb + (em + d)));
    let lc = raw_lines(c);
    let lb = raw_lines(bb);
    let ld = raw_lines(d);
    let all = lc + (seq![bm] + (lb + (seq![em] + ld)));
    assert(raw_lines(x) == all);
    lemma_raw_lines(c);
    lemma_raw_lines(d);
    lemma_clean_kept(lc);
    lemma_clean_kept(ld);
    lemma_strip_concat(lc, seq![bm] + (lb + (seq![em] + ld)), false);
    assert(begin_prefix().is_prefix_of(bm)) by {
        assert(bm.subrange(0, begin_prefix().len() as int) =~= begin_marker().subrange(
            0,
            begin_prefix().len() as int,
        ));
    }
    lemma_strip_concat(seq![bm], lb + (seq![em] + ld), false);
    assert(seq![bm].drop_first() =~= Seq::<Seq<char>>::empty());
    assert(seq![bm][0] == bm);
    assert(strip_lines(Seq::<Seq<char>>::empty(), true) =~= Seq::<char>::empty());
    assert(strip_lines(seq![bm], false) == strip_lines(Seq::<Seq<char>>::empty(), true));
    assert(open_after(seq![bm], false) == open_after(Seq::<Seq<char>>::empty(), true));
    lemma_strip_inside(lb);
    lemma_strip_concat(lb, seq![em] + ld, true);
    assert(end_marker().is_prefix_of(em)) by {
        assert(em.subrange(0, end_marker().len() as int) =~= end_marker());
    }
    lemma_prefix_push(begin_prefix(), end_marker());
    lemma_strip_concat(seq![em], ld, true);
    assert(seq![em].drop_first() =~= Seq::<Seq<char>>::empty());
    assert(seq![em][0] == em);
    assert(strip_lines(Seq::<Seq<char>>::empty(), false) =~= Seq::<char>::empty());
    assert(strip_lines(seq![em], true) == strip_lines(Seq::<Seq<char>>::empty(), false));
    assert(open_after(seq![em], true) == open_after(Seq::<Seq<char>>::empty(), false));
    assert(spec_strip_block(x) =~= c + d);
}

/// Stripping twice is stripping once.
pub proof fn law_strip_block_idempotent(config: Seq<char>)
    ensures
        spec_strip_block(spec_strip_block(config)) == spec_strip_block(config),
{
    let ls = raw_lines(config);
    lemma_raw_lines(config);
    lemma_strip_kept(ls, false);
    let k = kept(ls, false);
    lemma_raw_flat(k);
    lemma_clean_kept(k);
}

proof fn lemma_strip_shorter(ls: Seq<Seq<char>>, inside: bool)
    ensures
        strip_lines(ls, inside).len() <= flat(ls).len(),
        !clean(ls) ==> strip_lines(ls, inside).len() < flat(ls).len(),
    decreases ls.len(),
{
    if ls.len() > 0 {
        let l = ls[0];
        let rest = ls.drop_first();
        lemma_flat_cons(l, rest);
        assert(ls =~= seq![l] + rest);
        lemma_marker_facts();
        if !clean(ls) && clean(rest) {
            assert(begin_prefix().is_prefix_of(l)) by {
                let i = choose|i: int| 0 <= i < ls.len() && begin_prefix().is_prefix_of(#[trigger] ls[i]);
                if i > 0 {
                    assert(ls[i] == rest[i - 1]);
                }
            }
        }
        if !clean(rest) {
            assert(!clean(ls)) by {
                let i = choose|i: int| 0 <= i < rest.len() && begin_prefix().is_prefix_of(#[trigger] rest[i]);
                assert(ls[i + 1] == rest[i]);
            }
        }
        if begin_prefix().is_prefix_of(l) {
            lemma_strip_shorter(rest, true);
            assert(l.len() >= begin_prefix().len());
        } else if inside && end_marker().is_prefix_of(l) {
            lemma_strip_shorter(rest, false);
        } else if !inside {
            lemma_strip_shorter(rest, false);
        } else {
            lemma_strip_shorter(rest, true);
        }
    }
}

/// A removal writes something exactly when a line opens a managed block:
/// a config in which none does is left alone.
pub proof fn law_remove_needs_a_block(config: Seq<char>)
    ensures
        spec_config_without_bind(config) is None <==> clean(raw_lines(config)),
{
    lemma_raw_lines(config);
    lemma_strip_shorter(raw_lines(config), false);
    if clean(raw_lines(config)) {
        law_strip_leaves_other_lines(config);
    }
}

/// What an install writes, and what stripping it gives back.
proof fn lemma_installed(config: Seq<char>, key: Seq<char>, exe: Seq<char>)
    requires
        unclosed(raw_lines(bind_line(key, exe).push('\n'))),
    ensures
        spec_strip_block(spec_config_with_bind(config, key, exe)) == separated(
            ended(spec_strip_block(config)),
        ),
        separated(ended(spec_strip_block(config))).last() == '\n',
        spec_config_with_bind(config, key, exe).len() > separated(ended(spec_strip_block(config))).len(),
{
    let us = lemma_before_block(config);
    let u = flat(us);
    lemma_raw_flat(us);
    assert(u.last() == '\n') by {
        assert(us =~= us.drop_last().push(us.last()));
        lemma_flat_push(us.drop_last(), us.last());
        assert(us[us.len() - 1].last() == '\n');
    }
    lemma_marker_facts();
    let e = Seq::<char>::empty();
    assert(raw_lines(e) =~= Seq::<Seq<char>>::empty());
    law_strip_removes_only_the_block(u, bind_line(key, exe), e);
    assert(spec_config_with_bind(config, key, exe) =~= u + begin_marker().push('\n') + bind_line(
        key,
        exe,
    ).push('\n') + end_marker().push('\n') + e);
    assert(u + e =~= u);
}

/// Removing the keybind after installing it gives back the config without its
/// block, ending in a single newline; for a config that has no block and ends
/// in exactly one newline, that is the config itself (for a key and program
/// path whose bind line does not itself hold a line closing the block).
pub proof fn law_remove_undoes_install(config: Seq<char>, key: Seq<char>, exe: Seq<char>)
    requires
        unclosed(raw_lines(bind_line(key, exe).push('\n'))),
    ensures
        spec_config_without_bind(spec_config_with_bind(config, key, exe)) == Some(
            trim_newlines(spec_strip_block(config)).push('\n'),
        ),
        clean(raw_lines(config)) && config.len() > 0 && config.last() == '\n' && !"\n\n"@.is_suffix_of(
            config,
        ) ==> spec_config_without_bind(spec_config_with_bind(config, key, exe)) == Some(config),
{
    lemma_installed(config, key, exe);
    let s = spec_strip_block(config);
    let t = ended(s);
    let u = separated(t);
    let new = spec_config_with_bind(config, key, exe);
    assert(spec_strip_block(new) != new);
    assert(trim_newlines(t) == trim_newlines(s)) by {
        if s.len() > 0 && s.last() != '\n' {
            assert(t == s.push('\n'));
            assert(t.drop_last() =~= s);
            assert(trim_newlines(t) == trim_newlines(t.drop_last()));
        }
    }
    assert(trim_newlines(u) == trim_newlines(t)) by {
        if !"\n\n"@.is_suffix_of(t) {
            assert(u == t.push('\n'));
            assert(u.drop_last() =~= t);
            assert(trim_newlines(u) == trim_newlines(u.drop_last()));
        }
    }
    if clean(raw_lines(config)) && config.len() > 0 && config.last() == '\n' && !"\n\n"@.is_suffix_of(
        config,
    ) {
        law_strip_leaves_other_lines(config);
        let x = config.drop_last();
        reveal_strlit("\n\n");
        assert(x.len() == 0 || x.last() != '\n') by {
            if x.len() > 0 && x.last() == '\n' {
                assert(config.subrange(config.len() - 2, config.len() as int) =~= "\n\n"@);
            }
        }
        assert(trim_newlines(x) == x);
        assert(config =~= x.push('\n'));
    }
}

/// The key of a block written after any text in which no line opens a block
/// (empty or ending in `\n`) is what reading the config gives back (for a key
/// without `"` or line breaks, which would end it early).
pub proof fn law_key_reads_back_after_clean_text(u: Seq<char>, key: Seq<char>, exe: Seq<char>)
    requires
        clean(raw_lines(u)),
        u.len() == 0 || u.last() == '\n',
        lacks(key, '"'),
        lacks(key, '\n'),
    ensures
        spec_current_key(u + bind_block(key, exe)) == Some(key),
{
    let blk = bind_block(key, exe);
    lemma_raw_append(u, blk);
    lemma_key_lines_skip(raw_lines(u), raw_lines(blk));
    lemma_block_key(key, exe);
}

/// After an install, the block's key is what reading the config gives back
/// (for a key without `"` or line breaks, which would end it early).
pub proof fn law_installed_key_reads_back(config: Seq<char>, key: Seq<char>, exe: Seq<char>)
    requires
        lacks(key, '"'),
        lacks(key, '\n'),
    ensures
        spec_current_key(spec_config_with_bind(config, key, exe)) == Some(key),
{
    let us = lemma_before_block(config);
    let u = flat(us);
    lemma_raw_flat(us);
    assert(u.last() == '\n') by {
        assert(us =~= us.drop_last().push(us.last()));
        lemma_flat_push(us.drop_last(), us.last());
        assert(us[us.len() - 1].last() == '\n');
    }
    law_key_reads_back_after_clean_text(u, key, exe);
}

/// A block written after the stripped config and one more line break reads
/// back its key, whatever the old config held.
pub proof fn law_key_reads_back_after_stripped(config: Seq<char>, key: Seq<char>, exe: Seq<char>)
    requires
        lacks(key, '"'),
        lacks(key, '\n'),
    ensures
        spec_current_key(spec_strip_block(config).push('\n') + bind_block(key, exe)) == Some(key),
{
    let s = spec_strip_block(config);
    let k1 = lemma_ended_lines(config);
    let ks = if s.len() > 0 && s.last() != '\n' {
        k1
    } else {
        assert(ended(s) == s);
        lemma_add_blank(k1)
    };
    assert(flat(ks) == s.push('\n'));
    lemma_raw_flat(ks);
    law_key_reads_back_after_clean_text(s.push('\n'), key, exe);
}

proof fn lemma_key_lines_skip(ls1: Seq<Seq<char>>, ls2: Seq<Seq<char>>)
    requires
        clean(ls1),
    ensures
        key_lines(ls1 + ls2, false) == key_lines(ls2, false),
    decreases ls1.len(),
{
    if ls1.len() == 0 {
        assert(ls1 + ls2 =~= ls2);
    } else {
        assert((ls1 + ls2)[0] == ls1[0]);
        assert((ls1 + ls2).drop_first() =~= ls1.drop_first() + ls2);
        lemma_clean_rest(ls1);
        lemma_key_lines_skip(ls1.drop_first(), ls2);
    }
}

proof fn lemma_block_key(key: Seq<char>, exe: Seq<char>)
    requires
        lacks(key, '"'),
        lacks(key, '\n'),
    ensures
        key_lines(raw_lines(bind_block(key, exe)), false) == Some(key),
{
    lemma_marker_facts();
    let rest = bind_line(key, exe) + seq!['\n'] + end_marker() + seq!['\n'];
    let bm = begin_marker().push('\n');
    let b = bm + rest;
    assert(bind_block(key, exe) =~= b);
    assert(bm.drop_last() =~= begin_marker());
    lemma_raw_one(bm);
    lemma_raw_append(bm, rest);
    assert(raw_lines(b) =~= seq![bm] + raw_lines(rest));
    assert((seq![bm] + raw_lines(rest)).drop_first() =~= raw_lines(rest));
    assert(begin_prefix().is_prefix_of(bm)) by {
        assert(bm.subrange(0, begin_prefix().len() as int) =~= begin_marker().subrange(
            0,
            begin_prefix().len() as int,
        ));
    }
    reveal_strlit("hl.bind(\"");
    reveal_strlit("\", hl.dsp.exec_cmd(\"");
    let n: int = key.len() as int;
    assert(rest[9 + n] == '"');
    assert(rest[10 + n] == ',');
    assert forall|k: int| 0 <= k < 11 + n implies rest[k] != '\n' by {
        if 9 <= k < 9 + n {
            assert(rest[k] == key[k - 9]);
        }
    }
    lemma_idx_of_bounds(rest, '\n');
    let j = idx_of(rest, '\n');
    assert(j >= 11 + n) by {
        if j < 11 + n {
            assert(j < rest.len());
        }
    }
    assert(j < rest.len()) by {
        assert(rest[bind_line(key, exe).len() as int] == '\n');
    }
    let piece = rest.take(j + 1int);
    assert(raw_lines(rest)[0] == piece);
    assert(piece.last() == '\n');
    assert(piece.drop_last() =~= rest.take(j as int));
    let l = line_text(piece);
    assert(l == strip_cr(rest.take(j as int)));
    assert(l.len() >= 10 + n);
    assert("hl.bind(\""@.is_prefix_of(piece)) by {
        assert(piece.subrange(0, 9) =~= "hl.bind(\""@);
    }
    let r = l.skip(9);
    assert forall|k: int| 0 <= k < n implies r[k] != '"' by {
        assert(r[k] == key[k]);
    }
    assert(r[n] == '"');
    lemma_idx_of(r, '"', n);
    assert(r.take(n) =~= key);
    assert(piece[0] == 'h');
    lemma_no_begin_first(piece);
    assert(raw_lines(rest).len() > 0);
    assert(key_lines(raw_lines(rest), true) == Some(key));
}

/// Installing the same key a second time changes nothing (when the config has
/// some text outside the block, and the bind line does not itself hold a line
/// closing the block).
pub proof fn law_install_twice_changes_nothing(config: Seq<char>, key: Seq<char>, exe: Seq<char>)
    requires
        unclosed(raw_lines(bind_line(key, exe).push('\n'))),
        spec_strip_block(config).len() > 0,
    ensures
        spec_config_with_bind(spec_config_with_bind(config, key, exe), key, exe)
            == spec_config_with_bind(config, key, exe),
{
    lemma_installed(config, key, exe);
    let s = spec_strip_block(config);
    let t = ended(s);
    let u = separated(t);
    assert(t.len() > 0 && t.last() == '\n');
    assert(ended(u) == u);
    reveal_strlit("\n\n");
    assert("\n\n"@.is_suffix_of(u)) by {
        if !"\n\n"@.is_suffix_of(t) {
            assert(u == t.push('\n'));
            assert(u.subrange(u.len() - 2, u.len() as int) =~= "\n\n"@);
        }
    }
    assert(separated(u) == u);
}

proof fn lemma_lacks_add(a: Seq<char>, b: Seq<char>, c: char)
    requires
        lacks(a, c),
        lacks(b, c),
    ensures
        lacks(a + b, c),
{
    assert forall|k: int| 0 <= k < (a + b).len() implies (a + b)[k] != c by {
        if k < a.len() {
            assert((a + b)[k] == a[k]);
        } else {
            assert((a + b)[k] == b[k - a.len()]);
        }
    }
}

proof fn lemma_digits_lack_newline(s: Seq<char>)
    requires
        all_digits(s),
    ensures
        lacks(s, '\n'),
{
    assert forall|k: int| 0 <= k < s.len() implies s[k] != '\n' by {
        assert(is_digit(s[k]));
    }
}

proof fn lemma_escaped_lacks_newline(s: Seq<char>)
    ensures
        lacks(escaped(s), '\n'),
    decreases s.len(),
{
    if s.len() > 0 {
        lemma_escaped_lacks_newline(s.drop_first());
        let c = s[0];
        let u = c as u32;
        let e = escape_char(c);
        assert(lacks(e, '\n')) by {
            if c != '\\' && c != '"' && c != '\n' && (u < 32 || u == 127) {
                lemma_digit_val((u / 100) as nat);
                lemma_digit_val(((u / 10) % 10) as nat);
                lemma_digit_val((u % 10) as nat);
            }
        }
        lemma_lacks_add(e, escaped(s.drop_first()), '\n');
    }
}

proof fn lemma_lua_str_lacks_newline(s: Seq<char>)
    ensures
        lacks(spec_lua_str(s), '\n'),
{
    lemma_escaped_lacks_newline(s);
    lemma_lacks_add(seq!['"'], escaped(s), '\n');
    lemma_lacks_add(seq!['"'] + escaped(s), seq!['"'], '\n');
}

proof fn lemma_lua_num_lacks_newline(x: int)
    ensures
        lacks(spec_lua_num(x), '\n'),
{
    let a = abs(x);
    let w = a / 1000000;
    let f = a % 1000000;
    lemma_dec_nat_digits(w);
    lemma_digits_lack_newline(dec_nat(w));
    let sign = if x < 0 {
        seq!['-']
    } else {
        Seq::<char>::empty()
    };
    let fr = if f == 0 {
        Seq::<char>::empty()
    } else {
        seq!['.'] + trim_zeros(six_digits(f))
    };
    if f != 0 {
        lemma_six_digits(f);
        lemma_trim_zeros(six_digits(f));
        lemma_digits_lack_newline(trim_zeros(six_digits(f)));
        lemma_lacks_add(seq!['.'], trim_zeros(six_digits(f)), '\n');
    }
    lemma_lacks_add(sign, dec_nat(w), '\n');
    lemma_lacks_add(sign + dec_nat(w), fr, '\n');
    assert(spec_lua_num(x) =~= sign + dec_nat(w) + fr);
}

/// No rule's Lua text holds a line break: quoted names are escaped.
pub proof fn lemma_to_lua_lacks_newline(r: RuleView)
    ensures
        lacks(spec_to_lua(r), '\n'),
{
    reveal_strlit("hl.monitor({ output = ");
    reveal_strlit(", disabled = true })");
    reveal_strlit(", disabled = false, mode = ");
    reveal_strlit(", position = ");
    reveal_strlit(", scale = ");
    reveal_strlit(", transform = ");
    reveal_strlit(", mirror = ");
    reveal_strlit(" })");
    let p0 = "hl.monitor({ output = "@;
    assert(lacks(p0, '\n'));
    match r {
        RuleView::Disable { output } => {
            lemma_lua_str_lacks_newline(output);
            let p1 = ", disabled = true })"@;
            assert(lacks(p1, '\n'));
            lemma_lacks_add(p0, spec_lua_str(output), '\n');
            lemma_lacks_add(p0 + spec_lua_str(output), p1, '\n');
        },
        RuleView::Enable { output, geometry, mirror } => {
            let m = match mirror {
                Some(m) => m,
                None => Seq::<char>::empty(),
            };
            let q1 = ", disabled = false, mode = "@;
            let q2 = ", position = "@;
            let q3 = ", scale = "@;
            let q4 = ", transform = "@;
            let q5 = ", mirror = "@;
            let q6 = " })"@;
            assert(lacks(q1, '\n') && lacks(q2, '\n') && lacks(q3, '\n') && lacks(q4, '\n') && lacks(
                q5,
                '\n',
            ) && lacks(q6, '\n'));
            lemma_lua_str_lacks_newline(output);
            lemma_lua_str_lacks_newline(geometry.mode);
            lemma_lua_str_lacks_newline(geometry.position);
            lemma_lua_str_lacks_newline(m);
            lemma_lua_num_lacks_newline(geometry.scale_micro as int);
            lemma_dec_nat_digits(geometry.transform as nat);
            lemma_digits_lack_newline(dec_nat(geometry.transform as nat));
            let t0 = p0 + spec_lua_str(output);
            lemma_lacks_add(p0, spec_lua_str(output), '\n');
            let t1 = t0 + q1;
            lemma_lacks_add(t0, q1, '\n');
            let t2 = t1 + spec_lua_str(geometry.mode);
            lemma_lacks_add(t1, spec_lua_str(geometry.mode), '\n');
            let t3 = t2 + q2;
            lemma_lacks_add(t2, q2, '\n');
            let t4 = t3 + spec_lua_str(geometry.position);
            lemma_lacks_add(t3, spec_lua_str(geometry.position), '\n');
            let t5 = t4 + q3;
            lemma_lacks_add(t4, q3, '\n');
            let t6 = t5 + spec_lua_num(geometry.scale_micro as int);
            lemma_lacks_add(t5, spec_lua_num(geometry.scale_micro as int), '\n');
            let t7 = t6 + q4;
            lemma_lacks_add(t6, q4, '\n');
            let t8 = t7 + dec_nat(geometry.transform as nat);
            lemma_lacks_add(t7, dec_nat(geometry.transform as nat), '\n');
            let t9 = t8 + q5;
            lemma_lacks_add(t8, q5, '\n');
            let t10 = t9 + spec_lua_str(m);
            lemma_lacks_add(t9, spec_lua_str(m), '\n');
            lemma_lacks_add(t10, q6, '\n');
            assert(spec_to_lua(r) == t10 + q6);
        },
    }
}

proof fn lemma_split_alone(p: Seq<char>, c: char)
    requires
        lacks(p, c),
    ensures
        split(p, c) == seq![p],
{
    lemma_idx_of(p, c, p.len() as int);
}

proof fn lemma_split_append(a: Seq<char>, b: Seq<char>, c: char)
    ensures
        split(a + seq![c] + b, c) == split(a, c) + split(b, c),
    decreases a.len(),
{
    let x = a + seq![c] + b;
    lemma_idx_of_bounds(a, c);
    let i = idx_of(a, c);
    assert forall|k: int| 0 <= k < i implies x[k] != c by {
        assert(x[k] == a[k]);
    }
    if i < a.len() {
        assert(x[i as int] == a[i as int]);
        lemma_idx_of(x, c, i as int);
        assert(x.take(i as int) =~= a.take(i as int));
        assert(x.skip(i + 1int) =~= a.skip(i + 1int) + seq![c] + b);
        lemma_split_append(a.skip(i + 1int), b, c);
        assert(split(x, c) =~= split(a, c) + split(b, c));
    } else {
        assert(x[a.len() as int] == c);
        lemma_idx_of(x, c, a.len() as int);
        assert(x.take(a.len() as int) =~= a);
        assert(x.skip(a.len() + 1int) =~= b);
        assert(split(x, c) =~= split(a, c) + split(b, c));
    }
}

proof fn lemma_split_join(ps: Seq<Seq<char>>, c: char)
    requires
        ps.len() > 0,
        forall|i: int| 0 <= i < ps.len() ==> lacks(#[trigger] ps[i], c),
    ensures
        split(join(ps, seq![c]), c) == ps,
    decreases ps.len(),
{
    if ps.len() == 1 {
        lemma_split_alone(ps[0], c);
        assert(ps =~= seq![ps[0]]);
    } else {
        let init = ps.drop_last();
        assert forall|i: int| 0 <= i < init.len() implies lacks(#[trigger] init[i], c) by {
            assert(init[i] == ps[i]);
        }
        lemma_split_join(init, c);
        assert(lacks(ps[ps.len() - 1], c));
        lemma_split_alone(ps.last(), c);
        lemma_split_append(join(init, seq![c]), ps.last(), c);
        assert(ps =~= init.push(ps.last()));
    }
}

proof fn lemma_join_append(ps: Seq<Seq<char>>, qs: Seq<Seq<char>>, sep: Seq<char>)
    requires
        ps.len() > 0,
        qs.len() > 0,
    ensures
        join(ps + qs, sep) == join(ps, sep) + sep + join(qs, sep),
    decreases qs.len(),
{
    let all = ps + qs;
    assert(all.last() == qs.last());
    if qs.len() == 1 {
        assert(all.drop_last() =~= ps);
    } else {
        assert(all.drop_last() =~= ps + qs.drop_last());
        lemma_join_append(ps, qs.drop_last(), sep);
        assert(join(all, sep) =~= join(ps, sep) + sep + join(qs, sep));
    }
}

/// The script of a non-empty list of rules splits at its line breaks into the
/// rules' Lua texts, one per line: no rule's text holds a line break.
pub proof fn law_script_lines(rs: Seq<RuleView>)
    requires
        rs.len() > 0,
    ensures
        split(spec_script(rs), '\n') == rs.map_values(|r: RuleView| spec_to_lua(r)),
        forall|i: int| 0 <= i < rs.len() ==> lacks(spec_to_lua(#[trigger] rs[i]), '\n'),
{
    let ls = rs.map_values(|r: RuleView| spec_to_lua(r));
    assert forall|i: int| 0 <= i < ls.len() implies lacks(#[trigger] ls[i], '\n') by {
        lemma_to_lua_lacks_newline(rs[i]);
    }
    assert forall|i: int| 0 <= i < rs.len() implies lacks(spec_to_lua(#[trigger] rs[i]), '\n') by {
        lemma_to_lua_lacks_newline(rs[i]);
    }
    lemma_split_join(ls, '\n');
}

/// The script of two lists of rules is the script of the first, a line break,
/// and the script of the second.
pub proof fn law_script_append(a: Seq<RuleView>, b: Seq<RuleView>)
    requires
        a.len() > 0,
        b.len() > 0,
    ensures
        spec_script(a + b) == spec_script(a) + seq!['\n'] + spec_script(b),
{
    let f = |r: RuleView| spec_to_lua(r);
    assert((a + b).map_values(f) =~= a.map_values(f) + b.map_values(f));
    lemma_join_append(a.map_values(f), b.map_values(f), seq!['\n']);
}

/// A screen after Hyprland carried out the rule `r`, the mirrored screen's id
/// looked up in `all`: a rule for another screen leaves it as it is; turning
/// it off sets `disabled`; turning it on clears `disabled` and sets `mirrorOf`
/// to the id of the screen it mirrors, or `"none"`.
pub open spec fn rule_effect(all: Seq<MonitorView>, r: RuleView, m: MonitorView) -> MonitorView {
    match r {
        RuleView::Disable { output } => if m.name == output {
            MonitorView { disabled: true, ..m }
        } else {
            m
        },
        RuleView::Enable { output, mirror, .. } => if m.name == output {
            MonitorView {
                disabled: false,
                mirror_of: match mirror {
                    Some(src) => match id_of(all, src) {
                        Some(id) => id,
                        None => "none"@,
                    },
                    None => "none"@,
                },
                ..m
            }
        } else {
            m
        },
    }
}

/// A screen after the rules `rs` were carried out, in order.
pub open spec fn screen_after(all: Seq<MonitorView>, m: MonitorView, rs: Seq<RuleView>) -> MonitorView
    decreases rs.len(),
{
    if rs.len() == 0 {
        m
    } else {
        rule_effect(all, rs.last(), screen_after(all, m, rs.drop_last()))
    }
}

/// The screens of a setup after the rules `rs` were carried out.
pub open spec fn setup_after(s: SetupView, rs: Seq<RuleView>) -> SetupView {
    let all = seq![s.primary] + s.targets;
    SetupView {
        primary: screen_after(all, s.primary, rs),
        targets: s.targets.map_values(|t: MonitorView| screen_after(all, t, rs)),
    }
}

proof fn lemma_screen_after_append(
    all: Seq<MonitorView>,
    m: MonitorView,
    a: Seq<RuleView>,
    b: Seq<RuleView>,
)
    ensures
        screen_after(all, m, a + b) == screen_after(all, screen_after(all, m, a), b),
    decreases b.len(),
{
    if b.len() == 0 {
        assert(a + b =~= a);
    } else {
        assert((a + b).drop_last() =~= a + b.drop_last());
        assert((a + b).last() == b.last());
        lemma_screen_after_append(all, m, a, b.drop_last());
    }
}

proof fn lemma_screen_after_untouched(all: Seq<MonitorView>, m: MonitorView, rs: Seq<RuleView>)
    requires
        forall|j: int| 0 <= j < rs.len() ==> rule_output(#[trigger] rs[j]) != m.name,
    ensures
        screen_after(all, m, rs) == m,
    decreases rs.len(),
{
    if rs.len() > 0 {
        assert forall|j: int| 0 <= j < rs.drop_last().len() implies rule_output(
            #[trigger] rs.drop_last()[j],
        ) != m.name by {
            assert(rs.drop_last()[j] == rs[j]);
        }
        lemma_screen_after_untouched(all, m, rs.drop_last());
        assert(rule_output(rs[rs.len() - 1]) != m.name);
    }
}

/// What a mode asks of a target screen.
pub open spec fn target_done(mode: Mode, p: MonitorView, m: MonitorView) -> bool {
    match mode {
        Mode::Mirror => !m.disabled && m.mirror_of == dec_int(p.id as int),
        Mode::Extend | Mode::ExternalOnly => spec_is_extended(m),
        Mode::InternalOnly => m.disabled,
    }
}

proof fn lemma_none_not_mirroring(m: MonitorView)
    requires
        m.mirror_of == "none"@,
    ensures
        !spec_is_mirroring(m),
{
}

proof fn lemma_target_steps(
    s: SetupView,
    mode: Mode,
    side: Option<Side>,
    layouts: Map<Seq<char>, GeometryView>,
    i: int,
    k: int,
)
    requires
        0 <= i < s.targets.len(),
        0 <= k <= s.targets.len(),
        id_of(seq![s.primary] + s.targets, s.primary.name) == Some(dec_int(s.primary.id as int)),
    ensures
        ({
            let all = seq![s.primary] + s.targets;
            let body = s.targets.map_values(
                |t: MonitorView| target_rule(s, mode, side, layouts, t),
            );
            let m = screen_after(all, s.targets[i], body.take(k));
            &&& m.name == s.targets[i].name
            &&& m.id == s.targets[i].id
            &&& (k > i ==> target_done(mode, s.primary, m))
        }),
    decreases k,
{
    let all = seq![s.primary] + s.targets;
    let body = s.targets.map_values(|t: MonitorView| target_rule(s, mode, side, layouts, t));
    if k == 0 {
        assert(body.take(0) =~= Seq::<RuleView>::empty());
    } else {
        lemma_target_steps(s, mode, side, layouts, i, k - 1);
        let prev = screen_after(all, s.targets[i], body.take(k - 1));
        assert(body.take(k).drop_last() =~= body.take(k - 1));
        let t2 = s.targets[k - 1];
        assert(body.take(k).last() == target_rule(s, mode, side, layouts, t2));
        let m = screen_after(all, s.targets[i], body.take(k));
        assert(m == rule_effect(all, target_rule(s, mode, side, layouts, t2), prev));
        if prev.name == t2.name {
            match mode {
                Mode::Mirror => {},
                Mode::Extend | Mode::ExternalOnly => {
                    lemma_none_not_mirroring(m);
                },
                Mode::InternalOnly => {},
            }
        }
    }
}

/// Once the rules planned for a mode have taken effect, that mode is the one
/// detected (for a setup with targets, none of them named as the primary).
pub proof fn law_planned_mode_is_detected(
    s: SetupView,
    mode: Mode,
    side: Option<Side>,
    layouts: Map<Seq<char>, GeometryView>,
)
    requires
        s.targets.len() > 0,
        forall|i: int| 0 <= i < s.targets.len() ==> (#[trigger] s.targets[i]).name != s.primary.name,
    ensures
        spec_current_mode(setup_after(s, spec_plan(s, mode, side, layouts))) == Some(mode),
{
    let p = s.primary;
    let all = seq![p] + s.targets;
    let rules = spec_plan(s, mode, side, layouts);
    let head = if mode != Mode::ExternalOnly && !spec_is_extended(p) {
        seq![enable_rule(p, layouts, None, None)]
    } else {
        Seq::<RuleView>::empty()
    };
    let body = s.targets.map_values(|t: MonitorView| target_rule(s, mode, side, layouts, t));
    let tail = if mode == Mode::ExternalOnly {
        seq![RuleView::Disable { output: p.name }]
    } else {
        Seq::<RuleView>::empty()
    };
    assert(rules == head + body + tail);
    assert(all[0] == p);
    assert(first_where(all, Pick::Named(p.name)) == 0);
    assert(id_of(all, p.name) == Some(dec_int(p.id as int)));
    // The targets.
    let s2 = setup_after(s, rules);
    assert forall|i: int| 0 <= i < s.targets.len() implies target_done(
        mode,
        p,
        #[trigger] s2.targets[i],
    ) by {
        let t = s.targets[i];
        lemma_screen_after_append(all, t, head + body, tail);
        lemma_screen_after_append(all, t, head, body);
        assert forall|j: int| 0 <= j < head.len() implies rule_output(#[trigger] head[j]) != t.name by {
            assert(head[j] == enable_rule(p, layouts, None, None));
        }
        lemma_screen_after_untouched(all, t, head);
        lemma_target_steps(s, mode, side, layouts, i, s.targets.len() as int);
        assert(body.take(s.targets.len() as int) =~= body);
        let m = screen_after(all, t, body);
        assert forall|j: int| 0 <= j < tail.len() implies rule_output(#[trigger] tail[j]) != m.name by {
            assert(tail[j] == RuleView::Disable { output: p.name });
        }
        lemma_screen_after_untouched(all, m, tail);
        assert(s2.targets[i] == screen_after(all, t, rules));
    }
    // The primary.
    lemma_screen_after_append(all, p, head + body, tail);
    lemma_screen_after_append(all, p, head, body);
    let p1 = screen_after(all, p, head);
    if mode != Mode::ExternalOnly && !spec_is_extended(p) {
        assert(head.drop_last() =~= Seq::<RuleView>::empty());
        assert(screen_after(all, p, head.drop_last()) == p);
        assert(head.last() == enable_rule(p, layouts, None, None));
        assert(p1 == rule_effect(all, enable_rule(p, layouts, None, None), p));
        lemma_none_not_mirroring(p1);
    } else {
        assert(head.len() == 0);
        assert(p1 == p);
    }
    assert(p1.name == p.name && p1.id == p.id);
    assert(mode != Mode::ExternalOnly ==> spec_is_extended(p1));
    assert forall|j: int| 0 <= j < body.len() implies rule_output(#[trigger] body[j]) != p1.name by {
        assert(body[j] == target_rule(s, mode, side, layouts, s.targets[j]));
        assert(s.targets[j].name != p.name);
    }
    lemma_screen_after_untouched(all, p1, body);
    let p3 = s2.primary;
    assert(p3 == screen_after(all, p1, tail));
    if mode == Mode::ExternalOnly {
        assert(tail.drop_last() =~= Seq::<RuleView>::empty());
        assert(p3.disabled);
    } else {
        assert(tail.len() == 0);
        assert(p3 == p1);
    }
    assert(p3.id == p.id);
    assert(s2.targets.len() == s.targets.len());
    assert(outcome_of(s2, mode)) by {
        match mode {
            Mode::Mirror => {
                assert forall|i: int| 0 <= i < s2.targets.len() implies !(#[trigger] s2.targets[i]).disabled
                    && s2.targets[i].mirror_of == dec_int(p3.id as int) by {
                    assert(target_done(mode, p, s2.targets[i]));
                }
            },
            Mode::Extend | Mode::ExternalOnly => {
                assert forall|i: int| 0 <= i < s2.targets.len() implies spec_is_extended(
                    #[trigger] s2.targets[i],
                ) by {
                    assert(target_done(mode, p, s2.targets[i]));
                }
            },
            Mode::InternalOnly => {
                assert forall|i: int| 0 <= i < s2.targets.len() implies (#[trigger] s2.targets[i]).disabled by {
                    assert(target_done(mode, p, s2.targets[i]));
                }
            },
        }
    }
    law_outcome_is_detected(s2, mode);
}

/// The layouts hold `m`'s current geometry under its key.
pub open spec fn holds(map: Map<Seq<char>, GeometryView>, m: MonitorView) -> bool {
    map.contains_key(spec_key(m)) && map[spec_key(m)] == geometry_of(m)
}

proof fn lemma_recorded_key(
    map: Map<Seq<char>, GeometryView>,
    s: Seq<MonitorView>,
    q: Seq<char>,
    g: GeometryView,
)
    requires
        forall|j: int|
            0 <= j < s.len() && spec_is_extended(#[trigger] s[j]) && spec_key(s[j]) == q
                ==> geometry_of(s[j]) == g,
    ensures
        (recorded(map, s).contains_key(q) && recorded(map, s)[q] == g) <==> ((map.contains_key(q)
            && map[q] == g) || exists|j: int|
            0 <= j < s.len() && spec_is_extended(#[trigger] s[j]) && spec_key(s[j]) == q),
    decreases s.len(),
{
    if s.len() > 0 {
        let init = s.drop_last();
        let m = s.last();
        assert forall|j: int|
            0 <= j < init.len() && spec_is_extended(#[trigger] init[j]) && spec_key(init[j]) == q
                implies geometry_of(init[j]) == g by {
            assert(init[j] == s[j]);
        }
        lemma_recorded_key(map, init, q, g);
        if spec_is_extended(m) && spec_key(m) == q {
            assert(spec_is_extended(s[s.len() - 1]));
        } else {
            if exists|j: int| 0 <= j < s.len() && spec_is_extended(#[trigger] s[j]) && spec_key(s[j]) == q {
                let j = choose|j: int| 0 <= j < s.len() && spec_is_extended(#[trigger] s[j]) && spec_key(s[j]) == q;
                assert(j < s.len() - 1);
                assert(init[j] == s[j]);
            }
            if exists|j: int| 0 <= j < init.len() && spec_is_extended(#[trigger] init[j]) && spec_key(init[j]) == q {
                let j = choose|j: int| 0 <= j < init.len() && spec_is_extended(#[trigger] init[j]) && spec_key(init[j]) == q;
                assert(init[j] == s[j]);
            }
        }
    }
}

proof fn lemma_running_holds(map: Map<Seq<char>, GeometryView>, ms: Seq<MonitorView>, i: int)
    requires
        consistent(ms),
        0 <= i < ms.len(),
        spec_is_extended(ms[i]),
    ensures
        holds(recorded(map, ms.take(i)), ms[i]) <==> (holds(map, ms[i]) || exists|j: int|
            0 <= j < i && spec_is_extended(#[trigger] ms[j]) && spec_key(ms[j]) == spec_key(ms[i])),
{
    let pre = ms.take(i);
    let q = spec_key(ms[i]);
    assert forall|j: int|
        0 <= j < pre.len() && spec_is_extended(#[trigger] pre[j]) && spec_key(pre[j]) == q
            implies geometry_of(pre[j]) == geometry_of(ms[i]) by {
        assert(pre[j] == ms[j]);
    }
    lemma_recorded_key(map, pre, q, geometry_of(ms[i]));
    if exists|j: int| 0 <= j < pre.len() && spec_is_extended(#[trigger] pre[j]) && spec_key(pre[j]) == q {
        let j = choose|j: int| 0 <= j < pre.len() && spec_is_extended(#[trigger] pre[j]) && spec_key(pre[j]) == q;
        assert(pre[j] == ms[j]);
    }
    if exists|j: int| 0 <= j < i && spec_is_extended(#[trigger] ms[j]) && spec_key(ms[j]) == q {
        let j = choose|j: int| 0 <= j < i && spec_is_extended(#[trigger] ms[j]) && spec_key(ms[j]) == q;
        assert(pre[j] == ms[j]);
    }
}

proof fn lemma_first_change(map: Map<Seq<char>, GeometryView>, ms: Seq<MonitorView>, i: int)
    requires
        consistent(ms),
        0 <= i < ms.len(),
        spec_is_extended(ms[i]),
        !holds(map, ms[i]),
    ensures
        record_changes(map, ms),
    decreases i,
{
    lemma_running_holds(map, ms, i);
    if exists|j: int| 0 <= j < i && spec_is_extended(#[trigger] ms[j]) && spec_key(ms[j]) == spec_key(ms[i]) {
        let j = choose|j: int| 0 <= j < i && spec_is_extended(#[trigger] ms[j]) && spec_key(ms[j]) == spec_key(ms[i]);
        assert(geometry_of(ms[j]) == geometry_of(ms[i]));
        lemma_first_change(map, ms, j);
    } else {
        assert(!holds(recorded(map, ms.take(i)), ms[i]));
        assert(spec_is_extended(ms[i]) && !(recorded(map, ms.take(i)).contains_key(spec_key(ms[i]))
            && recorded(map, ms.take(i))[spec_key(ms[i])] == geometry_of(ms[i])));
    }
}

/// Recording reports a change exactly when some extended screen's geometry is
/// not what the layouts held for its key before (when extended screens that
/// share a key are placed alike).
pub proof fn law_record_reports_a_change(map: Map<Seq<char>, GeometryView>, ms: Seq<MonitorView>)
    requires
        consistent(ms),
    ensures
        record_changes(map, ms) <==> exists|i: int|
            0 <= i < ms.len() && spec_is_extended(#[trigger] ms[i]) && !holds(map, ms[i]),
{
    if record_changes(map, ms) {
        let i = choose|i: int|
            0 <= i < ms.len() && spec_is_extended(#[trigger] ms[i]) && !(recorded(map, ms.take(i)).contains_key(
                spec_key(ms[i]),
            ) && recorded(map, ms.take(i))[spec_key(ms[i])] == geometry_of(ms[i]));
        lemma_running_holds(map, ms, i);
        assert(!holds(map, ms[i]));
    }
    if exists|i: int| 0 <= i < ms.len() && spec_is_extended(#[trigger] ms[i]) && !holds(map, ms[i]) {
        let i = choose|i: int| 0 <= i < ms.len() && spec_is_extended(#[trigger] ms[i]) && !holds(map, ms[i]);
        lemma_first_change(map, ms, i);
    }
}

/// Whether `m` is a laptop panel, by its name: `eDP`, `LVDS` or `DSI` first.
pub open spec fn panel_name(m: MonitorView) -> bool {
    "eDP"@.is_prefix_of(m.name) || "LVDS"@.is_prefix_of(m.name) || "DSI"@.is_prefix_of(m.name)
}

/// With no primary named, the first laptop panel is the primary, whatever
/// screen is focused.
pub proof fn law_resolve_prefers_the_laptop_panel(ms: Seq<MonitorView>, outs: Seq<Seq<char>>, i: int)
    requires
        0 <= i < ms.len(),
        panel_name(ms[i]),
        forall|j: int| 0 <= j < i ==> !panel_name(#[trigger] ms[j]),
    ensures
        spec_resolve(ms, None, outs) matches Ok(s) ==> s.primary == ms[i],
{
    lemma_first_where(ms, Pick::Internal, i);
}

/// With no primary named and no laptop panel, the first focused screen is the
/// primary.
pub proof fn law_resolve_falls_back_to_the_focused_screen(
    ms: Seq<MonitorView>,
    outs: Seq<Seq<char>>,
    k: int,
)
    requires
        0 <= k < ms.len(),
        forall|j: int| 0 <= j < ms.len() ==> !panel_name(#[trigger] ms[j]),
        ms[k].focused,
        forall|j: int| 0 <= j < k ==> !(#[trigger] ms[j]).focused,
    ensures
        spec_resolve(ms, None, outs) matches Ok(s) ==> s.primary == ms[k],
{
    lemma_first_where(ms, Pick::Internal, ms.len() as int);
    lemma_first_where(ms, Pick::Focused, k);
}

/// The Hyprland keyword of a side.
pub open spec fn side_keyword(side: Side) -> Seq<char> {
    match side {
        Side::Left => "auto-left"@,
        Side::Right => "auto-right"@,
        Side::Up => "auto-up"@,
        Side::Down => "auto-down"@,
    }
}

/// Whether `r` turns on the screen `name` at the position `kw`, mirroring nothing.
pub open spec fn enables_at(r: RuleView, name: Seq<char>, kw: Seq<char>) -> bool {
    match r {
        RuleView::Enable { output, geometry, mirror } => output == name && geometry.position == kw
            && mirror is None,
        RuleView::Disable { .. } => false,
    }
}

/// The position `r` gives the screen `name`, when it turns that screen on.
pub open spec fn enable_position(r: RuleView, name: Seq<char>) -> Option<Seq<char>> {
    match r {
        RuleView::Enable { output, geometry, .. } => if output == name {
            Some(geometry.position)
        } else {
            None
        },
        RuleView::Disable { .. } => None,
    }
}

/// Whether some rule of `rules` turns on the screen `name` at `kw`, mirroring nothing.
pub open spec fn placed_at(rules: Seq<RuleView>, name: Seq<char>, kw: Seq<char>) -> bool {
    exists|j: int| 0 <= j < rules.len() && enables_at(#[trigger] rules[j], name, kw)
}

/// Extending (or "external only") with a side turns every target on at that
/// side, not mirroring, whether it is extended now, mirrored or off; and no
/// rule turns a target on anywhere else.
pub proof fn law_side_places_every_target(
    s: SetupView,
    mode: Mode,
    sd: Side,
    layouts: Map<Seq<char>, GeometryView>,
)
    requires
        mode == Mode::Extend || mode == Mode::ExternalOnly,
        forall|i: int| 0 <= i < s.targets.len() ==> (#[trigger] s.targets[i]).name != s.primary.name,
    ensures
        forall|i: int|
            0 <= i < s.targets.len() ==> placed_at(
                spec_plan(s, mode, Some(sd), layouts),
                (#[trigger] s.targets[i]).name,
                side_keyword(sd),
            ),
        forall|j: int, i: int|
            0 <= j < spec_plan(s, mode, Some(sd), layouts).len() && 0 <= i < s.targets.len()
                && enable_position(
                #[trigger] spec_plan(s, mode, Some(sd), layouts)[j],
                (#[trigger] s.targets[i]).name,
            ) is Some ==> enable_position(spec_plan(s, mode, Some(sd), layouts)[j], s.targets[i].name)
                == Some(side_keyword(sd)),
{
    let rules = spec_plan(s, mode, Some(sd), layouts);
    let p = s.primary;
    let head = if mode != Mode::ExternalOnly && !spec_is_extended(p) {
        seq![enable_rule(p, layouts, None, None)]
    } else {
        Seq::<RuleView>::empty()
    };
    let body = s.targets.map_values(|t: MonitorView| target_rule(s, mode, Some(sd), layouts, t));
    let tail = if mode == Mode::ExternalOnly {
        seq![RuleView::Disable { output: p.name }]
    } else {
        Seq::<RuleView>::empty()
    };
    assert(rules == head + body + tail);
    assert forall|i: int| 0 <= i < s.targets.len() implies placed_at(
        rules,
        (#[trigger] s.targets[i]).name,
        side_keyword(sd),
    ) by {
        let j = head.len() + i;
        assert(rules[j] == body[i]);
        assert(body[i] == target_rule(s, mode, Some(sd), layouts, s.targets[i]));
        assert(enables_at(rules[j], s.targets[i].name, side_keyword(sd)));
    }
    assert forall|j: int, i: int|
        0 <= j < rules.len() && 0 <= i < s.targets.len() && enable_position(
            #[trigger] rules[j],
            (#[trigger] s.targets[i]).name,
        ) is Some implies enable_position(rules[j], s.targets[i].name) == Some(side_keyword(sd)) by {
        if j < head.len() {
            assert(rules[j] == enable_rule(p, layouts, None, None));
        } else if j < head.len() + body.len() {
            assert(rules[j] == body[j - head.len()]);
        } else {
            assert(rules[j] == tail[j - head.len() - body.len()]);
        }
    }
}

/// The mode detected is one the screens are really in: mirror needs every
/// target on and showing the primary's id, extend needs the primary on and
/// every target on and not mirroring, "external only" needs the primary off
/// and every target on and not mirroring, "internal only" needs every target
/// off. A mix of states is detected as no mode.
pub proof fn law_detected_mode_holds(s: SetupView)
    ensures
        spec_current_mode(s) == Some(Mode::Mirror) ==> !s.primary.disabled && forall|i: int|
            0 <= i < s.targets.len() ==> !(#[trigger] s.targets[i]).disabled && s.targets[i].mirror_of
                == dec_int(s.primary.id as int),
        spec_current_mode(s) == Some(Mode::Extend) ==> !s.primary.disabled && forall|i: int|
            0 <= i < s.targets.len() ==> !(#[trigger] s.targets[i]).disabled && (
            s.targets[i].mirror_of == "none"@ || s.targets[i].mirror_of.len() == 0),
        spec_current_mode(s) == Some(Mode::ExternalOnly) ==> s.primary.disabled && forall|i: int|
            0 <= i < s.targets.len() ==> !(#[trigger] s.targets[i]).disabled && (
            s.targets[i].mirror_of == "none"@ || s.targets[i].mirror_of.len() == 0),
        spec_current_mode(s) == Some(Mode::InternalOnly) ==> forall|i: int|
            0 <= i < s.targets.len() ==> (#[trigger] s.targets[i]).disabled,
{
}

/// A digit key from 1 to 4 selects that mode of the menu (Mirror, Extend,
/// External only, Internal only) and applies it; any other digit does nothing.
pub proof fn law_digit_applies_its_mode(m: MenuView, d: u8, n: nat)
    ensures
        d == 1 ==> spec_on_key(m, Key::Digit(d), n) == (MenuView { mode: 0, ..m }, Action::Apply(
            Mode::Mirror,
        )),
        d == 2 ==> spec_on_key(m, Key::Digit(d), n) == (MenuView { mode: 1, ..m }, Action::Apply(
            Mode::Extend,
        )),
        d == 3 ==> spec_on_key(m, Key::Digit(d), n) == (MenuView { mode: 2, ..m }, Action::Apply(
            Mode::ExternalOnly,
        )),
        d == 4 ==> spec_on_key(m, Key::Digit(d), n) == (MenuView { mode: 3, ..m }, Action::Apply(
            Mode::InternalOnly,
        )),
        (d == 0 || d > 4) ==> spec_on_key(m, Key::Digit(d), n) == (m, Action::Nothing),
{
}

/// What the screens must show after a rule for it to count as carried out.
pub open spec fn shows(after: Seq<MonitorView>, r: RuleView, m: MonitorView) -> bool {
    match r {
        RuleView::Disable { output } => m.name == output && m.disabled,
        RuleView::Enable { output, mirror, .. } => m.name == output && !m.disabled && match mirror {
            None => m.mirror_of == "none"@ || m.mirror_of.len() == 0,
            Some(src) => exists|k: int|
                0 <= k < after.len() && (#[trigger] after[k]).name == src && (forall|l: int|
                    0 <= l < k ==> (#[trigger] after[l]).name != src) && m.mirror_of == dec_int(
                    after[k].id as int,
                ),
        },
    }
}

/// A rule draws no warning exactly when some screen afterwards shows what it
/// asked: off for a disable, on and not mirroring for a plain enable, on and
/// mirroring the named screen's id for a mirror; otherwise the warning names
/// the screen.
pub proof fn law_warning_iff_not_shown(r: RuleView, after: Seq<MonitorView>)
    ensures
        (exists|j: int| 0 <= j < after.len() && shows(after, r, #[trigger] after[j])) ==> spec_warnings(
            seq![r],
            after,
        ) == Seq::<Seq<char>>::empty(),
        !(exists|j: int| 0 <= j < after.len() && shows(after, r, #[trigger] after[j])) ==> spec_warnings(
            seq![r],
            after,
        ) == seq![
            (match r {
                RuleView::Disable { output } => output,
                RuleView::Enable { output, .. } => output,
            }) + " did not switch as expected (another monitor rule or tool may override it)"@,
        ],
{
    let one = seq![r];
    assert(one.drop_last() =~= Seq::<RuleView>::empty());
    assert(one.last() == r);
    let w = warning_text(rule_output(r));
    assert(spec_warnings(one.drop_last(), after) =~= Seq::<Seq<char>>::empty());
    assert(spec_warnings(one, after) == (if rule_met(after, r) {
        Seq::<Seq<char>>::empty()
    } else {
        Seq::<Seq<char>>::empty().push(w)
    }));
    assert(Seq::<Seq<char>>::empty().push(w) =~= seq![w]);
    assert forall|j: int| 0 <= j < after.len() implies (shows(after, r, #[trigger] after[j])
        <==> rule_met_by(after, r, after[j])) by {
        let m = after[j];
        match r {
            RuleView::Enable { output, mirror: Some(src), .. } => {
                if exists|k: int|
                    0 <= k < after.len() && (#[trigger] after[k]).name == src && (forall|l: int|
                        0 <= l < k ==> (#[trigger] after[l]).name != src) {
                    let k = choose|k: int|
                        0 <= k < after.len() && (#[trigger] after[k]).name == src && (forall|l: int|
                            0 <= l < k ==> (#[trigger] after[l]).name != src);
                    lemma_first_where(after, Pick::Named(src), k);
                    assert(id_of(after, src) == Some(dec_int(after[k].id as int)));
                    if shows(after, r, m) {
                        let k2 = choose|k2: int|
                            0 <= k2 < after.len() && (#[trigger] after[k2]).name == src && (forall|l: int|
                                0 <= l < k2 ==> (#[trigger] after[l]).name != src) && m.mirror_of
                                == dec_int(after[k2].id as int);
                        assert(k2 == k) by {
                            if k2 < k {
                                assert(after[k2].name != src);
                            } else if k < k2 {
                                assert(after[k].name != src);
                            }
                        }
                    }
                } else {
                    lemma_first_where_bounds(after, Pick::Named(src));
                    let f = first_where(after, Pick::Named(src));
                    if f < after.len() {
                        assert(after[f as int].name == src);
                        assert(forall|l: int| 0 <= l < f ==> (#[trigger] after[l]).name != src);
                    }
                }
            },
            _ => {},
        }
    }
    if exists|j: int| 0 <= j < after.len() && shows(after, r, #[trigger] after[j]) {
        let j = choose|j: int| 0 <= j < after.len() && shows(after, r, #[trigger] after[j]);
        assert(rule_met_by(after, r, after[j]));
    } else {
        if rule_met(after, r) {
            let j = choose|j: int| 0 <= j < after.len() && rule_met_by(after, r, #[trigger] after[j]);
            assert(shows(after, r, after[j]));
        }
    }
}

proof fn lemma_first_where_bounds(ms: Seq<MonitorView>, p: Pick)
    ensures
        first_where(ms, p) <= ms.len(),
        first_where(ms, p) < ms.len() ==> picks(p, ms[first_where(ms, p) as int]),
        forall|k: int| 0 <= k < first_where(ms, p) ==> !picks(p, #[trigger] ms[k]),
    decreases ms.len(),
{
    if ms.len() > 0 && !picks(p, ms[0]) {
        lemma_first_where_bounds(ms.drop_first(), p);
        assert forall|k: int| 0 <= k < first_where(ms, p) implies !picks(p, #[trigger] ms[k]) by {
            if k > 0 {
                assert(ms[k] == ms.drop_first()[k - 1]);
            }
        }
        if first_where(ms, p) < ms.len() {
            assert(ms[first_where(ms, p) as int] == ms.drop_first()[first_where(ms.drop_first(), p) as int]);
        }
    }
}

proof fn lemma_others_complete(ms: Seq<MonitorView>, p: Seq<char>)
    ensures
        forall|k: int|
            0 <= k < ms.len() && !crate::hypr::spec_is_virtual(#[trigger] ms[k]) && ms[k].name != p
                ==> others(ms, p).contains(ms[k]),
    decreases ms.len(),
{
    if ms.len() > 0 {
        let init = ms.drop_last();
        lemma_others_complete(init, p);
        let before = others(init, p);
        assert forall|k: int|
            0 <= k < ms.len() && !crate::hypr::spec_is_virtual(#[trigger] ms[k]) && ms[k].name != p
                implies others(ms, p).contains(ms[k]) by {
            if k < ms.len() - 1 {
                assert(init[k] == ms[k]);
                assert(before.contains(ms[k]));
                let j = choose|j: int| 0 <= j < before.len() && before[j] == ms[k];
                if others(ms, p) != before {
                    assert(others(ms, p) == before.push(ms.last()));
                    assert(others(ms, p)[j] == before[j]);
                }
            } else {
                assert(ms.last() == ms[k]);
                assert(others(ms, p) == before.push(ms[k]));
                assert(others(ms, p)[before.len() as int] == ms[k]);
            }
        }
    }
}

/// With no output named, every physical screen other than the primary is a
/// target.
pub proof fn law_default_targets_are_all_other_screens(
    ms: Seq<MonitorView>,
    primary: Option<Seq<char>>,
    k: int,
)
    requires
        spec_resolve(ms, primary, Seq::empty()) is Ok,
        0 <= k < ms.len(),
        !crate::hypr::spec_is_virtual(ms[k]),
        ms[k].name != spec_resolve(ms, primary, Seq::empty())->Ok_0.primary.name,
    ensures
        spec_resolve(ms, primary, Seq::empty())->Ok_0.targets.contains(ms[k]),
{
    let s = spec_resolve(ms, primary, Seq::empty())->Ok_0;
    lemma_others_complete(ms, s.primary.name);
}

proof fn lemma_named_targets_names(ms: Seq<MonitorView>, p: Seq<char>, outs: Seq<Seq<char>>)
    requires
        named_targets(ms, p, outs) is Ok,
    ensures
        named_targets(ms, p, outs)->Ok_0.len() == outs.len(),
        forall|i: int|
            0 <= i < outs.len() ==> (#[trigger] named_targets(ms, p, outs)->Ok_0[i]).name == outs[i],
    decreases outs.len(),
{
    if outs.len() > 0 {
        let init = outs.drop_last();
        lemma_named_targets_names(ms, p, init);
        let ts = named_targets(ms, p, init)->Ok_0;
        let i0 = first_where(ms, Pick::Named(outs.last()));
        lemma_first_where_bounds(ms, Pick::Named(outs.last()));
        assert forall|i: int| 0 <= i < outs.len() implies (#[trigger] named_targets(ms, p, outs)->Ok_0[i]).name
            == outs[i] by {
            if i < init.len() {
                assert(named_targets(ms, p, outs)->Ok_0[i] == ts[i]);
                assert(init[i] == outs[i]);
            }
        }
    }
}

/// Named outputs are the targets, one per name and in the order given.
pub proof fn law_named_outputs_are_the_targets(
    ms: Seq<MonitorView>,
    primary: Option<Seq<char>>,
    outs: Seq<Seq<char>>,
)
    requires
        outs.len() > 0,
        spec_resolve(ms, primary, outs) is Ok,
    ensures
        spec_resolve(ms, primary, outs)->Ok_0.targets.len() == outs.len(),
        forall|i: int|
            0 <= i < outs.len() ==> (#[trigger] spec_resolve(ms, primary, outs)->Ok_0.targets[i]).name
                == outs[i],
{
    let s = spec_resolve(ms, primary, outs)->Ok_0;
    lemma_named_targets_names(ms, s.primary.name, outs);
}

/// What each menu key does: ↑ moves up one mode (not past the first), ↓ down
/// one (not past the fourth), Tab to the next target (after the last, back to
/// all screens), → and ← through the five placements in a circle, Enter
/// applies the selected mode, `q` quits and `r` reloads, leaving the rest alone.
pub proof fn law_menu_keys(m: MenuView, n: nat)
    requires
        m.mode < 4,
    ensures
        spec_on_key(m, Key::Up, n) == (MenuView { mode: if m.mode == 0 { 0 } else { (m.mode - 1) as nat }, ..m }, Action::Nothing),
        spec_on_key(m, Key::Down, n) == (MenuView { mode: if m.mode == 3 { 3 } else { m.mode + 1 }, ..m }, Action::Nothing),
        m.target <= n ==> spec_on_key(m, Key::NextTarget, n).0.target == (if m.target == n {
            0
        } else {
            m.target + 1
        }),
        spec_on_key(m, Key::NextTarget, n).0.mode == m.mode && spec_on_key(m, Key::NextTarget, n).0.side == m.side,
        spec_on_key(m, Key::Right, n) == (MenuView { side: if m.side >= 4 { (m.side + 1) % 5 } else { m.side + 1 }, ..m }, Action::Nothing),
        m.side < 5 ==> spec_on_key(m, Key::Left, n) == (MenuView { side: if m.side == 0 { 4 } else { (m.side - 1) as nat }, ..m }, Action::Nothing),
        spec_on_key(m, Key::Enter, n) == (m, Action::Apply(
            if m.mode == 0 {
                Mode::Mirror
            } else if m.mode == 1 {
                Mode::Extend
            } else if m.mode == 2 {
                Mode::ExternalOnly
            } else {
                Mode::InternalOnly
            },
        )),
        spec_on_key(m, Key::Quit, n) == (m, Action::Quit),
        spec_on_key(m, Key::Reload, n) == (m, Action::Reload),
        spec_on_key(m, Key::Other, n) == (m, Action::Nothing),
{
    let t = m.target;
    if t == n {
        assert((t + 1) % (n + 1) == 0) by (nonlinear_arith)
            requires
                t == n,
        ;
    } else if t < n {
        assert((t + 1) % (n + 1) == t + 1) by (nonlinear_arith)
            requires
                t < n,
        ;
    }
}

/// Warnings come one per rule that did not take effect, in the order of the
/// rules: the warnings of two lists of rules are those of the first, then
/// those of the second.
pub proof fn law_warnings_follow_the_rules(a: Seq<RuleView>, b: Seq<RuleView>, after: Seq<MonitorView>)
    ensures
        spec_warnings(a + b, after) == spec_warnings(a, after) + spec_warnings(b, after),
    decreases b.len(),
{
    if b.len() == 0 {
        assert(a + b =~= a);
        assert(spec_warnings(a, after) + spec_warnings(b, after) =~= spec_warnings(a, after));
    } else {
        assert((a + b).drop_last() =~= a + b.drop_last());
        assert((a + b).last() == b.last());
        law_warnings_follow_the_rules(a, b.drop_last(), after);
        assert(spec_warnings(a + b, after) =~= spec_warnings(a, after) + spec_warnings(b, after));
    }
}

} // verus!
