//! Whether Hyprland did what the rules asked, read back from the screens afterwards.

use crate::hypr::{Monitor, MonitorView, monitor_views, spec_is_mirroring, string_views};
use crate::plan::{Pick, Rule, RuleView, find_named, first_where, rule_views};
use crate::text::{dec_int, int_string};
use vstd::prelude::*;

verus! {

/// The id (in decimal) of the first screen called `name`, if there is one.
pub open spec fn id_of(after: Seq<MonitorView>, name: Seq<char>) -> Option<Seq<char>> {
    let i = first_where(after, Pick::Named(name));
    if i < after.len() {
        Some(dec_int(after[i as int].id as int))
    } else {
        None
    }
}

/// Whether `m` is in the state that `r` asked of the screen it names.
pub open spec fn rule_met_by(after: Seq<MonitorView>, r: RuleView, m: MonitorView) -> bool {
    match r {
        RuleView::Disable { output } => m.name == output && m.disabled,
        RuleView::Enable { output, mirror, .. } => m.name == output && !m.disabled && match mirror {
            Some(src) => Some(m.mirror_of) == id_of(after, src),
            None => !spec_is_mirroring(m),
        },
    }
}

/// Whether some screen is in the state the rule asked for.
pub open spec fn rule_met(after: Seq<MonitorView>, r: RuleView) -> bool {
    exists|j: int| 0 <= j < after.len() && rule_met_by(after, r, #[trigger] after[j])
}

/// The screen a rule is about.
pub open spec fn rule_output(r: RuleView) -> Seq<char> {
    match r {
        RuleView::Disable { output } => output,
        RuleView::Enable { output, .. } => output,
    }
}

/// The warning for a screen that did not end up as asked.
pub open spec fn warning_text(name: Seq<char>) -> Seq<char> {
    name + " did not switch as expected (another monitor rule or tool may override it)"@
}

/// One warning per rule that no screen meets, in rule order.
pub open spec fn spec_warnings(rules: Seq<RuleView>, after: Seq<MonitorView>) -> Seq<Seq<char>>
    decreases rules.len(),
{
    if rules.len() == 0 {
        seq![]
    } else {
        let before = spec_warnings(rules.drop_last(), after);
        if rule_met(after, rules.last()) {
            before
        } else {
            before.push(warning_text(rule_output(rules.last())))
        }
    }
}

/// Whether some screen of `after` meets `rule`.
fn met(rule: &Rule, after: &[Monitor], id_src: &Option<String>) -> (b: bool)
    requires
        match rule@ {
            RuleView::Enable { mirror: Some(src), .. } => match id_src {
                Some(s) => id_of(monitor_views(after@), src) == Some(s@),
                None => id_of(monitor_views(after@), src) is None,
            },
            _ => true,
        },
    ensures
        b == rule_met(monitor_views(after@), rule@),
{
    let ghost ms = monitor_views(after@);
    let mut j: usize = 0;
    while j < after.len()
        invariant
            j <= after@.len(),
            ms == monitor_views(after@),
            match rule@ {
                RuleView::Enable { mirror: Some(src), .. } => match id_src {
                    Some(s) => id_of(ms, src) == Some(s@),
                    None => id_of(ms, src) is None,
                },
                _ => true,
            },
            forall|k: int| 0 <= k < j ==> !rule_met_by(ms, rule@, #[trigger] ms[k]),
        decreases after.len() - j,
    {
        let m = &after[j];
        assert(ms[j as int] == m@);
        let ok = match rule {
            Rule::Disable { output } => m.name == *output && m.disabled,
            Rule::Enable { output, mirror, .. } => m.name == *output && !m.disabled && match mirror {
                Some(_) => match id_src {
                    Some(id) => m.mirror_of == *id,
                    None => false,
                },
                None => !m.is_mirroring(),
            },
        };
        assert(ok == rule_met_by(ms, rule@, m@));
        if ok {
            return true;
        }
        j = j + 1;
    }
    false
}

/// After the rules were sent: one warning for each screen that did not end up
/// in the state its rule asked for.
pub fn switch_warnings(rules: &[Rule], after: &[Monitor]) -> (w: Vec<String>)
    ensures
        string_views(w@) == spec_warnings(rule_views(rules@), monitor_views(after@)),
{
    let ghost rs = rule_views(rules@);
    let ghost ms = monitor_views(after@);
    let mut w: Vec<String> = Vec::new();
    let mut i: usize = 0;
    assert(rs.take(0) =~= Seq::<RuleView>::empty());
    assert(string_views(w@) =~= Seq::<Seq<char>>::empty());
    while i < rules.len()
        invariant
            i <= rules@.len(),
            rs == rule_views(rules@),
            ms == monitor_views(after@),
            string_views(w@) == spec_warnings(rs.take(i as int), ms),
        decreases rules.len() - i,
    {
        let rule = &rules[i];
        let id_src: Option<String> = match rule {
            Rule::Enable { mirror: Some(src), .. } => {
                let k = find_named(after, src);
                if k < after.len() {
                    Some(int_string(after[k].id))
                } else {
                    None
                }
            },
            _ => None,
        };
        let ok = met(rule, after, &id_src);
        proof {
            assert(rs.take(i + 1).drop_last() =~= rs.take(i as int));
            assert(rs.take(i + 1).last() == rule@);
        }
        if !ok {
            let name = match rule {
                Rule::Disable { output } => output,
                Rule::Enable { output, .. } => output,
            };
            let mut text = name.clone();
            text.append(" did not switch as expected (another monitor rule or tool may override it)");
            let ghost before = w@;
            w.push(text);
            assert(string_views(w@) =~= string_views(before).push(text@));
        }
        i = i + 1;
    }
    assert(rs.take(i as int) =~= rs);
    w
}

} // verus!
