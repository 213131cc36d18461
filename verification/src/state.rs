//! Remembers where each screen lives while it is extended, so it can be put
//! back there after being mirrored or disabled.

use crate::hypr::{
    Monitor, MonitorView, monitor_views, spec_is_extended, spec_key, spec_mode_string,
};
use crate::text::{chars_of, dec_int, push_char, push_int, same_chars};
use vstd::prelude::*;

verus! {

/// Where and how a screen is shown.
#[derive(Debug, PartialEq)]
pub struct Geometry {
    pub mode: String,
    pub position: String,
    /// Scale in millionths.
    pub scale_micro: i64,
    pub transform: u8,
}

/// What a [`Geometry`] holds, as plain values.
pub struct GeometryView {
    pub mode: Seq<char>,
    pub position: Seq<char>,
    pub scale_micro: i64,
    pub transform: u8,
}

impl View for Geometry {
    type V = GeometryView;

    open spec fn view(&self) -> GeometryView {
        GeometryView {
            mode: self.mode@,
            position: self.position@,
            scale_micro: self.scale_micro,
            transform: self.transform,
        }
    }
}

impl Clone for Geometry {
    fn clone(&self) -> (r: Self)
        ensures
            r@ == self@,
    {
        Geometry {
            mode: self.mode.clone(),
            position: self.position.clone(),
            scale_micro: self.scale_micro,
            transform: self.transform,
        }
    }
}

/// The geometry a screen has right now: its mode, `"{x}x{y}"`, scale and transform.
pub open spec fn geometry_of(m: MonitorView) -> GeometryView {
    GeometryView {
        mode: spec_mode_string(m),
        position: dec_int(m.x as int) + seq!['x'] + dec_int(m.y as int),
        scale_micro: m.scale_micro,
        transform: m.transform,
    }
}

impl Geometry {
    /// The geometry a screen has right now.
    pub fn of(m: &Monitor) -> (g: Geometry)
        ensures
            g@ == geometry_of(m@),
    {
        let mut position = String::new();
        push_int(&mut position, m.x as i64);
        push_char(&mut position, 'x');
        push_int(&mut position, m.y as i64);
        assert(position@ =~= dec_int(m.x as int) + seq!['x'] + dec_int(m.y as int));
        Geometry { mode: m.mode_string(), position, scale_micro: m.scale_micro, transform: m.transform }
    }

    /// Whether two geometries hold the same values.
    pub fn same(&self, other: &Geometry) -> (b: bool)
        ensures
            b == (self@ == other@),
    {
        self.mode == other.mode && self.position == other.position && self.scale_micro
            == other.scale_micro && self.transform == other.transform
    }
}

/// The map that a list of (key, geometry) entries stands for; a later entry wins.
pub open spec fn entries_map(es: Seq<(String, Geometry)>) -> Map<Seq<char>, GeometryView>
    decreases es.len(),
{
    if es.len() == 0 {
        Map::empty()
    } else {
        entries_map(es.drop_last()).insert(es.last().0@, es.last().1@)
    }
}

/// No key occurs twice.
pub open spec fn keys_unique(es: Seq<(String, Geometry)>) -> bool {
    forall|i: int, j: int| 0 <= i < es.len() && 0 <= j < es.len() && i != j ==> es[i].0@ != es[j].0@
}

/// With unique keys, the map holds exactly the entries' keys, each with its geometry.
pub proof fn lemma_entries_map(es: Seq<(String, Geometry)>)
    requires
        keys_unique(es),
    ensures
        forall|k: Seq<char>| #[trigger]
            entries_map(es).contains_key(k) <==> exists|i: int| 0 <= i < es.len() && es[i].0@ == k,
        forall|i: int|
            0 <= i < es.len() ==> entries_map(es).contains_key(#[trigger] es[i].0@) && entries_map(
                es,
            )[es[i].0@] == es[i].1@,
    decreases es.len(),
{
    if es.len() > 0 {
        let init = es.drop_last();
        assert(keys_unique(init));
        lemma_entries_map(init);
        let n = es.len() - 1;
        assert forall|k: Seq<char>| #[trigger]
            entries_map(es).contains_key(k) <==> exists|i: int| 0 <= i < es.len() && es[i].0@ == k by {
            if entries_map(es).contains_key(k) {
                if k == es.last().0@ {
                    assert(es[n].0@ == k);
                } else {
                    assert(entries_map(init).contains_key(k));
                    let i = choose|i: int| 0 <= i < init.len() && init[i].0@ == k;
                    assert(init[i] == es[i]);
                    assert(es[i].0@ == k);
                }
            }
            if exists|i: int| 0 <= i < es.len() && es[i].0@ == k {
                let i = choose|i: int| 0 <= i < es.len() && es[i].0@ == k;
                if i < n {
                    assert(init[i] == es[i]);
                    assert(init[i].0@ == k);
                    assert(entries_map(init).contains_key(k));
                }
            }
        }
        assert forall|i: int| 0 <= i < es.len() implies entries_map(es).contains_key(
            #[trigger] es[i].0@,
        ) && entries_map(es)[es[i].0@] == es[i].1@ by {
            if i < n {
                assert(init[i] == es[i]);
                assert(es[i].0@ != es[n].0@);
            }
        }
    }
}

/// The layouts recorded after `ms` are seen: each extended screen, in order,
/// stored under its key with its current geometry.
pub open spec fn recorded(map: Map<Seq<char>, GeometryView>, ms: Seq<MonitorView>) -> Map<
    Seq<char>,
    GeometryView,
>
    decreases ms.len(),
{
    if ms.len() == 0 {
        map
    } else {
        let before = recorded(map, ms.drop_last());
        let m = ms.last();
        if spec_is_extended(m) {
            before.insert(spec_key(m), geometry_of(m))
        } else {
            before
        }
    }
}

/// Whether recording `ms` over `map` changes a stored geometry at some step.
pub open spec fn record_changes(map: Map<Seq<char>, GeometryView>, ms: Seq<MonitorView>) -> bool {
    exists|i: int|
        0 <= i < ms.len() && spec_is_extended(#[trigger] ms[i]) && !(recorded(map, ms.take(i)).contains_key(
            spec_key(ms[i]),
        ) && recorded(map, ms.take(i))[spec_key(ms[i])] == geometry_of(ms[i]))
}

/// The remembered geometry of each physical screen, by key.
#[derive(Debug)]
pub struct Layouts {
    entries: Vec<(String, Geometry)>,
}

impl View for Layouts {
    type V = Map<Seq<char>, GeometryView>;

    closed spec fn view(&self) -> Map<Seq<char>, GeometryView> {
        entries_map(self.entries@)
    }
}

impl Default for Layouts {
    fn default() -> (l: Self)
        ensures
            l@ == Map::<Seq<char>, GeometryView>::empty(),
    {
        Layouts::new()
    }
}

impl Layouts {
    #[verifier::type_invariant]
    closed spec fn inv(self) -> bool {
        keys_unique(self.entries@)
    }

    /// Nothing remembered.
    pub fn new() -> (l: Layouts)
        ensures
            l@ == Map::<Seq<char>, GeometryView>::empty(),
    {
        let l = Layouts { entries: Vec::new() };
        assert(l@ =~= Map::<Seq<char>, GeometryView>::empty());
        l
    }

    /// Index of the entry stored under `key`.
    fn find(&self, key: &Vec<char>) -> (r: Option<usize>)
        ensures
            match r {
                Some(i) => i < self.entries@.len() && self.entries@[i as int].0@ == key@,
                None => forall|i: int| 0 <= i < self.entries@.len() ==> self.entries@[i].0@ != key@,
            },
    {
        let mut i: usize = 0;
        while i < self.entries.len()
            invariant
                i <= self.entries@.len(),
                forall|j: int| 0 <= j < i ==> self.entries@[j].0@ != key@,
            decreases self.entries.len() - i,
        {
            let k = chars_of(self.entries[i].0.as_str());
            if same_chars(&k, key) {
                return Some(i);
            }
            i = i + 1;
        }
        None
    }

    /// The geometry remembered for this screen.
    pub fn get(&self, m: &Monitor) -> (r: Option<&Geometry>)
        ensures
            match r {
                Some(g) => self@.contains_key(spec_key(m@)) && g@ == self@[spec_key(m@)],
                None => !self@.contains_key(spec_key(m@)),
            },
    {
        proof {
            use_type_invariant(self);
            lemma_entries_map(self.entries@);
        }
        let key = chars_of(m.key());
        match self.find(&key) {
            Some(i) => Some(&self.entries[i].1),
            None => None,
        }
    }

    /// Stores `g` under `key`; returns whether that changed what is stored.
    pub fn insert(&mut self, key: &str, g: Geometry) -> (changed: bool)
        ensures
            final(self)@ == old(self)@.insert(key@, g@),
            changed == !(old(self)@.contains_key(key@) && old(self)@[key@] == g@),
    {
        proof {
            use_type_invariant(&*self);
            lemma_entries_map(self.entries@);
        }
        let kv = chars_of(key);
        let ghost old_entries = self.entries@;
        match self.find(&kv) {
            Some(i) => {
                let changed = !self.entries[i].1.same(&g);
                let ghost gv = g@;
                let mut entries: Vec<(String, Geometry)> = Vec::new();
                std::mem::swap(&mut entries, &mut self.entries);
                entries.set(i, (key.to_owned(), g));
                proof {
                    assert(keys_unique(entries@)) by {
                        assert forall|a: int, b: int|
                            0 <= a < entries@.len() && 0 <= b < entries@.len() && a != b implies entries@[a].0@
                            != entries@[b].0@ by {
                            if a != i && b != i {
                                assert(entries@[a] == old_entries[a]);
                                assert(entries@[b] == old_entries[b]);
                            } else if a == i {
                                assert(entries@[b] == old_entries[b]);
                            } else {
                                assert(entries@[a] == old_entries[a]);
                            }
                        }
                    }
                    lemma_entries_map(entries@);
                    assert(entries_map(entries@) =~= entries_map(old_entries).insert(key@, gv)) by {
                        assert forall|k: Seq<char>| #[trigger] entries_map(entries@).contains_key(k)
                            <==> entries_map(old_entries).insert(key@, gv).contains_key(k) by {
                            if entries_map(entries@).contains_key(k) {
                                let j = choose|j: int| 0 <= j < entries@.len() && entries@[j].0@ == k;
                                if j != i {
                                    assert(entries@[j] == old_entries[j]);
                                    assert(entries_map(old_entries).contains_key(old_entries[j].0@));
                                }
                            }
                            if entries_map(old_entries).insert(key@, gv).contains_key(k) {
                                assert(entries_map(entries@).contains_key(entries@[i as int].0@));
                                if k != key@ {
                                    assert(entries_map(old_entries).contains_key(k));
                                    let j = choose|j: int| 0 <= j < old_entries.len() && old_entries[j].0@ == k;
                                    if j != i {
                                        assert(entries@[j] == old_entries[j]);
                                        assert(entries_map(entries@).contains_key(entries@[j].0@));
                                    }
                                }
                            }
                        }
                        assert forall|k: Seq<char>| #[trigger] entries_map(entries@).contains_key(k) implies entries_map(
                            entries@,
                        )[k] == entries_map(old_entries).insert(key@, gv)[k] by {
                            let j = choose|j: int| 0 <= j < entries@.len() && entries@[j].0@ == k;
                            assert(entries_map(entries@)[entries@[j].0@] == entries@[j].1@);
                            if j != i {
                                assert(entries@[j] == old_entries[j]);
                                assert(entries_map(old_entries)[old_entries[j].0@] == old_entries[j].1@);
                            }
                        }
                    }
                }
                self.entries = entries;
                changed
            },
            None => {
                let ghost gv = g@;
                let mut entries: Vec<(String, Geometry)> = Vec::new();
                std::mem::swap(&mut entries, &mut self.entries);
                entries.push((key.to_owned(), g));
                proof {
                    assert(keys_unique(entries@)) by {
                        assert forall|a: int, b: int|
                            0 <= a < entries@.len() && 0 <= b < entries@.len() && a != b implies entries@[a].0@
                            != entries@[b].0@ by {
                            if a < old_entries.len() {
                                assert(entries@[a] == old_entries[a]);
                            }
                            if b < old_entries.len() {
                                assert(entries@[b] == old_entries[b]);
                            }
                        }
                    }
                    assert(entries@.drop_last() =~= old_entries);
                }
                self.entries = entries;
                true
            },
        }
    }

    /// Records every extended screen; returns whether anything changed
    /// (and so whether the layouts are worth saving).
    pub fn record(&mut self, monitors: &[Monitor]) -> (changed: bool)
        ensures
            final(self)@ == recorded(old(self)@, monitor_views(monitors@)),
            changed == record_changes(old(self)@, monitor_views(monitors@)),
    {
        let ghost start = self@;
        let ghost ms = monitor_views(monitors@);
        let mut changed = false;
        let mut i: usize = 0;
        assert(ms.take(0) =~= Seq::<MonitorView>::empty());
        while i < monitors.len()
            invariant
                i <= monitors@.len(),
                ms == monitor_views(monitors@),
                self@ == recorded(start, ms.take(i as int)),
                changed == record_changes(start, ms.take(i as int)),
            decreases monitors.len() - i,
        {
            let m = &monitors[i];
            proof {
                assert(ms.take(i + 1).drop_last() =~= ms.take(i as int));
                assert(ms.take(i + 1).last() == m@);
                assert(ms[i as int] == m@);
            }
            let ghost before = self@;
            if m.is_extended() {
                let c = self.insert(m.key(), Geometry::of(m));
                proof {
                    assert(ms.take(i + 1).take(i as int) =~= ms.take(i as int));
                    if c {
                        assert(record_changes(start, ms.take(i + 1))) by {
                            assert(ms.take(i + 1)[i as int] == m@);
                        }
                    } else if changed {
                        let j = choose|j: int|
                            0 <= j < i && spec_is_extended(#[trigger] ms.take(i as int)[j]) && !(recorded(
                                start,
                                ms.take(i as int).take(j),
                            ).contains_key(spec_key(ms.take(i as int)[j])) && recorded(
                                start,
                                ms.take(i as int).take(j),
                            )[spec_key(ms.take(i as int)[j])] == geometry_of(ms.take(i as int)[j]));
                        assert(ms.take(i + 1).take(j) =~= ms.take(i as int).take(j));
                        assert(ms.take(i + 1)[j] == ms.take(i as int)[j]);
                    } else {
                        assert(!record_changes(start, ms.take(i + 1))) by {
                            assert forall|j: int| 0 <= j < i + 1 && spec_is_extended(
                                #[trigger] ms.take(i + 1)[j],
                            ) implies (recorded(start, ms.take(i + 1).take(j)).contains_key(
                                spec_key(ms.take(i + 1)[j]),
                            ) && recorded(start, ms.take(i + 1).take(j))[spec_key(ms.take(i + 1)[j])]
                                == geometry_of(ms.take(i + 1)[j])) by {
                                if j < i {
                                    assert(ms.take(i + 1).take(j) =~= ms.take(i as int).take(j));
                                    assert(ms.take(i + 1)[j] == ms.take(i as int)[j]);
                                }
                            }
                        }
                    }
                }
                changed = changed || c;
            } else {
                proof {
                    assert(ms.take(i + 1).take(i as int) =~= ms.take(i as int));
                    if changed {
                        let j = choose|j: int|
                            0 <= j < i && spec_is_extended(#[trigger] ms.take(i as int)[j]) && !(recorded(
                                start,
                                ms.take(i as int).take(j),
                            ).contains_key(spec_key(ms.take(i as int)[j])) && recorded(
                                start,
                                ms.take(i as int).take(j),
                            )[spec_key(ms.take(i as int)[j])] == geometry_of(ms.take(i as int)[j]));
                        assert(ms.take(i + 1).take(j) =~= ms.take(i as int).take(j));
                        assert(ms.take(i + 1)[j] == ms.take(i as int)[j]);
                    } else {
                        assert(!record_changes(start, ms.take(i + 1))) by {
                            assert forall|j: int| 0 <= j < i + 1 && spec_is_extended(
                                #[trigger] ms.take(i + 1)[j],
                            ) implies (recorded(start, ms.take(i + 1).take(j)).contains_key(
                                spec_key(ms.take(i + 1)[j]),
                            ) && recorded(start, ms.take(i + 1).take(j))[spec_key(ms.take(i + 1)[j])]
                                == geometry_of(ms.take(i + 1)[j])) by {
                                if j < i {
                                    assert(ms.take(i + 1).take(j) =~= ms.take(i as int).take(j));
                                    assert(ms.take(i + 1)[j] == ms.take(i as int)[j]);
                                }
                            }
                        }
                    }
                }
            }
            i = i + 1;
        }
        assert(ms.take(i as int) =~= ms);
        changed
    }

    /// Layouts holding the given entries; a later entry for the same key wins.
    pub fn from_entries(entries: Vec<(String, Geometry)>) -> (l: Layouts)
        ensures
            l@ == entries_map(entries@),
    {
        let mut l = Layouts::new();
        let mut i: usize = 0;
        assert(entries@.take(0) =~= Seq::<(String, Geometry)>::empty());
        while i < entries.len()
            invariant
                i <= entries@.len(),
                l@ == entries_map(entries@.take(i as int)),
            decreases entries.len() - i,
        {
            let _ = l.insert(entries[i].0.as_str(), entries[i].1.clone());
            proof {
                assert(entries@.take(i + 1).drop_last() =~= entries@.take(i as int));
            }
            i = i + 1;
        }
        assert(entries@.take(i as int) =~= entries@);
        l
    }

    /// The remembered entries, each key once.
    pub fn entries(&self) -> (r: Vec<(String, Geometry)>)
        ensures
            entries_map(r@) == self@,
            keys_unique(r@),
    {
        proof {
            use_type_invariant(self);
        }
        let mut r: Vec<(String, Geometry)> = Vec::new();
        let mut i: usize = 0;
        assert(self.entries@.take(0) =~= Seq::<(String, Geometry)>::empty());
        while i < self.entries.len()
            invariant
                i <= self.entries@.len(),
                keys_unique(self.entries@),
                r@.len() == i,
                forall|j: int| 0 <= j < i ==> (#[trigger] r@[j]).0@ == self.entries@[j].0@ && r@[j].1@
                    == self.entries@[j].1@,
                entries_map(r@) == entries_map(self.entries@.take(i as int)),
            decreases self.entries.len() - i,
        {
            let e = (self.entries[i].0.clone(), self.entries[i].1.clone());
            let ghost old_r = r@;
            r.push(e);
            proof {
                assert(r@.drop_last() =~= old_r);
                assert(self.entries@.take(i + 1).drop_last() =~= self.entries@.take(i as int));
                assert(r@.take(i as int) =~= r@.drop_last());
            }
            i = i + 1;
        }
        assert(self.entries@.take(i as int) =~= self.entries@);
        r
    }
}

} // verus!
