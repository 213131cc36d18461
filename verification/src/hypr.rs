//! The screens as Hyprland reports them (`hyprctl -j monitors all`).
//!
//! Rates and scales are fixed-point integers here: a refresh rate in
//! thousandths of a hertz, a scale in millionths.

use crate::text::{
    all_digit_chars, all_digits, chars_of, dec_nat, digit, digit_of, digits_val, digits_value,
    idx_of, is_digit, lemma_digits_val_below, lemma_idx_of, pow10, push_char, push_dec, same_chars,
    slice_vec, starts_with, string_of,
};
use vstd::prelude::*;

verus! {

/// One output of `hyprctl -j monitors all`.
#[derive(Debug)]
pub struct Monitor {
    pub id: i64,
    pub name: String,
    pub description: String,
    pub width: u32,
    pub height: u32,
    /// Refresh rate in thousandths of a hertz.
    pub refresh_mhz: u64,
    pub x: i32,
    pub y: i32,
    /// Scale in millionths.
    pub scale_micro: i64,
    pub transform: u8,
    pub disabled: bool,
    /// Id of the monitor being mirrored, or `"none"`.
    pub mirror_of: String,
    pub available_modes: Vec<String>,
    pub focused: bool,
}

/// What a [`Monitor`] holds, as plain values.
pub struct MonitorView {
    pub id: i64,
    pub name: Seq<char>,
    pub description: Seq<char>,
    pub width: u32,
    pub height: u32,
    pub refresh_mhz: u64,
    pub x: i32,
    pub y: i32,
    pub scale_micro: i64,
    pub transform: u8,
    pub disabled: bool,
    pub mirror_of: Seq<char>,
    pub available_modes: Seq<Seq<char>>,
    pub focused: bool,
}

/// The views of a list of strings.
pub open spec fn string_views(v: Seq<String>) -> Seq<Seq<char>> {
    v.map_values(|s: String| s@)
}

impl View for Monitor {
    type V = MonitorView;

    open spec fn view(&self) -> MonitorView {
        MonitorView {
            id: self.id,
            name: self.name@,
            description: self.description@,
            width: self.width,
            height: self.height,
            refresh_mhz: self.refresh_mhz,
            x: self.x,
            y: self.y,
            scale_micro: self.scale_micro,
            transform: self.transform,
            disabled: self.disabled,
            mirror_of: self.mirror_of@,
            available_modes: string_views(self.available_modes@),
            focused: self.focused,
        }
    }
}

/// The views of a list of monitors.
pub open spec fn monitor_views(ms: Seq<Monitor>) -> Seq<MonitorView> {
    ms.map_values(|m: Monitor| m@)
}

/// A laptop panel: `eDP-*`, `LVDS-*` or `DSI-*`.
pub open spec fn spec_is_internal(m: MonitorView) -> bool {
    "eDP"@.is_prefix_of(m.name) || "LVDS"@.is_prefix_of(m.name) || "DSI"@.is_prefix_of(m.name)
}

/// A headless or nested output.
pub open spec fn spec_is_virtual(m: MonitorView) -> bool {
    ||| "HEADLESS"@.is_prefix_of(m.name)
    ||| "WAYLAND"@.is_prefix_of(m.name)
    ||| "X11"@.is_prefix_of(m.name)
    ||| "FALLBACK"@.is_prefix_of(m.name)
}

/// Showing another screen's content: `mirrorOf` names one.
pub open spec fn spec_is_mirroring(m: MonitorView) -> bool {
    m.mirror_of != "none"@ && m.mirror_of.len() != 0
}

/// Enabled and showing its own content.
pub open spec fn spec_is_extended(m: MonitorView) -> bool {
    !m.disabled && !spec_is_mirroring(m)
}

/// The EDID description when there is one, else the output name.
pub open spec fn spec_key(m: MonitorView) -> Seq<char> {
    if m.description.len() == 0 {
        m.name
    } else {
        m.description
    }
}

/// `"{width}x{height}@"`.
pub open spec fn mode_prefix(m: MonitorView) -> Seq<char> {
    dec_nat(m.width as nat) + seq!['x'] + dec_nat(m.height as nat) + seq!['@']
}

/// Whether `s` ends with `"Hz"`.
pub open spec fn ends_hz(s: Seq<char>) -> bool {
    s.len() >= 2 && s[s.len() - 2] == 'H' && s[s.len() - 1] == 'z'
}

/// `s` without any trailing `"Hz"` (`trim_end_matches("Hz")`).
pub open spec fn trim_hz(s: Seq<char>) -> Seq<char>
    decreases s.len(),
{
    if ends_hz(s) {
        trim_hz(s.take(s.len() - 2))
    } else {
        s
    }
}

/// Three fraction digits in thousandths: cut after three, padded with zeros.
pub open spec fn milli_digits(f: Seq<char>) -> nat {
    if f.len() >= 3 {
        digits_val(f.take(3))
    } else if f.len() == 2 {
        digits_val(f) * 10
    } else if f.len() == 1 {
        digits_val(f) * 100
    } else {
        0
    }
}

/// A decimal such as `60.00` in thousandths: digits, an optional `.` and
/// fraction digits, with at least one digit (fraction digits past the third
/// are cut).
pub open spec fn parse_decimal(s: Seq<char>) -> Option<nat> {
    let i = idx_of(s, '.');
    let whole = s.take(i as int);
    let frac = if i < s.len() {
        s.skip(i + 1int)
    } else {
        Seq::<char>::empty()
    };
    if all_digits(whole) && all_digits(frac) && whole.len() + frac.len() > 0 {
        Some(digits_val(whole) * 1000 + milli_digits(frac))
    } else {
        None
    }
}

/// A rate such as `60.00` or `+60.00` in thousandths of a hertz: an optional
/// `+`, then a decimal.
pub open spec fn parse_mhz(s: Seq<char>) -> Option<nat> {
    if s.len() > 0 && s[0] == '+' {
        parse_decimal(s.drop_first())
    } else {
        parse_decimal(s)
    }
}

/// A rate in thousandths rounded to hundredths, a value exactly halfway going
/// to the even hundredth, as `{:.2}` rounds it.
pub open spec fn round_hundredths(mhz: nat) -> nat {
    let q = mhz / 10;
    let r = mhz % 10;
    if r > 5 || (r == 5 && q % 2 == 1) {
        q + 1
    } else {
        q
    }
}

/// An `availableModes` entry for the current resolution, with its rate and the
/// entry without its `Hz`.
pub open spec fn mode_candidate(prefix: Seq<char>, entry: Seq<char>) -> Option<(nat, Seq<char>)> {
    if prefix.is_prefix_of(entry) {
        match parse_mhz(trim_hz(entry.skip(prefix.len() as int))) {
            Some(hz) => if hz <= u64::MAX {
                Some((hz, trim_hz(entry)))
            } else {
                None
            },
            None => None,
        }
    } else {
        None
    }
}

/// How far apart two rates are.
pub open spec fn distance(a: nat, b: nat) -> nat {
    if a >= b {
        (a - b) as nat
    } else {
        (b - a) as nat
    }
}

/// Among `modes`, the first candidate whose rate is closest to `rate`.
pub open spec fn closest_mode(prefix: Seq<char>, rate: nat, modes: Seq<Seq<char>>) -> Option<
    (nat, Seq<char>),
>
    decreases modes.len(),
{
    if modes.len() == 0 {
        None
    } else {
        let prev = closest_mode(prefix, rate, modes.drop_last());
        match mode_candidate(prefix, modes.last()) {
            None => prev,
            Some(c) => match prev {
                None => Some(c),
                Some(p) => if distance(c.0, rate) < distance(p.0, rate) {
                    Some(c)
                } else {
                    Some(p)
                },
            },
        }
    }
}

/// A rate in thousandths written with two decimals.
pub open spec fn two_decimals(mhz: nat) -> Seq<char> {
    let h = round_hundredths(mhz);
    dec_nat(h / 100) + seq!['.', digit((h % 100) / 10), digit(h % 10)]
}

/// The current mode as a Hyprland mode string.
pub open spec fn spec_mode_string(m: MonitorView) -> Seq<char> {
    match closest_mode(mode_prefix(m), m.refresh_mhz as nat, m.available_modes) {
        Some(c) => c.1,
        None => mode_prefix(m) + two_decimals(m.refresh_mhz as nat),
    }
}

/// `v[lo..hi]` without any trailing `"Hz"`: returns the new end.
fn trim_hz_end(v: &Vec<char>, lo: usize, hi: usize) -> (j: usize)
    requires
        lo <= hi <= v.len(),
    ensures
        lo <= j <= hi,
        trim_hz(v@.subrange(lo as int, hi as int)) == v@.subrange(lo as int, j as int),
{
    let mut j = hi;
    while j - lo >= 2 && v[j - 2] == 'H' && v[j - 1] == 'z'
        invariant
            lo <= j <= hi <= v.len(),
            trim_hz(v@.subrange(lo as int, hi as int)) == trim_hz(v@.subrange(lo as int, j as int)),
        decreases j,
    {
        assert(v@.subrange(lo as int, j as int).take(j - lo - 2) =~= v@.subrange(lo as int, j - 2));
        j = j - 2;
    }
    j
}

/// `parse_decimal` on `v[lo..hi]`, limited to what fits in a `u64`.
fn parse_decimal_at(v: &Vec<char>, lo: usize, hi: usize) -> (r: Option<u64>)
    requires
        lo <= hi <= v.len(),
    ensures
        r == (match parse_decimal(v@.subrange(lo as int, hi as int)) {
            Some(x) => if x <= u64::MAX {
                Some(x as u64)
            } else {
                None::<u64>
            },
            None => None,
        }),
{
    let ghost s = v@.subrange(lo as int, hi as int);
    let mut dot = lo;
    while dot < hi && v[dot] != '.'
        invariant
            lo <= dot <= hi <= v.len(),
            forall|k: int| lo <= k < dot ==> v@[k] != '.',
        decreases hi - dot,
    {
        dot = dot + 1;
    }
    proof {
        lemma_idx_of(s, '.', dot - lo);
    }
    let frac_lo = if dot < hi {
        dot + 1
    } else {
        hi
    };
    assert(s.take(dot - lo) =~= v@.subrange(lo as int, dot as int));
    assert(dot < hi ==> s.skip(dot - lo + 1) =~= v@.subrange(frac_lo as int, hi as int));
    assert(dot >= hi ==> Seq::<char>::empty() =~= v@.subrange(frac_lo as int, hi as int));
    if !all_digit_chars(v, lo, dot) || !all_digit_chars(v, frac_lo, hi) || (dot - lo) + (hi
        - frac_lo) == 0 {
        return None;
    }
    let whole = match digits_value(v, lo, dot) {
        Some(w) => w,
        None => {
            return None;
        },
    };
    let flen = hi - frac_lo;
    let fend = if flen >= 3 {
        frac_lo + 3
    } else {
        hi
    };
    let ghost f = v@.subrange(frac_lo as int, hi as int);
    assert(flen >= 3 ==> f.take(3) =~= v@.subrange(frac_lo as int, fend as int));
    assert(all_digits(v@.subrange(frac_lo as int, fend as int))) by {
        assert forall|i: int| 0 <= i < fend - frac_lo implies is_digit(
            #[trigger] v@.subrange(frac_lo as int, fend as int)[i],
        ) by {
            assert(v@.subrange(frac_lo as int, fend as int)[i] == f[i]);
        }
    }
    let fd = match digits_value(v, frac_lo, fend) {
        Some(x) => x,
        None => {
            return None;
        },
    };
    let ghost fdv = digits_val(v@.subrange(frac_lo as int, fend as int));
    proof {
        lemma_digits_val_below(v@.subrange(frac_lo as int, fend as int));
        assert(pow10(3) == 1000) by {
            reveal_with_fuel(pow10, 4);
        }
        if fend - frac_lo < 3 {
            assert(pow10(2) == 100) by {
                reveal_with_fuel(pow10, 3);
            }
            assert(pow10(1) == 10) by {
                reveal_with_fuel(pow10, 2);
            }
            assert(pow10(0) == 1);
        }
    }
    let milli: u64 = if flen >= 3 {
        fd
    } else if flen == 2 {
        fd * 10
    } else if flen == 1 {
        fd * 100
    } else {
        0
    };
    if whole > (u64::MAX - milli) / 1000 {
        return None;
    }
    Some(whole * 1000 + milli)
}

/// `parse_mhz` on `v[lo..hi]`, limited to what fits in a `u64`.
fn parse_mhz_at(v: &Vec<char>, lo: usize, hi: usize) -> (r: Option<u64>)
    requires
        lo <= hi <= v.len(),
    ensures
        r == (match parse_mhz(v@.subrange(lo as int, hi as int)) {
            Some(x) => if x <= u64::MAX {
                Some(x as u64)
            } else {
                None::<u64>
            },
            None => None,
        }),
{
    if lo < hi && v[lo] == '+' {
        assert(v@.subrange(lo as int, hi as int).drop_first() =~= v@.subrange(lo + 1, hi as int));
        parse_decimal_at(v, lo + 1, hi)
    } else {
        parse_decimal_at(v, lo, hi)
    }
}

/// The candidate that `entry` is for the resolution prefix `pv`.
fn mode_candidate_of(pv: &Vec<char>, e: &Vec<char>) -> (r: Option<(u64, Vec<char>)>)
    ensures
        match r {
            Some(c) => mode_candidate(pv@, e@) == Some((c.0 as nat, c.1@)),
            None => mode_candidate(pv@, e@) is None,
        },
{
    if !starts_with(e, pv) {
        return None;
    }
    let j = trim_hz_end(e, pv.len(), e.len());
    assert(e@.skip(pv@.len() as int) =~= e@.subrange(pv@.len() as int, e@.len() as int));
    match parse_mhz_at(e, pv.len(), j) {
        None => None,
        Some(hz) => {
            let k = trim_hz_end(e, 0, e.len());
            assert(e@ =~= e@.subrange(0, e@.len() as int));
            Some((hz, slice_vec(e, 0, k)))
        },
    }
}

fn distance_u64(a: u64, b: u64) -> (d: u64)
    ensures
        d == distance(a as nat, b as nat),
{
    if a >= b {
        a - b
    } else {
        b - a
    }
}

impl Clone for Monitor {
    fn clone(&self) -> (r: Self)
        ensures
            r@ == self@,
    {
        let modes = self.available_modes.clone();
        assert(string_views(modes@) =~= string_views(self.available_modes@));
        Monitor {
            id: self.id,
            name: self.name.clone(),
            description: self.description.clone(),
            width: self.width,
            height: self.height,
            refresh_mhz: self.refresh_mhz,
            x: self.x,
            y: self.y,
            scale_micro: self.scale_micro,
            transform: self.transform,
            disabled: self.disabled,
            mirror_of: self.mirror_of.clone(),
            available_modes: modes,
            focused: self.focused,
        }
    }
}

impl Monitor {
    /// A laptop panel: `eDP-*`, `LVDS-*` or `DSI-*`.
    pub fn is_internal(&self) -> (b: bool)
        ensures
            b == spec_is_internal(self@),
    {
        let n = chars_of(self.name.as_str());
        starts_with(&n, &chars_of("eDP")) || starts_with(&n, &chars_of("LVDS")) || starts_with(
            &n,
            &chars_of("DSI"),
        )
    }

    /// Headless / nested outputs are never picked as "external screens" unless named explicitly.
    pub fn is_virtual(&self) -> (b: bool)
        ensures
            b == spec_is_virtual(self@),
    {
        let n = chars_of(self.name.as_str());
        starts_with(&n, &chars_of("HEADLESS")) || starts_with(&n, &chars_of("WAYLAND"))
            || starts_with(&n, &chars_of("X11")) || starts_with(&n, &chars_of("FALLBACK"))
    }

    /// Showing another screen's content.
    pub fn is_mirroring(&self) -> (b: bool)
        ensures
            b == spec_is_mirroring(self@),
    {
        let m = chars_of(self.mirror_of.as_str());
        !same_chars(&m, &chars_of("none")) && m.len() != 0
    }

    /// Enabled and showing its own content.
    pub fn is_extended(&self) -> (b: bool)
        ensures
            b == spec_is_extended(self@),
    {
        !self.disabled && !self.is_mirroring()
    }

    /// Key used to remember a screen's layout: the EDID description when there is one,
    /// so the same physical screen is recognised on any port.
    pub fn key(&self) -> (k: &str)
        ensures
            k@ == spec_key(self@),
    {
        if self.description.as_str().is_empty() {
            self.name.as_str()
        } else {
            self.description.as_str()
        }
    }

    /// Current mode as a Hyprland mode string. Prefers an exact entry from
    /// `availableModes` (e.g. `2560x1440@180.00`) over the raw refresh rate.
    pub fn mode_string(&self) -> (s: String)
        ensures
            s@ == spec_mode_string(self@),
    {
        let mut prefix = String::new();
        push_dec(&mut prefix, self.width as u64);
        push_char(&mut prefix, 'x');
        push_dec(&mut prefix, self.height as u64);
        push_char(&mut prefix, '@');
        assert(prefix@ =~= mode_prefix(self@));
        let pv = chars_of(prefix.as_str());
        let ghost modes = string_views(self.available_modes@);
        let ghost rate = self.refresh_mhz as nat;
        let mut best: Option<(u64, Vec<char>)> = None;
        let mut i: usize = 0;
        assert(modes.take(0) =~= Seq::<Seq<char>>::empty());
        while i < self.available_modes.len()
            invariant
                pv@ == mode_prefix(self@),
                modes == string_views(self.available_modes@),
                rate == self.refresh_mhz as nat,
                i <= self.available_modes.len(),
                closest_mode(pv@, rate, modes.take(i as int)) == (match best {
                    Some(b) => Some((b.0 as nat, b.1@)),
                    None => None::<(nat, Seq<char>)>,
                }),
            decreases self.available_modes.len() - i,
        {
            let e = chars_of(self.available_modes[i].as_str());
            let cand = mode_candidate_of(&pv, &e);
            proof {
                assert(modes.take(i + 1).drop_last() =~= modes.take(i as int));
                assert(modes.take(i + 1).last() == e@);
            }
            match cand {
                Some(c) => {
                    let replace = match &best {
                        None => true,
                        Some(b) => distance_u64(c.0, self.refresh_mhz) < distance_u64(
                            b.0,
                            self.refresh_mhz,
                        ),
                    };
                    if replace {
                        best = Some(c);
                    }
                },
                None => {},
            }
            i = i + 1;
        }
        assert(modes.take(i as int) =~= modes);
        match best {
            Some(b) => string_of(&b.1),
            None => {
                let q: u64 = self.refresh_mhz / 10;
                let h: u64 = if self.refresh_mhz % 10 > 5 || (self.refresh_mhz % 10 == 5 && q % 2
                    == 1) {
                    q + 1
                } else {
                    q
                };
                assert(h == round_hundredths(rate));
                let mut out = prefix;
                push_dec(&mut out, h / 100);
                push_char(&mut out, '.');
                push_char(&mut out, digit_of((h % 100) / 10));
                push_char(&mut out, digit_of(h % 10));
                assert(out@ =~= mode_prefix(self@) + two_decimals(rate));
                out
            },
        }
    }
}

/// Whether a `hyprctl eval` ran: the command succeeded and printed `ok`.
pub fn eval_succeeded(success: bool, stdout: &str) -> (b: bool)
    ensures
        b == (success && crate::text::trim(stdout@) == "ok"@),
{
    if !success {
        return false;
    }
    let t = crate::text::trim_str(stdout);
    let tv = chars_of(t.as_str());
    same_chars(&tv, &chars_of("ok"))
}

} // verus!
