//! The keybind that opens the menu, as a managed block of `hyprland.lua`.

use crate::text::{
    chars_of, eq_ignore_case, idx_of, join, raw_lines, lemma_idx_of, line_text, push_char, same_chars,
    same_ignoring_case, slice_vec, split, split_by, split_raw_lines, split_seq, split_vec, starts_with,
    string_of, trim, trim_bounds, trim_newlines, trim_str, views,
};
use vstd::prelude::*;

verus! {

/// The first line of the managed block.
pub const BEGIN: &'static str = "-- >>> switchout (managed by `switchout setup`, remove with `switchout setup --remove`)";

/// The last line of the managed block.
pub const END: &'static str = "-- <<< switchout";

/// The first line of the managed block.
pub open spec fn begin_marker() -> Seq<char> {
    BEGIN@
}

/// The last line of the managed block.
pub open spec fn end_marker() -> Seq<char> {
    END@
}

/// What a line must start with to open a managed block.
pub open spec fn begin_prefix() -> Seq<char> {
    "-- >>> switchout"@
}

/// The written lines from `ls` on, each kept byte for byte with its own line
/// break, without the managed blocks; `inside` when a block is open.
pub open spec fn strip_lines(ls: Seq<Seq<char>>, inside: bool) -> Seq<char>
    decreases ls.len(),
{
    if ls.len() == 0 {
        seq![]
    } else {
        let l = ls[0];
        let rest = ls.drop_first();
        if begin_prefix().is_prefix_of(l) {
            strip_lines(rest, true)
        } else if inside && end_marker().is_prefix_of(l) {
            strip_lines(rest, false)
        } else if !inside {
            l + strip_lines(rest, false)
        } else {
            strip_lines(rest, true)
        }
    }
}

/// The config with any managed block removed; every other line is left as it
/// is written.
pub open spec fn spec_strip_block(config: Seq<char>) -> Seq<char> {
    strip_lines(raw_lines(config), false)
}

/// The key of the bind on the line after the first block opening, if any.
pub open spec fn key_lines(ls: Seq<Seq<char>>, inside: bool) -> Option<Seq<char>>
    decreases ls.len(),
{
    if ls.len() == 0 {
        None
    } else {
        let l = ls[0];
        if begin_prefix().is_prefix_of(l) {
            key_lines(ls.drop_first(), true)
        } else if inside {
            if "hl.bind(\""@.is_prefix_of(l) {
                let r = line_text(l).skip(9);
                Some(r.take(idx_of(r, '"') as int))
            } else {
                None
            }
        } else {
            key_lines(ls.drop_first(), false)
        }
    }
}

/// The key of the bind in the managed block of `config`, if any.
pub open spec fn spec_current_key(config: Seq<char>) -> Option<Seq<char>> {
    key_lines(raw_lines(config), false)
}

/// The key of the bind currently in our block, if any.
pub fn current_key(config: &str) -> (r: Option<String>)
    ensures
        match r {
            Some(k) => spec_current_key(config@) == Some(k@),
            None => spec_current_key(config@) is None,
        },
{
    let ls = split_raw_lines(&chars_of(config));
    let prefix = chars_of("-- >>> switchout");
    let bind = chars_of("hl.bind(\"");
    proof {
        reveal_strlit("hl.bind(\"");
        assert(bind@.len() == 9);
    }
    let ghost all = views(ls@);
    let mut inside = false;
    let mut i: usize = 0;
    assert(all.skip(0) =~= all);
    while i < ls.len()
        invariant
            i <= ls@.len(),
            all == views(ls@),
            all == raw_lines(config@),
            prefix@ == begin_prefix(),
            bind@ == "hl.bind(\""@,
            bind@.len() == 9,
            key_lines(all, false) == key_lines(all.skip(i as int), inside),
        decreases ls.len() - i,
    {
        let l = &ls[i];
        proof {
            assert(all.skip(i as int)[0] == l@);
            assert(all.skip(i as int).drop_first() =~= all.skip(i + 1));
        }
        if starts_with(l, &prefix) {
            inside = true;
        } else if inside {
            if !starts_with(l, &bind) {
                return None;
            }
            // The end of the line's text, before its `\n` or `\r\n`.
            let mut e = l.len();
            proof {
                reveal_strlit("hl.bind(\"");
                assert(bind@.is_prefix_of(l@));
                assert(l@.len() >= 9);
                assert(l@.subrange(0, 9)[8] == l@[8]);
                assert(bind@[8] == '"');
                assert(l@[8] == '"');
            }
            if e > 0 && l[e - 1] == '\n' {
                e = e - 1;
                if e > 0 && l[e - 1] == '\r' {
                    e = e - 1;
                }
            }
            assert(e >= 9);
            assert(line_text(l@) =~= l@.take(e as int));
            let mut j: usize = 9;
            while j < e && l[j] != '"'
                invariant
                    9 <= j <= e <= l@.len(),
                    forall|k: int| 9 <= k < j ==> l@[k] != '"',
                decreases e - j,
            {
                j = j + 1;
            }
            proof {
                let r = line_text(l@).skip(9);
                assert(r =~= l@.subrange(9, e as int));
                assert forall|k: int| 0 <= k < j - 9 implies r[k] != '"' by {
                    assert(r[k] == l@[k + 9]);
                }
                lemma_idx_of(r, '"', j - 9);
                assert(r.take(j - 9) =~= l@.subrange(9, j as int));
            }
            return Some(string_of(&slice_vec(l, 9, j)));
        }
        i = i + 1;
    }
    None
}

/// The config with any previous managed block removed.
pub fn strip_block(config: &str) -> (r: String)
    ensures
        r@ == spec_strip_block(config@),
{
    let ls = split_raw_lines(&chars_of(config));
    let prefix = chars_of("-- >>> switchout");
    let end = chars_of(END);
    let ghost all = views(ls@);
    let mut out = String::new();
    let mut inside = false;
    let mut i: usize = 0;
    assert(all.skip(0) =~= all);
    while i < ls.len()
        invariant
            i <= ls@.len(),
            all == views(ls@),
            prefix@ == begin_prefix(),
            end@ == end_marker(),
            out@ + strip_lines(all.skip(i as int), inside) == strip_lines(all, false),
        decreases ls.len() - i,
    {
        let l = &ls[i];
        proof {
            assert(all.skip(i as int)[0] == l@);
            assert(all.skip(i as int).drop_first() =~= all.skip(i + 1));
        }
        if starts_with(l, &prefix) {
            inside = true;
        } else if inside && starts_with(l, &end) {
            inside = false;
        } else if !inside {
            let ghost before = out@;
            let mut k: usize = 0;
            while k < l.len()
                invariant
                    k <= l@.len(),
                    out@ == before + l@.take(k as int),
                decreases l.len() - k,
            {
                push_char(&mut out, l[k]);
                assert(l@.take(k + 1) =~= l@.take(k as int).push(l@[k as int]));
                k = k + 1;
            }
            assert(l@.take(k as int) =~= l@);
            assert(out@ + strip_lines(all.skip(i + 1), false) =~= before + strip_lines(
                all.skip(i as int),
                false,
            ));
        }
        i = i + 1;
    }
    assert(out@ + strip_lines(all.skip(i as int), inside) =~= out@);
    out
}

/// How a character of the menu command is written inside the Lua string.
pub open spec fn command_char(c: char) -> Seq<char> {
    if c == '\\' {
        seq!['\\', '\\']
    } else if c == '"' {
        seq!['\\', '"']
    } else {
        seq![c]
    }
}

/// `s` with `\` and `"` escaped, as two `replace` calls do it.
pub open spec fn command_escaped(s: Seq<char>) -> Seq<char>
    decreases s.len(),
{
    if s.len() == 0 {
        seq![]
    } else {
        command_escaped(s.drop_last()) + command_char(s.last())
    }
}

/// The bind line: `hl.bind("KEY", hl.dsp.exec_cmd("EXE menu"))`.
pub open spec fn bind_line(key: Seq<char>, exe: Seq<char>) -> Seq<char> {
    "hl.bind(\""@ + key + "\", hl.dsp.exec_cmd(\""@ + command_escaped(exe + " menu"@) + "\"))"@
}

/// The managed block, each line ending in `\n`.
pub open spec fn bind_block(key: Seq<char>, exe: Seq<char>) -> Seq<char> {
    begin_marker() + seq!['\n'] + bind_line(key, exe) + seq!['\n'] + end_marker() + seq!['\n']
}

/// `s` with its last line ended by a `\n` when it lacks one.
pub open spec fn ended(s: Seq<char>) -> Seq<char> {
    if s.len() > 0 && s.last() != '\n' {
        s.push('\n')
    } else {
        s
    }
}

/// `s` followed by a blank line, unless it already ends with one.
pub open spec fn separated(s: Seq<char>) -> Seq<char> {
    if "\n\n"@.is_suffix_of(s) {
        s
    } else {
        s.push('\n')
    }
}

/// The config after an install: any old block removed (the other lines as
/// written, the last one ended by a `\n`), a blank line, then the block.
pub open spec fn spec_config_with_bind(config: Seq<char>, key: Seq<char>, exe: Seq<char>) -> Seq<
    char,
> {
    separated(ended(spec_strip_block(config))) + bind_block(key, exe)
}

/// The config after a removal, or `None` when it holds no block.
pub open spec fn spec_config_without_bind(config: Seq<char>) -> Option<Seq<char>> {
    let s = spec_strip_block(config);
    if s == config {
        None
    } else {
        Some(trim_newlines(s).push('\n'))
    }
}

/// The config with the managed block for `key` (any old one removed), the
/// block running `exe menu`.
#[verifier::rlimit(40)]
pub fn config_with_bind(config: &str, key: &str, exe: &str) -> (r: String)
    ensures
        r@ == spec_config_with_bind(config@, key@, exe@),
{
    let mut new = strip_block(config);
    let sv = chars_of(new.as_str());
    if sv.len() > 0 && sv[sv.len() - 1] != '\n' {
        push_char(&mut new, '\n');
    }
    assert(new@ == ended(spec_strip_block(config@)));
    let nv = chars_of(new.as_str());
    let n = nv.len();
    let ends_blank = n >= 2 && nv[n - 2] == '\n' && nv[n - 1] == '\n';
    proof {
        reveal_strlit("\n\n");
        let s = ended(spec_strip_block(config@));
        if n >= 2 {
            assert("\n\n"@.is_suffix_of(s) == (s[n - 2] == '\n' && s[n - 1] == '\n')) by {
                if s[n - 2] == '\n' && s[n - 1] == '\n' {
                    assert(s.subrange(n - 2, n as int) =~= "\n\n"@);
                }
                if "\n\n"@.is_suffix_of(s) {
                    assert(s.subrange(n - 2, n as int)[0] == s[n - 2]);
                    assert(s.subrange(n - 2, n as int)[1] == s[n - 1]);
                }
            }
        }
    }
    if !ends_blank {
        push_char(&mut new, '\n');
    }
    let ghost head = new@;
    new.append(BEGIN);
    push_char(&mut new, '\n');
    new.append("hl.bind(\"");
    new.append(key);
    new.append("\", hl.dsp.exec_cmd(\"");
    let mut cmd = String::from_str(exe);
    cmd.append(" menu");
    let cv = chars_of(cmd.as_str());
    let ghost before = new@;
    let mut k: usize = 0;
    assert(cv@.take(0) =~= Seq::<char>::empty());
    while k < cv.len()
        invariant
            k <= cv@.len(),
            new@ == before + command_escaped(cv@.take(k as int)),
        decreases cv.len() - k,
    {
        let c = cv[k];
        let ghost prev = new@;
        if c == '\\' {
            push_char(&mut new, '\\');
            push_char(&mut new, '\\');
        } else if c == '"' {
            push_char(&mut new, '\\');
            push_char(&mut new, '"');
        } else {
            push_char(&mut new, c);
        }
        proof {
            assert(cv@.take(k + 1).drop_last() =~= cv@.take(k as int));
            assert(new@ =~= prev + command_char(c));
        }
        k = k + 1;
    }
    assert(cv@.take(k as int) =~= cv@);
    new.append("\"))");
    push_char(&mut new, '\n');
    new.append(END);
    push_char(&mut new, '\n');
    assert(new@ =~= head + bind_block(key@, exe@));
    new
}

/// The config without the managed block, with the blank line before it
/// dropped; `None` when there is no block to remove.
pub fn config_without_bind(config: &str) -> (r: Option<String>)
    ensures
        match r {
            Some(s) => spec_config_without_bind(config@) == Some(s@),
            None => spec_config_without_bind(config@) is None,
        },
{
    let new = strip_block(config);
    let nv = chars_of(new.as_str());
    let cv = chars_of(config);
    if same_chars(&nv, &cv) {
        return None;
    }
    let mut n = nv.len();
    assert(nv@.take(n as int) =~= nv@);
    while n > 0 && nv[n - 1] == '\n'
        invariant
            n <= nv@.len(),
            trim_newlines(nv@) == trim_newlines(nv@.take(n as int)),
        decreases n,
    {
        assert(nv@.take(n as int).drop_last() =~= nv@.take(n - 1));
        n = n - 1;
    }
    let mut out = string_of(&slice_vec(&nv, 0, n));
    assert(nv@.subrange(0, n as int) =~= nv@.take(n as int));
    push_char(&mut out, '\n');
    Some(out)
}

/// The Unicode upper case of a string, as `str::to_uppercase` computes it.
pub uninterp spec fn uppercase(s: Seq<char>) -> Seq<char>;

/// `str::to_uppercase`: its result is the Unicode upper case of `s` (named,
/// not spelled out: the Unicode case tables are not stated here). Each
/// character changes into one or more characters, so the result is empty
/// exactly when `s` is.
#[verifier::external_body]
fn to_uppercase(s: &str) -> (r: String)
    ensures
        r@ == uppercase(s@),
        r@.len() == 0 <==> s@.len() == 0,
{
    s.to_uppercase()
}

/// The parts of a key combination: split at `+`, each trimmed.
pub open spec fn key_parts(key: Seq<char>) -> Seq<Seq<char>> {
    split(key, '+').map_values(|p: Seq<char>| trim(p))
}

/// The parts with every modifier (all but the last part) upper-cased.
pub open spec fn cased_parts(ps: Seq<Seq<char>>) -> Seq<Seq<char>> {
    Seq::new(
        ps.len(),
        |i: int|
            if i < ps.len() - 1 {
                uppercase(ps[i])
            } else {
                ps[i]
            },
    )
}

/// The parts joined with `" + "`, unless one of them is empty.
pub open spec fn spec_assemble_key(ps: Seq<Seq<char>>) -> Option<Seq<char>> {
    if exists|i: int| 0 <= i < ps.len() && (#[trigger] ps[i]).len() == 0 {
        None
    } else {
        Some(join(ps, " + "@))
    }
}

/// The normalized key combination, or `None` when it has an empty part.
pub open spec fn spec_normalize(key: Seq<char>) -> Option<Seq<char>> {
    spec_assemble_key(cased_parts(key_parts(key)))
}

/// A key combination that is not one (an empty part, such as in `"SUPER +"`).
#[derive(Debug)]
pub struct InvalidKey {
    pub key: String,
}

/// The parts joined with `" + "`; `None` when a part is empty.
pub fn assemble_key(parts: &Vec<String>) -> (r: Option<String>)
    ensures
        match r {
            Some(s) => spec_assemble_key(crate::hypr::string_views(parts@)) == Some(s@),
            None => spec_assemble_key(crate::hypr::string_views(parts@)) is None,
        },
{
    let ghost ps = crate::hypr::string_views(parts@);
    let mut i: usize = 0;
    while i < parts.len()
        invariant
            i <= parts@.len(),
            ps == crate::hypr::string_views(parts@),
            forall|k: int| 0 <= k < i ==> (#[trigger] ps[k]).len() != 0,
        decreases parts.len() - i,
    {
        if parts[i].as_str().is_empty() {
            assert(ps[i as int].len() == 0);
            return None;
        }
        i = i + 1;
    }
    let mut out = String::new();
    let mut k: usize = 0;
    assert(ps.take(0) =~= Seq::<Seq<char>>::empty());
    while k < parts.len()
        invariant
            k <= parts@.len(),
            ps == crate::hypr::string_views(parts@),
            out@ == join(ps.take(k as int), " + "@),
        decreases parts.len() - k,
    {
        let ghost before = out@;
        if k > 0 {
            out.append(" + ");
        }
        out.append(parts[k].as_str());
        proof {
            let t = ps.take(k + 1);
            assert(t.drop_last() =~= ps.take(k as int));
            assert(t.last() == parts@[k as int]@);
            if k == 0 {
                assert(ps.take(0) =~= Seq::<Seq<char>>::empty());
                assert(join(t, " + "@) == t[0]);
                assert(out@ =~= t[0]);
            } else {
                assert(out@ =~= join(t, " + "@));
            }
        }
        k = k + 1;
    }
    assert(ps.take(k as int) =~= ps);
    Some(out)
}

/// `"super+shift + d"` → `"SUPER + SHIFT + d"`. Only modifiers are upper-cased:
/// key names like `Return` or `XF86AudioMute` are kept as written.
pub fn normalize(key: &str) -> (r: Result<String, InvalidKey>)
    ensures
        match r {
            Ok(s) => spec_normalize(key@) == Some(s@),
            Err(e) => spec_normalize(key@) is None && e.key@ == key@,
        },
        r is Err <==> exists|i: int|
            0 <= i < key_parts(key@).len() && (#[trigger] key_parts(key@)[i]).len() == 0,
{
    let pieces = split_vec(&chars_of(key), '+');
    let ghost raw = split(key@, '+');
    let ghost trimmed = key_parts(key@);
    let n = pieces.len();
    let mut parts: Vec<String> = Vec::new();
    let mut i: usize = 0;
    while i < n
        invariant
            n == pieces@.len(),
            n >= 1,
            views(pieces@) == raw,
            raw == split(key@, '+'),
            trimmed == key_parts(key@),
            i <= n,
            parts@.len() == i,
            forall|k: int| 0 <= k < i ==> (#[trigger] parts@[k])@ == cased_parts(trimmed)[k],
            forall|k: int| 0 <= k < i ==> ((#[trigger] parts@[k])@.len() == 0 <==> trimmed[k].len() == 0),
        decreases n - i,
    {
        let piece = &pieces[i];
        let (a, b) = trim_bounds(piece);
        let t = string_of(&slice_vec(piece, a, b));
        proof {
            assert(raw[i as int] == piece@);
            assert(trimmed[i as int] == trim(raw[i as int]));
        }
        if i < n - 1 {
            parts.push(to_uppercase(t.as_str()));
        } else {
            parts.push(t);
        }
        i = i + 1;
    }
    assert(crate::hypr::string_views(parts@) =~= cased_parts(trimmed));
    assert((exists|k: int| 0 <= k < cased_parts(trimmed).len() && (#[trigger] cased_parts(trimmed)[k]).len() == 0)
        <==> (exists|k: int| 0 <= k < trimmed.len() && (#[trigger] trimmed[k]).len() == 0)) by {
        if exists|k: int| 0 <= k < trimmed.len() && (#[trigger] trimmed[k]).len() == 0 {
            let k = choose|k: int| 0 <= k < trimmed.len() && (#[trigger] trimmed[k]).len() == 0;
            assert(parts@[k]@ == cased_parts(trimmed)[k]);
        }
        if exists|k: int| 0 <= k < cased_parts(trimmed).len() && (#[trigger] cased_parts(trimmed)[k]).len() == 0 {
            let k = choose|k: int| 0 <= k < cased_parts(trimmed).len() && (#[trigger] cased_parts(trimmed)[k]).len() == 0;
            assert(parts@[k]@ == cased_parts(trimmed)[k]);
        }
    }
    match assemble_key(&parts) {
        Some(s) => Ok(s),
        None => Err(InvalidKey { key: String::from_str(key) }),
    }
}

/// The bit of a modifier name in Hyprland's modifier mask.
pub open spec fn mod_bit(m: Seq<char>) -> Option<u32> {
    if m == "SHIFT"@ {
        Some(1)
    } else if m == "CAPS"@ {
        Some(2)
    } else if m == "CTRL"@ || m == "CONTROL"@ {
        Some(4)
    } else if m == "ALT"@ || m == "MOD1"@ {
        Some(8)
    } else if m == "MOD2"@ {
        Some(16)
    } else if m == "MOD3"@ {
        Some(32)
    } else if m == "SUPER"@ || m == "WIN"@ || m == "LOGO"@ || m == "MOD4"@ {
        Some(64)
    } else if m == "MOD5"@ {
        Some(128)
    } else {
        None
    }
}

/// The mask of a list of modifiers; `None` when one is unknown.
pub open spec fn mods_mask(ms: Seq<Seq<char>>) -> Option<u32>
    decreases ms.len(),
{
    if ms.len() == 0 {
        Some(0)
    } else {
        match mods_mask(ms.drop_last()) {
            None => None,
            Some(mask) => match mod_bit(ms.last()) {
                None => None,
                Some(b) => Some(mask | b),
            },
        }
    }
}

/// The modifier mask and key name of a normalized key combination such as
/// `"SUPER + SHIFT + d"`; `None` when a modifier is unknown.
pub open spec fn spec_key_mask(key: Seq<char>) -> Option<(u32, Seq<char>)> {
    let ps = split_seq(key, " + "@);
    match mods_mask(ps.drop_last()) {
        Some(m) => Some((m, ps.last())),
        None => None,
    }
}

fn bit_of(m: &Vec<char>) -> (r: Option<u32>)
    ensures
        r == mod_bit(m@),
{
    if same_chars(m, &chars_of("SHIFT")) {
        Some(1)
    } else if same_chars(m, &chars_of("CAPS")) {
        Some(2)
    } else if same_chars(m, &chars_of("CTRL")) || same_chars(m, &chars_of("CONTROL")) {
        Some(4)
    } else if same_chars(m, &chars_of("ALT")) || same_chars(m, &chars_of("MOD1")) {
        Some(8)
    } else if same_chars(m, &chars_of("MOD2")) {
        Some(16)
    } else if same_chars(m, &chars_of("MOD3")) {
        Some(32)
    } else if same_chars(m, &chars_of("SUPER")) || same_chars(m, &chars_of("WIN")) || same_chars(
        m,
        &chars_of("LOGO"),
    ) || same_chars(m, &chars_of("MOD4")) {
        Some(64)
    } else if same_chars(m, &chars_of("MOD5")) {
        Some(128)
    } else {
        None
    }
}

/// The modifier mask and key name of a key combination.
pub fn key_mask(key: &str) -> (r: Option<(u32, String)>)
    ensures
        match r {
            Some(p) => spec_key_mask(key@) == Some((p.0, p.1@)),
            None => spec_key_mask(key@) is None,
        },
{
    let sep = chars_of(" + ");
    proof {
        reveal_strlit(" + ");
    }
    let parts = split_by(&chars_of(key), &sep);
    let ghost ps = views(parts@);
    let n = parts.len();
    let mut mask: u32 = 0;
    let mut i: usize = 0;
    assert(ps.drop_last().take(0) =~= Seq::<Seq<char>>::empty());
    while i < n - 1
        invariant
            n == parts@.len(),
            n >= 1,
            ps == views(parts@),
            ps == split_seq(key@, " + "@),
            i <= n - 1,
            mods_mask(ps.drop_last().take(i as int)) == Some(mask),
        decreases n - i,
    {
        proof {
            assert(ps.drop_last().take(i + 1).drop_last() =~= ps.drop_last().take(i as int));
            assert(ps.drop_last().take(i + 1).last() == parts@[i as int]@);
        }
        match bit_of(&parts[i]) {
            Some(b) => {
                mask = mask | b;
            },
            None => {
                proof {
                    lemma_mods_mask_none(ps.drop_last(), i as int + 1);
                }
                return None;
            },
        }
        i = i + 1;
    }
    assert(ps.drop_last().take(i as int) =~= ps.drop_last());
    Some((mask, string_of(&parts[n - 1])))
}

proof fn lemma_mods_mask_none(ms: Seq<Seq<char>>, k: int)
    requires
        0 < k <= ms.len(),
        mods_mask(ms.take(k)) is None,
    ensures
        mods_mask(ms) is None,
    decreases ms.len() - k,
{
    if k < ms.len() {
        assert(ms.take(k + 1).drop_last() =~= ms.take(k));
        lemma_mods_mask_none(ms, k + 1);
    } else {
        assert(ms.take(k) =~= ms);
    }
}

/// One entry of `hyprctl -j binds`.
pub struct Bind {
    pub modmask: u32,
    pub key: String,
    pub arg: String,
    pub dispatcher: String,
    pub description: String,
}

/// Whether a bind is on the modifier mask `mask` and the key `name` (any ASCII case).
pub open spec fn bind_matches(b: Bind, mask: u32, name: Seq<char>) -> bool {
    b.modmask == mask && eq_ignore_case(b.key@, name)
}

/// Index of the first bind on `mask` + `name`, or the number of binds when none.
pub open spec fn first_bind(bs: Seq<Bind>, mask: u32, name: Seq<char>) -> nat
    decreases bs.len(),
{
    if bs.len() == 0 {
        0
    } else if bind_matches(bs[0], mask, name) {
        0
    } else {
        1 + first_bind(bs.drop_first(), mask, name)
    }
}

proof fn lemma_first_bind(bs: Seq<Bind>, mask: u32, name: Seq<char>, i: int)
    requires
        0 <= i <= bs.len(),
        forall|k: int| 0 <= k < i ==> !bind_matches(#[trigger] bs[k], mask, name),
        i == bs.len() || bind_matches(bs[i], mask, name),
    ensures
        first_bind(bs, mask, name) == i,
    decreases bs.len(),
{
    if bs.len() > 0 && i > 0 {
        assert(!bind_matches(bs[0], mask, name));
        assert forall|k: int| 0 <= k < i - 1 implies !bind_matches(
            #[trigger] bs.drop_first()[k],
            mask,
            name,
        ) by {
            assert(bs.drop_first()[k] == bs[k + 1]);
        }
        lemma_first_bind(bs.drop_first(), mask, name, i - 1);
    }
}

/// What a bind does, in words: its description, else its dispatcher and
/// argument (Lua binds only expose a function id, so "another action").
pub open spec fn describe(b: Bind) -> Seq<char> {
    if b.description@.len() != 0 {
        b.description@
    } else if b.dispatcher@ == "__lua"@ || b.dispatcher@.len() == 0 {
        "another action"@
    } else {
        trim(b.dispatcher@ + " "@ + b.arg@)
    }
}

/// What the first bind on `mask` + `name` does, if there is one.
pub open spec fn spec_bound_to(bs: Seq<Bind>, mask: u32, name: Seq<char>) -> Option<Seq<char>> {
    let i = first_bind(bs, mask, name);
    if i < bs.len() {
        Some(describe(bs[i as int]))
    } else {
        None
    }
}

/// What the key `mask` + `name` is already bound to, if anything.
pub fn bound_to(binds: &[Bind], mask: u32, name: &str) -> (r: Option<String>)
    ensures
        match r {
            Some(s) => spec_bound_to(binds@, mask, name@) == Some(s@),
            None => spec_bound_to(binds@, mask, name@) is None,
        },
{
    let nv = chars_of(name);
    let mut i: usize = 0;
    while i < binds.len() && !(binds[i].modmask == mask && same_ignoring_case(
        &chars_of(binds[i].key.as_str()),
        &nv,
    ))
        invariant
            i <= binds@.len(),
            nv@ == name@,
            forall|k: int| 0 <= k < i ==> !bind_matches(#[trigger] binds@[k], mask, name@),
        decreases binds.len() - i,
    {
        i = i + 1;
    }
    proof {
        lemma_first_bind(binds@, mask, name@, i as int);
    }
    if i == binds.len() {
        return None;
    }
    let b = &binds[i];
    if !b.description.as_str().is_empty() {
        return Some(b.description.clone());
    }
    let d = chars_of(b.dispatcher.as_str());
    if same_chars(&d, &chars_of("__lua")) || d.len() == 0 {
        return Some(String::from_str("another action"));
    }
    let mut s = b.dispatcher.clone();
    s.append(" ");
    s.append(b.arg.as_str());
    Some(trim_str(s.as_str()))
}

/// Whether `p` occurs in `s`.
pub open spec fn occurs(s: Seq<char>, p: Seq<char>) -> bool {
    exists|k: int| 0 <= k <= s.len() && p.is_prefix_of(#[trigger] s.skip(k))
}

fn occurs_in(v: &Vec<char>, p: &Vec<char>) -> (b: bool)
    ensures
        b == occurs(v@, p@),
{
    let n = v.len();
    let mut k: usize = 0;
    while k < n
        invariant
            n == v@.len(),
            k <= n,
            forall|j: int| 0 <= j < k ==> !p@.is_prefix_of(#[trigger] v@.skip(j)),
        decreases n - k,
    {
        let tail = slice_vec(v, k, n);
        assert(tail@ =~= v@.skip(k as int));
        if starts_with(&tail, p) {
            return true;
        }
        k = k + 1;
    }
    let empty: Vec<char> = Vec::new();
    assert(empty@ =~= v@.skip(n as int));
    let found = starts_with(&empty, p);
    proof {
        if !found {
            assert forall|j: int| 0 <= j <= v@.len() implies !p@.is_prefix_of(#[trigger] v@.skip(j)) by {
                if j == n {
                    assert(v@.skip(j) =~= empty@);
                }
            }
        }
    }
    found
}

/// What `Hyprland --verify-config` printed, turned into the reason the new
/// config would not load: `None` when it reports `config ok`, else the text
/// after the last `Config parsing result:` (all of it when there is none),
/// trimmed, with the scratch file's name shown as `hyprland.lua`.
pub open spec fn spec_config_rejection(text: Seq<char>) -> Option<Seq<char>> {
    if occurs(text, "config ok"@) {
        None
    } else {
        let details = trim(split_seq(text, "Config parsing result:"@).last());
        Some(join(split_seq(details, ".hyprland.switchout-check.lua"@), "hyprland.lua"@))
    }
}

/// Why a candidate config would not load, from what `Hyprland --verify-config` printed.
pub fn config_rejection(text: &str) -> (r: Option<String>)
    ensures
        match r {
            Some(s) => spec_config_rejection(text@) == Some(s@),
            None => spec_config_rejection(text@) is None,
        },
{
    let tv = chars_of(text);
    if occurs_in(&tv, &chars_of("config ok")) {
        return None;
    }
    let marker = chars_of("Config parsing result:");
    let scratch = chars_of(".hyprland.switchout-check.lua");
    proof {
        reveal_strlit("Config parsing result:");
        reveal_strlit(".hyprland.switchout-check.lua");
    }
    let pieces = split_by(&tv, &marker);
    let last = &pieces[pieces.len() - 1];
    assert(views(pieces@).last() == last@);
    let (a, b) = trim_bounds(last);
    let details = slice_vec(last, a, b);
    let parts = split_by(&details, &scratch);
    let ghost ps = views(parts@);
    let mut out = String::new();
    let mut k: usize = 0;
    assert(ps.take(0) =~= Seq::<Seq<char>>::empty());
    while k < parts.len()
        invariant
            k <= parts@.len(),
            ps == views(parts@),
            out@ == join(ps.take(k as int), "hyprland.lua"@),
        decreases parts.len() - k,
    {
        if k > 0 {
            out.append("hyprland.lua");
        }
        let ghost before = out@;
        out.append(string_of(&parts[k]).as_str());
        proof {
            let t = ps.take(k + 1);
            assert(t.drop_last() =~= ps.take(k as int));
            assert(t.last() == parts@[k as int]@);
            if k == 0 {
                assert(join(t, "hyprland.lua"@) == t[0]);
                assert(out@ =~= t[0]);
            } else {
                assert(out@ =~= join(t, "hyprland.lua"@));
            }
        }
        k = k + 1;
    }
    assert(ps.take(k as int) =~= ps);
    Some(out)
}

} // verus!
