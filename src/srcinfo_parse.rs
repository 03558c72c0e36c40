//! The package-description format: `key = value` lines, a `pkgbase` that
//! opens a group, and `pkgname` sub-packages that inherit from it.

use itertools::Itertools;
use vstd::prelude::*;
use crate::text::{chars_eq_str, chars_of, find_char, first_of, string_between, trim, trim_bounds};

verus! {

/// A property list: each key with its values, in the order keys first appeared.
pub type PropList = Seq<(Seq<char>, Seq<Seq<char>>)>;

pub open spec fn strs_view(v: Seq<String>) -> Seq<Seq<char>> {
    v.map_values(|s: String| s@)
}

pub open spec fn props_view(p: Seq<(String, Vec<String>)>) -> PropList {
    p.map_values(|e: (String, Vec<String>)| (e.0@, strs_view(e.1@)))
}

pub open spec fn has_key(ps: PropList, k: Seq<char>) -> bool {
    exists|i: int| 0 <= i < ps.len() && #[trigger] ps[i].0 == k
}

pub open spec fn is_first_key(ps: PropList, k: Seq<char>, i: int) -> bool {
    &&& 0 <= i < ps.len()
    &&& ps[i].0 == k
    &&& forall|j: int| 0 <= j < i ==> #[trigger] ps[j].0 != k
}

/// Where `k` first stands in `ps`.
pub open spec fn key_pos(ps: PropList, k: Seq<char>) -> int {
    choose|i: int| is_first_key(ps, k, i)
}

/// The values under `k`, if `k` is a key of `ps`.
pub open spec fn lookup(ps: PropList, k: Seq<char>) -> Option<Seq<Seq<char>>> {
    if has_key(ps, k) {
        Some(ps[key_pos(ps, k)].1)
    } else {
        None
    }
}

pub open spec fn with_value(vals: Seq<Seq<char>>, v: Seq<char>) -> Seq<Seq<char>> {
    if v.len() > 0 {
        vals.push(v)
    } else {
        vals
    }
}

/// `ps` after a `k = v` line: `v` joins the values of `k`, and an empty `v`
/// only makes sure that `k` is present.
pub open spec fn add_value(ps: PropList, k: Seq<char>, v: Seq<char>) -> PropList {
    if has_key(ps, k) {
        let i = key_pos(ps, k);
        ps.update(i, (k, with_value(ps[i].1, v)))
    } else {
        ps.push((k, with_value(Seq::empty(), v)))
    }
}

/// `dst` with each entry of `src` whose key `dst` lacks appended: what a
/// sub-package inherits from its base.
pub open spec fn merged(dst: PropList, src: PropList) -> PropList
    decreases src.len(),
{
    if src.len() == 0 {
        dst
    } else {
        let m = merged(dst, src.drop_last());
        if has_key(m, src.last().0) {
            m
        } else {
            m.push(src.last())
        }
    }
}

pub proof fn lemma_first_key_is_pos(ps: PropList, k: Seq<char>, i: int)
    requires
        is_first_key(ps, k, i),
    ensures
        has_key(ps, k),
        key_pos(ps, k) == i,
        lookup(ps, k) == Some(ps[i].1),
{
    let j = key_pos(ps, k);
    assert(is_first_key(ps, k, j));
    if j < i {
        assert(ps[j].0 != k);
    } else if i < j {
        assert(ps[i].0 != k);
    }
}

proof fn lemma_props_view_update(p: Seq<(String, Vec<String>)>, i: int, e: (String, Vec<String>))
    requires
        0 <= i < p.len(),
    ensures
        props_view(p.update(i, e)) == props_view(p).update(i, (e.0@, strs_view(e.1@))),
{
    assert(props_view(p.update(i, e)) =~= props_view(p).update(i, (e.0@, strs_view(e.1@))));
}

proof fn lemma_props_view_push(p: Seq<(String, Vec<String>)>, e: (String, Vec<String>))
    ensures
        props_view(p.push(e)) == props_view(p).push((e.0@, strs_view(e.1@))),
{
    assert(props_view(p.push(e)) =~= props_view(p).push((e.0@, strs_view(e.1@))));
}

/// The index of the first entry of `props` under `key`.
fn find_key(props: &Vec<(String, Vec<String>)>, key: &String) -> (r: Option<usize>)
    ensures
        match r {
            Some(i) => is_first_key(props_view(props@), key@, i as int),
            None => !has_key(props_view(props@), key@),
        },
{
    let ghost ps = props_view(props@);
    let mut i: usize = 0;
    while i < props.len()
        invariant
            i <= props@.len(),
            ps == props_view(props@),
            forall|j: int| 0 <= j < i ==> #[trigger] ps[j].0 != key@,
        decreases props@.len() - i,
    {
        if props[i].0 == *key {
            return Some(i);
        }
        i = i + 1;
    }
    None
}

/// Adds `value` under `key` as a `key = value` line does.
fn add_prop(props: &mut Vec<(String, Vec<String>)>, key: String, value: String)
    ensures
        props_view(final(props)@) == add_value(props_view(old(props)@), key@, value@),
{
    let ghost ps = props_view(props@);
    let has_value = value.as_str().unicode_len() > 0;
    match find_key(props, &key) {
        Some(i) => {
            proof {
                lemma_first_key_is_pos(ps, key@, i as int);
            }
            let mut entry: (String, Vec<String>) = (String::new(), Vec::new());
            props.set_and_swap(i, &mut entry);
            let ghost before = entry.1@;
            if has_value {
                entry.1.push(value);
                assert(strs_view(entry.1@) =~= strs_view(before).push(value@));
            }
            let ghost mid = props@;
            props.set(i, (key, entry.1));
            proof {
                lemma_props_view_update(mid, i as int, props@[i as int]);
                assert(mid.update(i as int, props@[i as int]) =~= props@);
            }
        },
        None => {
            let mut vals: Vec<String> = Vec::new();
            if has_value {
                vals.push(value);
            }
            assert(strs_view(vals@) =~= with_value(Seq::empty(), value@));
            let ghost old_props = props@;
            props.push((key, vals));
            proof {
                lemma_props_view_push(old_props, (key, vals));
            }
        },
    }
}

/// Gives `dst` each entry of `src` whose key it lacks; entries it has stay.
pub fn merge_props(dst: &mut Vec<(String, Vec<String>)>, src: &Vec<(String, Vec<String>)>)
    ensures
        props_view(final(dst)@) == merged(props_view(old(dst)@), props_view(src@)),
{
    let ghost d0 = props_view(dst@);
    let ghost s = props_view(src@);
    let mut i: usize = 0;
    while i < src.len()
        invariant
            i <= src@.len(),
            s == props_view(src@),
            props_view(dst@) == merged(d0, s.subrange(0, i as int)),
        decreases src@.len() - i,
    {
        assert(s.subrange(0, i + 1).drop_last() =~= s.subrange(0, i as int));
        match find_key(dst, &src[i].0) {
            Some(j) => {
                proof {
                    lemma_first_key_is_pos(props_view(dst@), src@[i as int].0@, j as int);
                }
            },
            None => {
                let e = (src[i].0.clone(), src[i].1.clone());
                assert(e.1@ =~= src@[i as int].1@);
                let ghost old_dst = dst@;
                dst.push(e);
                proof {
                    lemma_props_view_push(old_dst, e);
                }
            },
        }
        i = i + 1;
    }
    assert(s.subrange(0, src@.len() as int) =~= s);
}

} // verus!

verus! {

/// One package of a description.
#[derive(Debug, Clone, PartialEq, Eq)]
pub struct ParsedSrcInfo {
    pub pkgbase: String,
    pub pkgname: String,
    /// Each property with its values, each key once (`parse` ensures it), in
    /// the order keys first appeared.
    pub properties: Vec<(String, Vec<String>)>,
}

pub struct SrcInfoView {
    pub pkgbase: Seq<char>,
    pub pkgname: Seq<char>,
    pub props: PropList,
}

impl View for ParsedSrcInfo {
    type V = SrcInfoView;

    open spec fn view(&self) -> SrcInfoView {
        SrcInfoView {
            pkgbase: self.pkgbase@,
            pkgname: self.pkgname@,
            props: props_view(self.properties@),
        }
    }
}

pub open spec fn pkgs_view(v: Seq<ParsedSrcInfo>) -> Seq<SrcInfoView> {
    v.map_values(|p: ParsedSrcInfo| p@)
}

/// Where the parser stands between two lines.
pub enum ParseState {
    NoBase,
    InBase { base: Seq<char>, props: PropList },
    InPackage { base: Seq<char>, base_props: PropList, pkg: SrcInfoView },
}

/// A sub-package as it is emitted: with what it inherits from its base.
pub open spec fn flushed(pkg: SrcInfoView, base_props: PropList) -> SrcInfoView {
    SrcInfoView { pkgbase: pkg.pkgbase, pkgname: pkg.pkgname, props: merged(pkg.props, base_props) }
}

pub open spec fn fresh_pkg(base: Seq<char>, name: Seq<char>) -> SrcInfoView {
    SrcInfoView { pkgbase: base, pkgname: name, props: Seq::empty() }
}

/// The parser after the entry `key = value`.
pub open spec fn on_entry(
    st: ParseState,
    out: Seq<SrcInfoView>,
    key: Seq<char>,
    value: Seq<char>,
) -> (ParseState, Seq<SrcInfoView>) {
    if key == "pkgbase"@ {
        let out2 = match st {
            ParseState::InPackage { base_props, pkg, .. } => out.push(flushed(pkg, base_props)),
            _ => out,
        };
        (ParseState::InBase { base: value, props: Seq::empty() }, out2)
    } else if key == "pkgname"@ {
        match st {
            ParseState::NoBase => (st, out),
            ParseState::InBase { base, props } => (
                ParseState::InPackage { base, base_props: props, pkg: fresh_pkg(base, value) },
                out,
            ),
            ParseState::InPackage { base, base_props, pkg } => (
                ParseState::InPackage { base, base_props, pkg: fresh_pkg(base, value) },
                out.push(flushed(pkg, base_props)),
            ),
        }
    } else {
        match st {
            ParseState::NoBase => (st, out),
            ParseState::InBase { base, props } => (
                ParseState::InBase { base, props: add_value(props, key, value) },
                out,
            ),
            ParseState::InPackage { base, base_props, pkg } => (
                ParseState::InPackage {
                    base,
                    base_props,
                    pkg: SrcInfoView {
                        pkgbase: pkg.pkgbase,
                        pkgname: pkg.pkgname,
                        props: add_value(pkg.props, key, value),
                    },
                },
                out,
            ),
        }
    }
}

/// The parser after one line: a trimmed line is `key = value` at its first
/// `=`, with both sides trimmed; a line without `=` changes nothing.
pub open spec fn on_line(st: ParseState, out: Seq<SrcInfoView>, line: Seq<char>) -> (
    ParseState,
    Seq<SrcInfoView>,
) {
    let l = trim(line);
    let e = first_of(l, '=');
    if e < l.len() {
        on_entry(st, out, trim(l.subrange(0, e)), trim(l.subrange(e + 1, l.len() as int)))
    } else {
        (st, out)
    }
}

/// `s` cut at each line feed.
pub open spec fn lines_of(s: Seq<char>) -> Seq<Seq<char>>
    decreases s.len(),
{
    let i = first_of(s, '\n');
    if 0 <= i < s.len() {
        seq![s.subrange(0, i)] + lines_of(s.subrange(i + 1, s.len() as int))
    } else {
        seq![s]
    }
}

pub open spec fn run(st: (ParseState, Seq<SrcInfoView>), lines: Seq<Seq<char>>) -> (
    ParseState,
    Seq<SrcInfoView>,
)
    decreases lines.len(),
{
    if lines.len() == 0 {
        st
    } else {
        run(on_line(st.0, st.1, lines[0]), lines.drop_first())
    }
}

/// The packages once the input ends: an open sub-package is emitted, and a
/// base that gave none stands for one package of its own name.
pub open spec fn finish(st: ParseState, out: Seq<SrcInfoView>) -> Seq<SrcInfoView> {
    match st {
        ParseState::NoBase => out,
        ParseState::InBase { base, props } => if out.len() == 0 {
            seq![SrcInfoView { pkgbase: base, pkgname: base, props }]
        } else {
            out
        },
        ParseState::InPackage { base_props, pkg, .. } => out.push(flushed(pkg, base_props)),
    }
}

/// The packages that a description text declares.
pub open spec fn parse_spec(text: Seq<char>) -> Seq<SrcInfoView> {
    let st = run((ParseState::NoBase, Seq::empty()), lines_of(text));
    finish(st.0, st.1)
}

struct PkgBase {
    pkgbase: String,
    properties: Vec<(String, Vec<String>)>,
}

enum Cursor {
    NoBase,
    InBase(PkgBase),
    InPackage(PkgBase, ParsedSrcInfo),
}

impl View for Cursor {
    type V = ParseState;

    closed spec fn view(&self) -> ParseState {
        match self {
            Cursor::NoBase => ParseState::NoBase,
            Cursor::InBase(b) => ParseState::InBase {
                base: b.pkgbase@,
                props: props_view(b.properties@),
            },
            Cursor::InPackage(b, p) => ParseState::InPackage {
                base: b.pkgbase@,
                base_props: props_view(b.properties@),
                pkg: p@,
            },
        }
    }
}

fn flush(pkg: ParsedSrcInfo, base: &PkgBase) -> (r: ParsedSrcInfo)
    ensures
        r@ == flushed(pkg@, props_view(base.properties@)),
{
    let mut pkg = pkg;
    merge_props(&mut pkg.properties, &base.properties);
    pkg
}

fn push_pkg(out: &mut Vec<ParsedSrcInfo>, p: ParsedSrcInfo)
    ensures
        pkgs_view(final(out)@) == pkgs_view(old(out)@).push(p@),
{
    out.push(p);
    assert(pkgs_view(out@) =~= pkgs_view(old(out)@).push(p@));
}

#[verifier::spinoff_prover]
fn apply_entry(
    cursor: Cursor,
    out: &mut Vec<ParsedSrcInfo>,
    key: String,
    value: String,
    key_is_base: bool,
    key_is_name: bool,
) -> (r: Cursor)
    requires
        key_is_base == (key@ == "pkgbase"@),
        key_is_name == (key@ == "pkgname"@),
    ensures
        (r@, pkgs_view(final(out)@)) == on_entry(cursor@, pkgs_view(old(out)@), key@, value@),
{
    assert(props_view(Seq::empty()) =~= PropList::empty());
    if key_is_base {
        match cursor {
            Cursor::InPackage(b, p) => {
                push_pkg(out, flush(p, &b));
            },
            _ => {},
        }
        Cursor::InBase(PkgBase { pkgbase: value, properties: Vec::new() })
    } else if key_is_name {
        match cursor {
            Cursor::NoBase => Cursor::NoBase,
            Cursor::InBase(b) => {
                let p = ParsedSrcInfo {
                    pkgbase: b.pkgbase.clone(),
                    pkgname: value,
                    properties: Vec::new(),
                };
                Cursor::InPackage(b, p)
            },
            Cursor::InPackage(b, p) => {
                push_pkg(out, flush(p, &b));
                let q = ParsedSrcInfo {
                    pkgbase: b.pkgbase.clone(),
                    pkgname: value,
                    properties: Vec::new(),
                };
                Cursor::InPackage(b, q)
            },
        }
    } else {
        match cursor {
            Cursor::NoBase => Cursor::NoBase,
            Cursor::InBase(b) => {
                let mut b = b;
                add_prop(&mut b.properties, key, value);
                Cursor::InBase(b)
            },
            Cursor::InPackage(b, p) => {
                let mut p = p;
                add_prop(&mut p.properties, key, value);
                Cursor::InPackage(b, p)
            },
        }
    }
}

#[verifier::spinoff_prover]
fn apply_line(
    text: &str,
    v: &Vec<char>,
    lo: usize,
    hi: usize,
    cursor: Cursor,
    out: &mut Vec<ParsedSrcInfo>,
) -> (r: Cursor)
    requires
        lo <= hi <= v@.len(),
        v@ == text@,
    ensures
        (r@, pkgs_view(final(out)@)) == on_line(
            cursor@,
            pkgs_view(old(out)@),
            v@.subrange(lo as int, hi as int),
        ),
{
    let (a, b) = trim_bounds(v, lo, hi, false);
    let ghost l = v@.subrange(a as int, b as int);
    let e = find_char(v, a, b, '=');
    if e == b {
        return cursor;
    }
    let (ka, kb) = trim_bounds(v, a, e, false);
    let (va, vb) = trim_bounds(v, e + 1, b, false);
    assert(v@.subrange(a as int, e as int) =~= l.subrange(0, e - a));
    assert(v@.subrange(e + 1, b as int) =~= l.subrange(e - a + 1, l.len() as int));
    let key = string_between(text, ka, kb);
    let value = string_between(text, va, vb);
    let key_is_base = chars_eq_str(v, ka, kb, "pkgbase");
    let key_is_name = chars_eq_str(v, ka, kb, "pkgname");
    apply_entry(cursor, out, key, value, key_is_base, key_is_name)
}

impl ParsedSrcInfo {
    /// Parses a description text into its packages.
    #[verifier::spinoff_prover]
    pub fn parse(srcinfo_text: &str) -> (r: Vec<ParsedSrcInfo>)
        ensures
            pkgs_view(r@) == parse_spec(srcinfo_text@),
            forall|i: int| 0 <= i < r@.len() ==> keys_distinct(#[trigger] r@[i]@.props),
    {
        let v = chars_of(srcinfo_text);
        let n = v.len();
        let mut out: Vec<ParsedSrcInfo> = Vec::new();
        let mut cursor = Cursor::NoBase;
        let mut pos: usize = 0;
        let ghost init = (ParseState::NoBase, Seq::<SrcInfoView>::empty());
        assert(pkgs_view(out@) =~= Seq::<SrcInfoView>::empty());
        assert(v@.subrange(0, n as int) =~= v@);
        loop
            invariant_except_break
                run((cursor@, pkgs_view(out@)), lines_of(v@.subrange(pos as int, n as int))) == run(
                    init,
                    lines_of(v@),
                ),
            invariant
                pos <= n,
                n == v@.len(),
                v@ == srcinfo_text@,
            ensures
                (cursor@, pkgs_view(out@)) == run(init, lines_of(v@)),
            decreases n - pos,
        {
            let j = find_char(&v, pos, n, '\n');
            let ghost rest = v@.subrange(pos as int, n as int);
            let ghost line = v@.subrange(pos as int, j as int);
            let ghost st0 = (cursor@, pkgs_view(out@));
            proof {
                if j < n {
                    assert(rest.subrange(0, j - pos) =~= line);
                    assert(rest.subrange(j - pos + 1, rest.len() as int) =~= v@.subrange(
                        j + 1,
                        n as int,
                    ));
                    let ls = lines_of(rest);
                    assert(ls == seq![line] + lines_of(v@.subrange(j + 1, n as int)));
                    assert(ls.drop_first() =~= lines_of(v@.subrange(j + 1, n as int)));
                } else {
                    assert(rest =~= line);
                    assert(lines_of(rest) == seq![line]);
                    assert(lines_of(rest).drop_first() =~= Seq::<Seq<char>>::empty());
                }
            }
            cursor = apply_line(srcinfo_text, &v, pos, j, cursor, &mut out);
            proof {
                let ls = lines_of(rest);
                assert(run(st0, ls) == run(on_line(st0.0, st0.1, line), ls.drop_first()));
            }
            if j == n {
                break;
            }
            pos = j + 1;
        }
        match cursor {
            Cursor::NoBase => {},
            Cursor::InBase(b) => {
                if out.len() == 0 {
                    let p = ParsedSrcInfo {
                        pkgname: b.pkgbase.clone(),
                        pkgbase: b.pkgbase,
                        properties: b.properties,
                    };
                    push_pkg(&mut out, p);
                }
            },
            Cursor::InPackage(b, p) => {
                push_pkg(&mut out, flush(p, &b));
            },
        }
        proof {
            lemma_parse_keys_distinct(srcinfo_text@);
            assert(pkgs_view(out@) == parse_spec(srcinfo_text@));
        }
        assert forall|i: int| 0 <= i < out@.len() implies keys_distinct(#[trigger] out@[i]@.props) by {
            assert(pkgs_view(out@)[i] == out@[i]@);
            assert(keys_distinct(parse_spec(srcinfo_text@)[i].props));
        }
        out
    }
}

} // verus!

verus! {

/// The order of `String`: code point by code point, a proper prefix first
/// (UTF-8 keeps the order of code points, so this is the order of the bytes).
pub open spec fn str_lt(a: Seq<char>, b: Seq<char>) -> bool
    decreases a.len(),
{
    if a.len() == 0 {
        b.len() > 0
    } else if b.len() == 0 {
        false
    } else if a[0] != b[0] {
        a[0] < b[0]
    } else {
        str_lt(a.drop_first(), b.drop_first())
    }
}

pub proof fn lemma_str_lt_total(a: Seq<char>, b: Seq<char>)
    requires
        a != b,
    ensures
        str_lt(a, b) || str_lt(b, a),
    decreases a.len(),
{
    if a.len() > 0 && b.len() > 0 && a[0] == b[0] {
        if a.drop_first() == b.drop_first() {
            assert(a =~= seq![a[0]] + a.drop_first());
            assert(b =~= seq![b[0]] + b.drop_first());
        }
        lemma_str_lt_total(a.drop_first(), b.drop_first());
    } else if a.len() == 0 && b.len() == 0 {
        assert(a =~= b);
    }
}

/// `s` with each run of equal neighbours cut to one element.
pub open spec fn dedup_runs(s: Seq<Seq<char>>) -> Seq<Seq<char>>
    decreases s.len(),
{
    if s.len() <= 1 {
        s
    } else if s.last() == s[s.len() - 2] {
        dedup_runs(s.drop_last())
    } else {
        dedup_runs(s.drop_last()).push(s.last())
    }
}

pub open spec fn sorted_le(s: Seq<Seq<char>>) -> bool {
    forall|i: int, j: int| 0 <= i < j < s.len() ==> !str_lt(#[trigger] s[j], #[trigger] s[i])
}

pub open spec fn sorted_lt(s: Seq<Seq<char>>) -> bool {
    forall|i: int, j: int| 0 <= i < j < s.len() ==> str_lt(#[trigger] s[i], #[trigger] s[j])
}

#[verifier::spinoff_prover]
proof fn lemma_dedup_runs(s: Seq<Seq<char>>)
    ensures
        forall|x: Seq<char>| dedup_runs(s).contains(x) <==> s.contains(x),
        s.len() > 0 ==> dedup_runs(s).len() > 0 && dedup_runs(s).last() == s.last(),
        sorted_le(s) ==> sorted_lt(dedup_runs(s)),
    decreases s.len(),
{
    if s.len() > 1 {
        let t = s.drop_last();
        let d = dedup_runs(t);
        lemma_dedup_runs(t);
        assert forall|x: Seq<char>| s.contains(x) <==> (t.contains(x) || x == s.last()) by {
            if s.contains(x) {
                let i = choose|i: int| 0 <= i < s.len() && s[i] == x;
                if i < s.len() - 1 {
                    assert(t[i] == x);
                }
            }
            if t.contains(x) {
                let i = choose|i: int| 0 <= i < t.len() && t[i] == x;
                assert(s[i] == x);
            }
            if x == s.last() {
                assert(s[s.len() - 1] == x);
            }
        }
        if s.last() == s[s.len() - 2] {
            assert(t.contains(s.last()) && t.last() == s.last());
        } else {
            let r = d.push(s.last());
            assert forall|x: Seq<char>| r.contains(x) <==> (d.contains(x) || x == s.last()) by {
                if r.contains(x) {
                    let i = choose|i: int| 0 <= i < r.len() && r[i] == x;
                    if i < d.len() {
                        assert(d[i] == x);
                    }
                }
                if d.contains(x) {
                    let i = choose|i: int| 0 <= i < d.len() && d[i] == x;
                    assert(r[i] == x);
                }
                if x == s.last() {
                    assert(r[r.len() - 1] == x);
                }
            }
            if sorted_le(s) {
                assert(sorted_le(t)) by {
                    assert forall|i: int, j: int| 0 <= i < j < t.len() implies !str_lt(
                        t[j],
                        t[i],
                    ) by {
                        assert(t[i] == s[i] && t[j] == s[j]);
                    }
                }
                assert forall|i: int, j: int| 0 <= i < j < r.len() implies str_lt(
                    r[i],
                    r[j],
                ) by {
                    if j < d.len() {
                        assert(r[i] == d[i] && r[j] == d[j]);
                    } else {
                        let x = d[i];
                        assert(d.contains(x));
                        assert(t.contains(x));
                        let m = choose|m: int| 0 <= m < t.len() && t[m] == x;
                        let n = s.len() - 1;
                        assert(s[m] == x);
                        assert(!str_lt(s[n], s[m]));
                        if x == s.last() {
                            assert(!str_lt(s[n - 1], s[m]));
                            assert(!str_lt(s[m], s[n - 1])) by {
                                if m < n - 1 {
                                    assert(!str_lt(s[n], s[n - 1]));
                                }
                            }
                            if s[m] != s[n - 1] {
                                lemma_str_lt_total(s[m], s[n - 1]);
                            }
                        } else {
                            lemma_str_lt_total(x, s.last());
                        }
                    }
                }
            }
        }
    }
}

/// Relies on `Itertools::sorted_unstable`: the same items, in the ascending
/// order of `String`.
#[verifier::external_body]
fn sorted_strings(v: Vec<String>) -> (r: Vec<String>)
    ensures
        strs_view(r@).to_multiset() == strs_view(v@).to_multiset(),
        sorted_le(strs_view(r@)),
{
    v.into_iter().sorted_unstable().collect()
}

/// Relies on `Itertools::dedup`: each run of equal neighbours becomes one item.
#[verifier::external_body]
fn dedup_strings(v: Vec<String>) -> (r: Vec<String>)
    ensures
        strs_view(r@) == dedup_runs(strs_view(v@)),
{
    v.into_iter().dedup().collect()
}

/// The first value under `k`, where `k` has one.
pub open spec fn first_value(ps: PropList, k: Seq<char>) -> Option<Seq<char>> {
    match lookup(ps, k) {
        Some(vals) => if vals.len() > 0 {
            Some(vals[0])
        } else {
            None
        },
        None => None,
    }
}

/// `key` is `k` itself or `k` with an architecture suffix (`k_x86_64`).
pub open spec fn is_arch_key(key: Seq<char>, k: Seq<char>) -> bool {
    ||| key == k
    ||| (key.len() > k.len() && key.subrange(0, k.len() as int) == k && key[k.len() as int] == '_')
}

/// `x` is a value under `k` or under one of its architecture variants.
pub open spec fn arch_value(ps: PropList, k: Seq<char>, x: Seq<char>) -> bool {
    exists|i: int| 0 <= i < ps.len() && is_arch_key(ps[i].0, k) && #[trigger] ps[i].1.contains(x)
}

pub open spec fn or_default(o: Option<Seq<char>>, d: Seq<char>) -> Seq<char> {
    match o {
        Some(s) => s,
        None => d,
    }
}

/// `pkgver-pkgrel`, after `epoch:` where an epoch is given; a missing
/// `pkgver` reads `0.0.1` and a missing `pkgrel` reads `1`.
pub open spec fn version_of(ps: PropList) -> Seq<char> {
    let core = or_default(first_value(ps, "pkgver"@), "0.0.1"@) + "-"@ + or_default(
        first_value(ps, "pkgrel"@),
        "1"@,
    );
    match first_value(ps, "epoch"@) {
        Some(e) => e + ":"@ + core,
        None => core,
    }
}

/// Whether `a` starts with `b`.
fn has_prefix(a: &Vec<char>, b: &Vec<char>) -> (r: bool)
    ensures
        r == (b@.len() <= a@.len() && a@.subrange(0, b@.len() as int) == b@),
{
    if b.len() > a.len() {
        return false;
    }
    let mut i: usize = 0;
    while i < b.len()
        invariant
            i <= b@.len() <= a@.len(),
            forall|j: int| 0 <= j < i ==> a@[j] == b@[j],
        decreases b@.len() - i,
    {
        if a[i] != b[i] {
            assert(a@.subrange(0, b@.len() as int)[i as int] != b@[i as int]);
            return false;
        }
        i = i + 1;
    }
    assert(a@.subrange(0, b@.len() as int) =~= b@);
    true
}

impl ParsedSrcInfo {
    /// The first value of property `k`.
    pub fn first_prop(&self, k: &str) -> (r: Option<&str>)
        ensures
            match r {
                Some(s) => first_value(self@.props, k@) == Some(s@),
                None => first_value(self@.props, k@) is None,
            },
    {
        let key = String::from_str(k);
        match find_key(&self.properties, &key) {
            Some(i) => {
                proof {
                    lemma_first_key_is_pos(props_view(self.properties@), k@, i as int);
                }
                if self.properties[i].1.len() > 0 {
                    Some(self.properties[i].1[0].as_str())
                } else {
                    None
                }
            },
            None => None,
        }
    }

    /// All values of property `k`; none where it is absent.
    pub fn prop(&self, k: &str) -> (r: Vec<String>)
        ensures
            strs_view(r@) == match lookup(self@.props, k@) {
                Some(vals) => vals,
                None => Seq::empty(),
            },
    {
        let key = String::from_str(k);
        match find_key(&self.properties, &key) {
            Some(i) => {
                proof {
                    lemma_first_key_is_pos(props_view(self.properties@), k@, i as int);
                }
                let r = self.properties[i].1.clone();
                assert(r@ =~= self.properties@[i as int].1@);
                r
            },
            None => {
                let r: Vec<String> = Vec::new();
                assert(strs_view(r@) =~= Seq::empty());
                r
            },
        }
    }

    /// The values of `k` and of all its architecture variants together, each
    /// once, in ascending order.
    #[verifier::spinoff_prover]
    pub fn flatten_arch_prop(&self, k: &str) -> (r: Vec<String>)
        ensures
            forall|x: Seq<char>| strs_view(r@).contains(x) <==> arch_value(self@.props, k@, x),
            sorted_lt(strs_view(r@)),
    {
        let ghost ps = self@.props;
        let kc = chars_of(k);
        let mut all: Vec<String> = Vec::new();
        let mut i: usize = 0;
        while i < self.properties.len()
            invariant
                i <= self.properties@.len(),
                ps == props_view(self.properties@),
                kc@ == k@,
                forall|x: Seq<char>|
                    strs_view(all@).contains(x) <==> exists|m: int|
                        0 <= m < i && is_arch_key(ps[m].0, k@) && #[trigger] ps[m].1.contains(x),
            decreases self.properties@.len() - i,
        {
            let ec = chars_of(self.properties[i].0.as_str());
            let pre = has_prefix(&ec, &kc);
            let n = kc.len();
            let matches = pre && (ec.len() == n || (ec.len() > n && ec[n] == '_'));
            proof {
                if ec@.len() == n && pre {
                    assert(ec@ =~= ec@.subrange(0, n as int));
                }
                if ec@ == kc@ {
                    assert(ec@.subrange(0, n as int) =~= ec@);
                }
            }
            assert(matches == is_arch_key(ps[i as int].0, k@));
            let ghost before = all@;
            if matches {
                let mut vals = self.properties[i].1.clone();
                assert(vals@ =~= self.properties@[i as int].1@);
                all.append(&mut vals);
                assert(strs_view(all@) =~= strs_view(before) + ps[i as int].1);
            }
            assert forall|x: Seq<char>|
                strs_view(all@).contains(x) <==> exists|m: int|
                    0 <= m < i + 1 && is_arch_key(ps[m].0, k@) && #[trigger] ps[m].1.contains(
                        x,
                    ) by {
                let sa = strs_view(all@);
                let sb = strs_view(before);
                if matches {
                    let extra = ps[i as int].1;
                    if sa.contains(x) {
                        let j = choose|j: int| 0 <= j < sa.len() && sa[j] == x;
                        if j >= sb.len() {
                            assert(extra[j - sb.len()] == x);
                        } else {
                            assert(sb[j] == x);
                        }
                    }
                    if extra.contains(x) {
                        let j = choose|j: int| 0 <= j < extra.len() && extra[j] == x;
                        assert(sa[sb.len() + j] == x);
                    }
                    if sb.contains(x) {
                        let j = choose|j: int| 0 <= j < sb.len() && sb[j] == x;
                        assert(sa[j] == x);
                    }
                }
            }
            i = i + 1;
        }
        let sorted = sorted_strings(all);
        let r = dedup_strings(sorted);
        proof {
            broadcast use vstd::seq_lib::group_to_multiset_ensures;

            lemma_dedup_runs(strs_view(sorted@));
            assert forall|x: Seq<char>| strs_view(sorted@).contains(x) <==> strs_view(
                all@,
            ).contains(x) by {
                assert(strs_view(sorted@).to_multiset().count(x) == strs_view(
                    all@,
                ).to_multiset().count(x));
            }
            assert forall|x: Seq<char>| strs_view(r@).contains(x) <==> arch_value(
                self@.props,
                k@,
                x,
            ) by {
                assert(strs_view(r@).contains(x) <==> strs_view(sorted@).contains(x));
                assert(strs_view(all@).contains(x) <==> exists|m: int|
                    0 <= m < ps.len() && is_arch_key(ps[m].0, k@) && #[trigger] ps[m].1.contains(
                        x,
                    ));
            }
        }
        r
    }

    /// The full version string: `epoch:pkgver-pkgrel`.
    pub fn version(&self) -> (r: String)
        ensures
            r@ == version_of(self@.props),
    {
        let epoch = self.first_prop("epoch");
        let pkgver = match self.first_prop("pkgver") {
            Some(v) => v,
            None => "0.0.1",
        };
        let pkgrel = match self.first_prop("pkgrel") {
            Some(v) => v,
            None => "1",
        };
        let core = String::from_str(pkgver).concat("-").concat(pkgrel);
        match epoch {
            Some(e) => String::from_str(e).concat(":").concat(core.as_str()),
            None => core,
        }
    }
}

} // verus!

verus! {

#[verifier::spinoff_prover]
proof fn lemma_has_first_key(ps: PropList, k: Seq<char>)
    requires
        has_key(ps, k),
    ensures
        is_first_key(ps, k, key_pos(ps, k)),
    decreases ps.len(),
{
    let t = ps.drop_last();
    if has_key(t, k) {
        lemma_has_first_key(t, k);
        let i = key_pos(t, k);
        assert(t[i] == ps[i]);
        assert forall|j: int| 0 <= j < i implies #[trigger] ps[j].0 != k by {
            assert(t[j] == ps[j]);
        }
        assert(is_first_key(ps, k, i));
        lemma_first_key_is_pos(ps, k, i);
    } else {
        assert forall|j: int| 0 <= j < ps.len() - 1 implies #[trigger] ps[j].0 != k by {
            assert(t[j] == ps[j]);
        }
        let i = choose|i: int| 0 <= i < ps.len() && #[trigger] ps[i].0 == k;
        assert(is_first_key(ps, k, ps.len() - 1));
        lemma_first_key_is_pos(ps, k, ps.len() - 1);
    }
}

#[verifier::spinoff_prover]
proof fn lemma_lookup_push(ps: PropList, e: (Seq<char>, Seq<Seq<char>>), k: Seq<char>)
    ensures
        lookup(ps.push(e), k) == if has_key(ps, k) {
            lookup(ps, k)
        } else if e.0 == k {
            Some(e.1)
        } else {
            None
        },
        has_key(ps, k) <==> lookup(ps, k) is Some,
{
    let q = ps.push(e);
    if has_key(ps, k) {
        lemma_has_first_key(ps, k);
        let i = key_pos(ps, k);
        assert(q[i] == ps[i]);
        assert forall|j: int| 0 <= j < i implies #[trigger] q[j].0 != k by {
            assert(q[j] == ps[j]);
        }
        assert(is_first_key(q, k, i));
        lemma_first_key_is_pos(q, k, i);
    } else if e.0 == k {
        assert forall|j: int| 0 <= j < ps.len() implies #[trigger] q[j].0 != k by {
            assert(q[j] == ps[j]);
        }
        assert(is_first_key(q, k, ps.len() as int));
        lemma_first_key_is_pos(q, k, ps.len() as int);
    } else {
        assert forall|j: int| 0 <= j < q.len() implies #[trigger] q[j].0 != k by {
            if j < ps.len() {
                assert(q[j] == ps[j]);
            }
        }
    }
}

#[verifier::spinoff_prover]
proof fn lemma_merged_lookup(dst: PropList, src: PropList, k: Seq<char>)
    ensures
        lookup(merged(dst, src), k) == match lookup(dst, k) {
            Some(v) => Some(v),
            None => lookup(src, k),
        },
    decreases src.len(),
{
    if src.len() == 0 {
        assert(!has_key(src, k));
    } else {
        let s = src.drop_last();
        let l = src.last();
        let m = merged(dst, s);
        lemma_merged_lookup(dst, s, k);
        assert(src =~= s.push(l));
        lemma_lookup_push(s, l, k);
        lemma_lookup_push(m, l, k);
        lemma_lookup_push(dst, l, k);
        if has_key(m, l.0) {
            lemma_lookup_push(m, l, l.0);
        }
    }
}

/// Inheritance: a sub-package as it is emitted keeps its own values for each
/// key it defines, and takes the base's values only for keys it lacks.
pub proof fn lemma_sub_package_wins(pkg: SrcInfoView, base_props: PropList, k: Seq<char>)
    ensures
        lookup(flushed(pkg, base_props).props, k) == match lookup(pkg.props, k) {
            Some(v) => Some(v),
            None => lookup(base_props, k),
        },
{
    lemma_merged_lookup(pkg.props, base_props, k);
}

} // verus!

verus! {

/// No key stands twice in `ps`: a property list is a map.
pub open spec fn keys_distinct(ps: PropList) -> bool {
    forall|i: int, j: int| 0 <= i < j < ps.len() ==> #[trigger] ps[i].0 != #[trigger] ps[j].0
}

proof fn lemma_add_value_distinct(ps: PropList, k: Seq<char>, v: Seq<char>)
    requires
        keys_distinct(ps),
    ensures
        keys_distinct(add_value(ps, k, v)),
{
    let r = add_value(ps, k, v);
    if has_key(ps, k) {
        lemma_has_first_key(ps, k);
        assert forall|i: int, j: int| 0 <= i < j < r.len() implies #[trigger] r[i].0
            != #[trigger] r[j].0 by {
            assert(r[i].0 == ps[i].0 && r[j].0 == ps[j].0);
        }
    } else {
        assert forall|i: int, j: int| 0 <= i < j < r.len() implies #[trigger] r[i].0
            != #[trigger] r[j].0 by {
            if j == ps.len() {
                assert(r[i] == ps[i]);
            } else {
                assert(r[i] == ps[i] && r[j] == ps[j]);
            }
        }
    }
}

proof fn lemma_merged_distinct(dst: PropList, src: PropList)
    requires
        keys_distinct(dst),
    ensures
        keys_distinct(merged(dst, src)),
    decreases src.len(),
{
    if src.len() > 0 {
        let m = merged(dst, src.drop_last());
        lemma_merged_distinct(dst, src.drop_last());
        let l = src.last();
        if !has_key(m, l.0) {
            let r = m.push(l);
            assert forall|i: int, j: int| 0 <= i < j < r.len() implies #[trigger] r[i].0
                != #[trigger] r[j].0 by {
                if j == m.len() {
                    assert(r[i] == m[i]);
                } else {
                    assert(r[i] == m[i] && r[j] == m[j]);
                }
            }
        }
    }
}

/// Every property list that the parser holds or has emitted is a map.
pub open spec fn parse_wf(st: (ParseState, Seq<SrcInfoView>)) -> bool {
    &&& forall|i: int| 0 <= i < st.1.len() ==> keys_distinct(#[trigger] st.1[i].props)
    &&& match st.0 {
        ParseState::NoBase => true,
        ParseState::InBase { props, .. } => keys_distinct(props),
        ParseState::InPackage { base_props, pkg, .. } => keys_distinct(base_props) && keys_distinct(
            pkg.props,
        ),
    }
}

proof fn lemma_push_wf(out: Seq<SrcInfoView>, p: SrcInfoView)
    requires
        forall|i: int| 0 <= i < out.len() ==> keys_distinct(#[trigger] out[i].props),
        keys_distinct(p.props),
    ensures
        forall|i: int| 0 <= i < out.push(p).len() ==> keys_distinct(#[trigger] out.push(p)[i].props),
{
    assert forall|i: int| 0 <= i < out.push(p).len() implies keys_distinct(
        #[trigger] out.push(p)[i].props,
    ) by {
        if i < out.len() {
            assert(out.push(p)[i] == out[i]);
        }
    }
}

proof fn lemma_on_line_wf(st: (ParseState, Seq<SrcInfoView>), line: Seq<char>)
    requires
        parse_wf(st),
    ensures
        parse_wf(on_line(st.0, st.1, line)),
{
    let l = trim(line);
    let e = first_of(l, '=');
    if e < l.len() {
        let key = trim(l.subrange(0, e));
        let value = trim(l.subrange(e + 1, l.len() as int));
        let out = st.1;
        assert(keys_distinct(PropList::empty()));
        match st.0 {
            ParseState::InPackage { base, base_props, pkg } => {
                lemma_merged_distinct(pkg.props, base_props);
                lemma_push_wf(out, flushed(pkg, base_props));
                lemma_add_value_distinct(pkg.props, key, value);
            },
            ParseState::InBase { base, props } => {
                lemma_add_value_distinct(props, key, value);
            },
            ParseState::NoBase => {},
        }
    }
}

proof fn lemma_run_wf(st: (ParseState, Seq<SrcInfoView>), lines: Seq<Seq<char>>)
    requires
        parse_wf(st),
    ensures
        parse_wf(run(st, lines)),
    decreases lines.len(),
{
    if lines.len() > 0 {
        lemma_on_line_wf(st, lines[0]);
        lemma_run_wf(on_line(st.0, st.1, lines[0]), lines.drop_first());
    }
}

/// Each package that a description declares has each property key once.
pub proof fn lemma_parse_keys_distinct(text: Seq<char>)
    ensures
        forall|i: int|
            0 <= i < parse_spec(text).len() ==> keys_distinct(#[trigger] parse_spec(text)[i].props),
{
    let init = (ParseState::NoBase, Seq::<SrcInfoView>::empty());
    lemma_run_wf(init, lines_of(text));
    let st = run(init, lines_of(text));
    match st.0 {
        ParseState::InPackage { base, base_props, pkg } => {
            lemma_merged_distinct(pkg.props, base_props);
            lemma_push_wf(st.1, flushed(pkg, base_props));
        },
        ParseState::InBase { base, props } => {
            if st.1.len() == 0 {
                let p = SrcInfoView { pkgbase: base, pkgname: base, props };
                lemma_push_wf(st.1, p);
                assert(seq![p] =~= st.1.push(p));
            }
        },
        ParseState::NoBase => {},
    }
}

} // verus!
