//! The markdown document model: frontmatter splitting, required-field
//! parsing, in-place upsert, and the frontmatter-selection policy used when
//! propagating a winner to a target.

use vstd::prelude::*;

verus! {

use crate::hash::{fnv64, hash_bytes};
use crate::text::{
    NL, CR, SPACE, line_end, lemma_line_end_bounds, strip_eol, trim_seq, trim_start_seq, trim_end_seq,
    is_space, is_prefix_of, strip_line_end, trim, trim_start_index, find_line_end, subrange_vec,
    append_slice, bytes_eq, starts_with,
};

/// The byte for `#`, which opens a comment line inside frontmatter.
pub const POUND: u8 = 0x23;

/// The delimiter line `---`.
pub open spec fn dashes3() -> Seq<u8> {
    seq![0x2du8, 0x2du8, 0x2du8]
}

/// The key prefix `name:`.
pub open spec fn tok_name() -> Seq<u8> {
    seq![0x6eu8, 0x61u8, 0x6du8, 0x65u8, 0x3au8]
}

/// The key prefix `description:`.
pub open spec fn tok_desc() -> Seq<u8> {
    seq![0x64u8, 0x65u8, 0x73u8, 0x63u8, 0x72u8, 0x69u8, 0x70u8, 0x74u8, 0x69u8, 0x6fu8, 0x6eu8, 0x3au8]
}

/// A rendered `name: <value>` line.
pub open spec fn name_line(n: Seq<u8>) -> Seq<u8> {
    tok_name() + seq![SPACE] + n + seq![NL]
}

/// A rendered `description: <value>` line.
pub open spec fn desc_line(d: Seq<u8>) -> Seq<u8> {
    tok_desc() + seq![SPACE] + d + seq![NL]
}

pub fn dashes3_vec() -> (r: Vec<u8>)
    ensures
        r@ == dashes3(),
{
    let mut v: Vec<u8> = Vec::new();
    v.push(0x2d);
    v.push(0x2d);
    v.push(0x2d);
    proof {
        assert(v@ =~= dashes3());
    }
    v
}

pub fn tok_name_vec() -> (r: Vec<u8>)
    ensures
        r@ == tok_name(),
{
    let mut v: Vec<u8> = Vec::new();
    v.push(0x6e);
    v.push(0x61);
    v.push(0x6d);
    v.push(0x65);
    v.push(0x3a);
    proof {
        assert(v@ =~= tok_name());
    }
    v
}

pub fn tok_desc_vec() -> (r: Vec<u8>)
    ensures
        r@ == tok_desc(),
{
    let mut v: Vec<u8> = Vec::new();
    v.push(0x64);
    v.push(0x65);
    v.push(0x73);
    v.push(0x63);
    v.push(0x72);
    v.push(0x69);
    v.push(0x70);
    v.push(0x74);
    v.push(0x69);
    v.push(0x6f);
    v.push(0x6e);
    v.push(0x3a);
    proof {
        assert(v@ =~= tok_desc());
    }
    v
}

/// The index just past the first closing `---` line at or after the line
/// start `i`, if any.
pub open spec fn fm_close_end(s: Seq<u8>, i: int) -> Option<int>
    decreases s.len() - i,
    when 0 <= i <= s.len()
    via fm_close_end_dec
{
    if i >= s.len() {
        None
    } else {
        let e = line_end(s, i);
        if strip_eol(s.subrange(i, e)) == dashes3() {
            Some(e)
        } else {
            fm_close_end(s, e)
        }
    }
}

#[via_fn]
proof fn fm_close_end_dec(s: Seq<u8>, i: int) {
    lemma_line_end_bounds(s, i);
}

/// The frontmatter block of `s`: the leading `---` line through the first
/// closing `---` line, or nothing when either delimiter is absent.
pub open spec fn split_fm(s: Seq<u8>) -> Option<Seq<u8>> {
    if s.len() == 0 {
        None
    } else {
        let e0 = line_end(s, 0);
        if strip_eol(s.subrange(0, e0)) != dashes3() {
            None
        } else {
            match fm_close_end(s, e0) {
                Some(e) => Some(s.take(e)),
                None => None,
            }
        }
    }
}

/// The body of `s`: whatever follows the frontmatter, or all of `s`.
pub open spec fn split_body(s: Seq<u8>) -> Seq<u8> {
    match split_fm(s) {
        Some(f) => s.skip(f.len() as int),
        None => s,
    }
}

/// Splitting never loses a byte: frontmatter and body rebuild the input.
pub proof fn lemma_split_rebuilds(s: Seq<u8>)
    ensures
        match split_fm(s) {
            Some(f) => f + split_body(s) == s,
            None => split_body(s) == s,
        },
{
    match split_fm(s) {
        Some(f) => {
            let e0 = line_end(s, 0);
            lemma_line_end_bounds(s, 0);
            lemma_fm_close_in_range(s, e0);
            assert(f + split_body(s) =~= s);
        },
        None => {},
    }
}

proof fn lemma_fm_close_in_range(s: Seq<u8>, i: int)
    requires
        0 <= i <= s.len(),
    ensures
        match fm_close_end(s, i) {
            Some(e) => i < e <= s.len(),
            None => true,
        },
    decreases s.len() - i,
{
    if i < s.len() {
        lemma_line_end_bounds(s, i);
        let e = line_end(s, i);
        if strip_eol(s.subrange(i, e)) != dashes3() {
            lemma_fm_close_in_range(s, e);
        }
    }
}

/// Split raw bytes into frontmatter and body.
pub fn split_frontmatter(raw: &[u8]) -> (r: (Option<Vec<u8>>, Vec<u8>))
    ensures
        match r.0 {
            Some(f) => split_fm(raw@) == Some(f@),
            None => split_fm(raw@) is None,
        },
        r.1@ == split_body(raw@),
{
    let dash: Vec<u8> = dashes3_vec();
    if raw.len() == 0 {
        let body: Vec<u8> = Vec::new();
        proof {
            assert(raw@ =~= body@);
        }
        return (None, body);
    }
    let e0: usize = find_line_end(raw, 0);
    let first_line: Vec<u8> = subrange_vec(raw, 0, e0);
    let first: Vec<u8> = strip_line_end(first_line.as_slice());
    proof {
        assert(raw@.subrange(0, e0 as int) == first_line@);
    }
    if !bytes_eq(first.as_slice(), dash.as_slice()) {
        return (None, subrange_vec(raw, 0, raw.len()));
    }
    let mut i: usize = e0;
    while i < raw.len()
        invariant
            0 <= i <= raw@.len(),
            raw@.len() > 0,
            dash@ == dashes3(),
            e0 == line_end(raw@, 0),
            0 <= e0 <= raw@.len(),
            strip_eol(raw@.subrange(0, e0 as int)) == dashes3(),
            fm_close_end(raw@, e0 as int) == fm_close_end(raw@, i as int),
        decreases raw@.len() - i,
    {
        let e: usize = find_line_end(raw, i);
        let line: Vec<u8> = subrange_vec(raw, i, e);
        let stripped: Vec<u8> = strip_line_end(line.as_slice());
        if bytes_eq(stripped.as_slice(), dash.as_slice()) {
            let fm: Vec<u8> = subrange_vec(raw, 0, e);
            let body: Vec<u8> = subrange_vec(raw, e, raw.len());
            proof {
                assert(fm_close_end(raw@, i as int) == Some(e as int));
                assert(fm@ == raw@.take(e as int));
                assert(body@ =~= raw@.skip(e as int));
            }
            return (Some(fm), body);
        }
        proof {
            lemma_line_end_bounds(raw@, i as int);
        }
        i = e;
    }
    proof {
        assert(fm_close_end(raw@, i as int) is None);
    }
    (None, subrange_vec(raw, 0, raw.len()))
}

/// The view of an optional byte vector.
pub open spec fn opt_view(fm: Option<&Vec<u8>>) -> Option<Seq<u8>> {
    match fm {
        Some(f) => Some(f@),
        None => None,
    }
}

/// The `name`/`description` pair a well-formed frontmatter block declares.
pub struct RequiredFrontmatter {
    pub name: Vec<u8>,
    pub description: Vec<u8>,
}

/// Scan frontmatter lines from `i` for `name:`/`description:` values, with
/// the values found so far; yields the pair only when a closing line comes
/// and both values are present and non-empty.
pub open spec fn req_from(
    s: Seq<u8>,
    i: int,
    name: Option<Seq<u8>>,
    desc: Option<Seq<u8>>,
) -> Option<(Seq<u8>, Seq<u8>)>
    decreases s.len() - i,
    when 0 <= i <= s.len()
    via req_from_dec
{
    if i >= s.len() {
        None
    } else {
        let e = line_end(s, i);
        let line = s.subrange(i, e);
        if strip_eol(line) == dashes3() {
            match (name, desc) {
                (Some(n), Some(d)) => Some((n, d)),
                _ => None,
            }
        } else {
            let t = trim_seq(line);
            if t.len() == 0 || t[0] == POUND {
                req_from(s, e, name, desc)
            } else if is_prefix_of(tok_name(), t) {
                let v = trim_seq(t.skip(tok_name().len() as int));
                if v.len() == 0 {
                    None
                } else {
                    req_from(s, e, Some(v), desc)
                }
            } else if is_prefix_of(tok_desc(), t) {
                let v = trim_seq(t.skip(tok_desc().len() as int));
                if v.len() == 0 {
                    None
                } else {
                    req_from(s, e, name, Some(v))
                }
            } else {
                req_from(s, e, name, desc)
            }
        }
    }
}

#[via_fn]
proof fn req_from_dec(s: Seq<u8>, i: int, name: Option<Seq<u8>>, desc: Option<Seq<u8>>) {
    lemma_line_end_bounds(s, i);
}

/// The required pair of a frontmatter block, if it is well formed and
/// declares non-empty values for both keys.
pub open spec fn spec_parse_required(fm: Option<Seq<u8>>) -> Option<(Seq<u8>, Seq<u8>)> {
    match fm {
        None => None,
        Some(s) => {
            if s.len() == 0 {
                None
            } else {
                let e0 = line_end(s, 0);
                if strip_eol(s.subrange(0, e0)) != dashes3() {
                    None
                } else {
                    req_from(s, e0, None, None)
                }
            }
        },
    }
}

/// Parse the required `name`/`description` pair out of a frontmatter block.
pub fn parse_required_frontmatter(fm: Option<&Vec<u8>>) -> (r: Option<RequiredFrontmatter>)
    ensures
        match r {
            Some(rf) => spec_parse_required(opt_view(fm)) == Some((rf.name@, rf.description@)),
            None => spec_parse_required(opt_view(fm)) is None,
        },
{
    let s: &Vec<u8> = match fm {
        Some(f) => f,
        None => {
            return None;
        },
    };
    proof {
        assert(opt_view(fm) == Some(s@));
    }
    let dash: Vec<u8> = dashes3_vec();
    let key_n: Vec<u8> = tok_name_vec();
    let key_d: Vec<u8> = tok_desc_vec();
    if s.len() == 0 {
        return None;
    }
    let e0: usize = find_line_end(s.as_slice(), 0);
    let first_line: Vec<u8> = subrange_vec(s.as_slice(), 0, e0);
    let first: Vec<u8> = strip_line_end(first_line.as_slice());
    if !bytes_eq(first.as_slice(), dash.as_slice()) {
        return None;
    }
    let mut i: usize = e0;
    let mut name: Option<Vec<u8>> = None;
    let mut desc: Option<Vec<u8>> = None;
    while i < s.len()
        invariant
            opt_view(fm) == Some(s@),
            0 <= i <= s@.len(),
            s@.len() > 0,
            e0 == line_end(s@, 0),
            0 <= e0 <= s@.len(),
            strip_eol(s@.subrange(0, e0 as int)) == dashes3(),
            req_from(s@, e0 as int, None, None) == req_from(
                s@,
                i as int,
                match name {
                    Some(n) => Some(n@),
                    None => None,
                },
                match desc {
                    Some(d) => Some(d@),
                    None => None,
                },
            ),
            key_n@ == tok_name(),
            key_d@ == tok_desc(),
            dash@ == dashes3(),
        decreases s@.len() - i,
    {
        let e: usize = find_line_end(s.as_slice(), i);
        let line: Vec<u8> = subrange_vec(s.as_slice(), i, e);
        let stripped: Vec<u8> = strip_line_end(line.as_slice());
        if bytes_eq(stripped.as_slice(), dash.as_slice()) {
            if name.is_some() && desc.is_some() {
                let n: Vec<u8> = name.unwrap();
                let d: Vec<u8> = desc.unwrap();
                proof {
                    assert(req_from(s@, i as int, Some(n@), Some(d@)) == Some((n@, d@)));
                    assert(req_from(s@, e0 as int, None, None) == Some((n@, d@)));
                    assert(spec_parse_required(Some(s@)) == Some((n@, d@)));
                }
                return Some(RequiredFrontmatter { name: n, description: d });
            }
            proof {
                let nv = match name {
                    Some(n) => Some(n@),
                    None => None,
                };
                let dv = match desc {
                    Some(d) => Some(d@),
                    None => None,
                };
                assert(req_from(s@, i as int, nv, dv) is None);
            }
            return None;
        }
        let t: Vec<u8> = trim(line.as_slice());
        proof {
            lemma_line_end_bounds(s@, i as int);
        }
        if t.len() == 0 || t[0] == POUND {
            i = e;
        } else if starts_with(t.as_slice(), key_n.as_slice()) {
            let rest: Vec<u8> = subrange_vec(t.as_slice(), key_n.len(), t.len());
            let v: Vec<u8> = trim(rest.as_slice());
            proof {
                assert(rest@ =~= t@.skip(tok_name().len() as int));
            }
            if v.len() == 0 {
                return None;
            }
            name = Some(v);
            i = e;
        } else if starts_with(t.as_slice(), key_d.as_slice()) {
            let rest: Vec<u8> = subrange_vec(t.as_slice(), key_d.len(), t.len());
            let v: Vec<u8> = trim(rest.as_slice());
            proof {
                assert(rest@ =~= t@.skip(tok_desc().len() as int));
            }
            if v.len() == 0 {
                return None;
            }
            desc = Some(v);
            i = e;
        } else {
            i = e;
        }
    }
    None
}

/// The in-place rewrite of a frontmatter block's lines from `i` on:
/// `name:`/`description:` lines are replaced with the required values,
/// missing ones are inserted before the closing delimiter, and every other
/// line is kept verbatim.  Nothing comes out of a block with no closing
/// delimiter.
pub open spec fn upsert_from(
    s: Seq<u8>,
    i: int,
    n: Seq<u8>,
    d: Seq<u8>,
    saw_n: bool,
    saw_d: bool,
    has_end: bool,
) -> Option<Seq<u8>>
    decreases s.len() - i,
    when 0 <= i <= s.len()
    via upsert_from_dec
{
    if i >= s.len() {
        if has_end {
            Some(Seq::<u8>::empty())
        } else {
            None
        }
    } else {
        let e = line_end(s, i);
        let line = s.subrange(i, e);
        if strip_eol(line) == dashes3() {
            let ins_n: Seq<u8> = if !saw_n {
                name_line(n)
            } else {
                Seq::<u8>::empty()
            };
            let ins_d: Seq<u8> = if !saw_d {
                desc_line(d)
            } else {
                Seq::<u8>::empty()
            };
            match upsert_from(s, e, n, d, saw_n, saw_d, true) {
                Some(rest) => Some(ins_n + ins_d + line + rest),
                None => None,
            }
        } else {
            let ts = trim_start_seq(line);
            let indent = line.take(line.len() - ts.len());
            let eol: Seq<u8> = if line.len() > 0 && line.last() == NL {
                seq![NL]
            } else {
                Seq::<u8>::empty()
            };
            if is_prefix_of(tok_name(), ts) {
                match upsert_from(s, e, n, d, true, saw_d, has_end) {
                    Some(rest) => Some(indent + tok_name() + seq![SPACE] + n + eol + rest),
                    None => None,
                }
            } else if is_prefix_of(tok_desc(), ts) {
                match upsert_from(s, e, n, d, saw_n, true, has_end) {
                    Some(rest) => Some(indent + tok_desc() + seq![SPACE] + d + eol + rest),
                    None => None,
                }
            } else {
                match upsert_from(s, e, n, d, saw_n, saw_d, has_end) {
                    Some(rest) => Some(line + rest),
                    None => None,
                }
            }
        }
    }
}

#[via_fn]
proof fn upsert_from_dec(
    s: Seq<u8>,
    i: int,
    n: Seq<u8>,
    d: Seq<u8>,
    saw_n: bool,
    saw_d: bool,
    has_end: bool,
) {
    lemma_line_end_bounds(s, i);
}

/// A frontmatter block with the required values written in, or nothing when
/// the block is not led and closed by delimiter lines.
pub open spec fn spec_upsert(s: Seq<u8>, n: Seq<u8>, d: Seq<u8>) -> Option<Seq<u8>> {
    if s.len() == 0 {
        None
    } else {
        let e0 = line_end(s, 0);
        if strip_eol(s.subrange(0, e0)) != dashes3() {
            None
        } else {
            match upsert_from(s, e0, n, d, false, false, false) {
                Some(rest) => Some(s.take(e0) + rest),
                None => None,
            }
        }
    }
}

/// Rewrite `name:`/`description:` lines of a frontmatter block in place,
/// preserving indentation and every other line.
#[verifier::rlimit(100)]
#[verifier::spinoff_prover]
pub fn upsert_required_frontmatter(fm: &Vec<u8>, req: &RequiredFrontmatter) -> (r: Option<Vec<u8>>)
    ensures
        match r {
            Some(u) => spec_upsert(fm@, req.name@, req.description@) == Some(u@),
            None => spec_upsert(fm@, req.name@, req.description@) is None,
        },
{
    let dash: Vec<u8> = dashes3_vec();
    let key_n: Vec<u8> = tok_name_vec();
    let key_d: Vec<u8> = tok_desc_vec();
    if fm.len() == 0 {
        return None;
    }
    let e0: usize = find_line_end(fm.as_slice(), 0);
    let first_line: Vec<u8> = subrange_vec(fm.as_slice(), 0, e0);
    let first: Vec<u8> = strip_line_end(first_line.as_slice());
    if !bytes_eq(first.as_slice(), dash.as_slice()) {
        return None;
    }
    let mut out: Vec<u8> = first_line;
    let mut saw_n: bool = false;
    let mut saw_d: bool = false;
    let mut has_end: bool = false;
    let mut i: usize = e0;
    proof {
        assert(out@ == fm@.take(e0 as int));
    }
    while i < fm.len()
        invariant
            0 <= i <= fm@.len(),
            fm@.len() > 0,
            dash@ == dashes3(),
            key_n@ == tok_name(),
            key_d@ == tok_desc(),
            e0 == line_end(fm@, 0),
            0 <= e0 <= fm@.len(),
            strip_eol(fm@.subrange(0, e0 as int)) == dashes3(),
            match upsert_from(fm@, i as int, req.name@, req.description@, saw_n, saw_d, has_end) {
                Some(rest) => spec_upsert(fm@, req.name@, req.description@) == Some(out@ + rest),
                None => spec_upsert(fm@, req.name@, req.description@) is None,
            },
        decreases fm@.len() - i,
    {
        let ghost out0 = out@;
        proof {
            lemma_line_end_bounds(fm@, i as int);
        }
        let e: usize = find_line_end(fm.as_slice(), i);
        let line: Vec<u8> = subrange_vec(fm.as_slice(), i, e);
        let stripped: Vec<u8> = strip_line_end(line.as_slice());
        if bytes_eq(stripped.as_slice(), dash.as_slice()) {
            if !saw_n {
                append_slice(&mut out, key_n.as_slice());
                out.push(SPACE);
                append_slice(&mut out, req.name.as_slice());
                out.push(NL);
            }
            if !saw_d {
                append_slice(&mut out, key_d.as_slice());
                out.push(SPACE);
                append_slice(&mut out, req.description.as_slice());
                out.push(NL);
            }
            append_slice(&mut out, line.as_slice());
            proof {
                let ins_n: Seq<u8> = if !saw_n {
                    name_line(req.name@)
                } else {
                    Seq::<u8>::empty()
                };
                let ins_d: Seq<u8> = if !saw_d {
                    desc_line(req.description@)
                } else {
                    Seq::<u8>::empty()
                };
                assert(out@ =~= out0 + (ins_n + ins_d + line@));
                let piece = ins_n + ins_d + line@;
                match upsert_from(fm@, e as int, req.name@, req.description@, saw_n, saw_d, true) {
                    Some(r2) => {
                        assert(out0 + (piece + r2) =~= (out0 + piece) + r2);
                    },
                    None => {},
                }
            }
            has_end = true;
            i = e;
        } else {
            let ts_idx: usize = trim_start_index(line.as_slice());
            let ends_nl: bool = line.len() > 0 && line[line.len() - 1] == NL;
            proof {
                assert(line@.take(ts_idx as int) =~= line@.take(
                    line@.len() - trim_start_seq(line@).len(),
                ));
                if line@.len() > 0 {
                    assert(line@[line@.len() - 1] == line@.last());
                }
            }
            let ts: Vec<u8> = subrange_vec(line.as_slice(), ts_idx, line.len());
            proof {
                assert(ts@ =~= trim_start_seq(line@));
            }
            if starts_with(ts.as_slice(), key_n.as_slice()) {
                let indent: Vec<u8> = subrange_vec(line.as_slice(), 0, ts_idx);
                append_slice(&mut out, indent.as_slice());
                append_slice(&mut out, key_n.as_slice());
                out.push(SPACE);
                append_slice(&mut out, req.name.as_slice());
                if ends_nl {
                    out.push(NL);
                }
                saw_n = true;
                proof {
                    let eol: Seq<u8> = if line@.len() > 0 && line@.last() == NL {
                        seq![NL]
                    } else {
                        Seq::<u8>::empty()
                    };
                    let piece = indent@ + tok_name() + seq![SPACE] + req.name@ + eol;
                    assert(out@ =~= out0 + piece);
                    match upsert_from(
                        fm@,
                        e as int,
                        req.name@,
                        req.description@,
                        true,
                        saw_d,
                        has_end,
                    ) {
                        Some(r2) => {
                            assert(out0 + (piece + r2) =~= (out0 + piece) + r2);
                        },
                        None => {},
                    }
                }
                i = e;
            } else if starts_with(ts.as_slice(), key_d.as_slice()) {
                let indent: Vec<u8> = subrange_vec(line.as_slice(), 0, ts_idx);
                append_slice(&mut out, indent.as_slice());
                append_slice(&mut out, key_d.as_slice());
                out.push(SPACE);
                append_slice(&mut out, req.description.as_slice());
                if ends_nl {
                    out.push(NL);
                }
                saw_d = true;
                proof {
                    let eol: Seq<u8> = if line@.len() > 0 && line@.last() == NL {
                        seq![NL]
                    } else {
                        Seq::<u8>::empty()
                    };
                    let piece = indent@ + tok_desc() + seq![SPACE] + req.description@ + eol;
                    assert(out@ =~= out0 + piece);
                    match upsert_from(
                        fm@,
                        e as int,
                        req.name@,
                        req.description@,
                        saw_n,
                        true,
                        has_end,
                    ) {
                        Some(r2) => {
                            assert(out0 + (piece + r2) =~= (out0 + piece) + r2);
                        },
                        None => {},
                    }
                }
                i = e;
            } else {
                append_slice(&mut out, line.as_slice());
                proof {
                    match upsert_from(
                        fm@,
                        e as int,
                        req.name@,
                        req.description@,
                        saw_n,
                        saw_d,
                        has_end,
                    ) {
                        Some(r2) => {
                            assert(out0 + (line@ + r2) =~= (out0 + line@) + r2);
                        },
                        None => {},
                    }
                }
                i = e;
            }
        }
    }
    if has_end {
        proof {
            assert(out@ + Seq::<u8>::empty() =~= out@);
        }
        Some(out)
    } else {
        None
    }
}

/// A minimal frontmatter block holding exactly the required values.
pub open spec fn spec_render_required(n: Seq<u8>, d: Seq<u8>) -> Seq<u8> {
    dashes3() + seq![NL] + name_line(n) + desc_line(d) + dashes3() + seq![NL]
}

/// Render a fresh frontmatter block for the required values.
pub fn render_required_frontmatter(req: &RequiredFrontmatter) -> (r: Vec<u8>)
    ensures
        r@ == spec_render_required(req.name@, req.description@),
{
    let dash: Vec<u8> = dashes3_vec();
    let key_n: Vec<u8> = tok_name_vec();
    let key_d: Vec<u8> = tok_desc_vec();
    let mut out: Vec<u8> = Vec::new();
    append_slice(&mut out, dash.as_slice());
    out.push(NL);
    append_slice(&mut out, key_n.as_slice());
    out.push(SPACE);
    append_slice(&mut out, req.name.as_slice());
    out.push(NL);
    append_slice(&mut out, key_d.as_slice());
    out.push(SPACE);
    append_slice(&mut out, req.description.as_slice());
    out.push(NL);
    append_slice(&mut out, dash.as_slice());
    out.push(NL);
    proof {
        assert(out@ =~= spec_render_required(req.name@, req.description@));
    }
    out
}

/// Frontmatter followed by body; just the body when there is none.
pub open spec fn spec_merge(fm: Option<Seq<u8>>, body: Seq<u8>) -> Seq<u8> {
    match fm {
        Some(f) => f + body,
        None => body,
    }
}

/// Concatenate a frontmatter block (if any) and a body.
pub fn merge_frontmatter(fm: Option<&Vec<u8>>, body: &[u8]) -> (r: Vec<u8>)
    ensures
        r@ == spec_merge(opt_view(fm), body@),
{
    let mut out: Vec<u8> = Vec::new();
    match fm {
        Some(f) => {
            append_slice(&mut out, f.as_slice());
        },
        None => {},
    }
    append_slice(&mut out, body);
    proof {
        assert(out@ =~= spec_merge(opt_view(fm), body@));
    }
    out
}

/// A parsed markdown document: raw bytes, the frontmatter block if one is
/// present, the body, and the body's digest.
pub struct MarkdownDoc {
    pub raw: Vec<u8>,
    pub frontmatter: Option<Vec<u8>>,
    pub body: Vec<u8>,
    pub body_hash: u64,
}

impl MarkdownDoc {
    /// The view of the frontmatter field.
    pub open spec fn fm_view(&self) -> Option<Seq<u8>> {
        match self.frontmatter {
            Some(f) => Some(f@),
            None => None,
        }
    }

    /// The fields agree with the raw bytes.
    pub open spec fn wf(&self) -> bool {
        &&& self.fm_view() == split_fm(self.raw@)
        &&& self.body@ == split_body(self.raw@)
        &&& self.body_hash == fnv64(self.body@)
    }
}

/// Parse raw bytes into a document; the parts always rebuild the input.
pub fn parse_markdown(raw: Vec<u8>) -> (d: MarkdownDoc)
    ensures
        d.wf(),
        d.raw@ == raw@,
{
    let (frontmatter, body) = split_frontmatter(raw.as_slice());
    let body_hash: u64 = hash_bytes(body.as_slice());
    MarkdownDoc { raw, frontmatter, body, body_hash }
}

/// The frontmatter a target receives.  Without preservation the source's
/// block wins outright.  With it, a valid source pair is upserted into the
/// target's block (or a minimal block is rendered); an invalid source block
/// leaves the target's block untouched.
pub open spec fn spec_select_fm(
    src_fm: Option<Seq<u8>>,
    existing: Option<Option<Seq<u8>>>,
    preserve: bool,
) -> Option<Seq<u8>> {
    if !preserve {
        src_fm
    } else {
        match spec_parse_required(src_fm) {
            Some(req) => match existing {
                Some(ex_fm) => match ex_fm {
                    Some(f) => match spec_upsert(f, req.0, req.1) {
                        Some(u) => Some(u),
                        None => Some(f),
                    },
                    None => Some(spec_render_required(req.0, req.1)),
                },
                None => Some(spec_render_required(req.0, req.1)),
            },
            None => match existing {
                Some(ex_fm) => ex_fm,
                None => None,
            },
        }
    }
}

/// Whether selecting frontmatter for a target had to fall back and is worth
/// a warning: the source block exists but lacks the required pair, or the
/// target's block could not be rewritten in place.
pub open spec fn spec_select_warn(
    src_fm: Option<Seq<u8>>,
    existing: Option<Option<Seq<u8>>>,
    preserve: bool,
) -> bool {
    preserve && match spec_parse_required(src_fm) {
        Some(req) => match existing {
            Some(ex_fm) => match ex_fm {
                Some(f) => spec_upsert(f, req.0, req.1) is None,
                None => false,
            },
            None => false,
        },
        None => src_fm is Some,
    }
}

/// The view of an optional document's frontmatter.
pub open spec fn existing_fm_view(existing: Option<&MarkdownDoc>) -> Option<Option<Seq<u8>>> {
    match existing {
        Some(doc) => Some(doc.fm_view()),
        None => None,
    }
}

/// Pick the frontmatter a target receives, and report whether a fallback
/// was taken.
pub fn select_frontmatter_for_target(
    source: &MarkdownDoc,
    existing: Option<&MarkdownDoc>,
    preserve_frontmatter: bool,
) -> (r: (Option<Vec<u8>>, bool))
    ensures
        opt_view(match r.0 {
            Some(ref f) => Some(f),
            None => None,
        }) == spec_select_fm(
            source.fm_view(),
            existing_fm_view(existing),
            preserve_frontmatter,
        ),
        r.1 == spec_select_warn(source.fm_view(), existing_fm_view(existing), preserve_frontmatter),
{
    if !preserve_frontmatter {
        let out: Option<Vec<u8>> = match &source.frontmatter {
            Some(f) => Some(crate::text::clone_of(f)),
            None => None,
        };
        return (out, false);
    }
    let src_req: Option<RequiredFrontmatter> = parse_required_frontmatter(
        match &source.frontmatter {
            Some(f) => Some(f),
            None => None,
        },
    );
    match src_req {
        Some(req) => {
            match existing {
                Some(ex_doc) => {
                    match &ex_doc.frontmatter {
                        Some(f) => {
                            match upsert_required_frontmatter(f, &req) {
                                Some(u) => (Some(u), false),
                                None => (Some(crate::text::clone_of(f)), true),
                            }
                        },
                        None => (Some(render_required_frontmatter(&req)), false),
                    }
                },
                None => (Some(render_required_frontmatter(&req)), false),
            }
        },
        None => {
            let warned: bool = source.frontmatter.is_some();
            match existing {
                Some(ex_doc) => {
                    match &ex_doc.frontmatter {
                        Some(f) => (Some(crate::text::clone_of(f)), warned),
                        None => (None, warned),
                    }
                },
                None => (None, warned),
            }
        },
    }
}

/// The digest of the required pair, rendered as two key lines.
pub open spec fn spec_required_hash(fm: Option<Seq<u8>>) -> Option<u64> {
    match spec_parse_required(fm) {
        Some(req) => Some(fnv64(tok_name() + req.0 + seq![NL] + tok_desc() + req.1)),
        None => None,
    }
}

/// Digest a document's required pair, if its frontmatter declares one.
pub fn required_frontmatter_hash(doc: &MarkdownDoc) -> (r: Option<u64>)
    ensures
        r == spec_required_hash(doc.fm_view()),
{
    let req: Option<RequiredFrontmatter> = parse_required_frontmatter(
        match &doc.frontmatter {
            Some(f) => Some(f),
            None => None,
        },
    );
    match req {
        Some(req) => {
            let key_n: Vec<u8> = tok_name_vec();
            let key_d: Vec<u8> = tok_desc_vec();
            let mut buf: Vec<u8> = Vec::new();
            append_slice(&mut buf, key_n.as_slice());
            append_slice(&mut buf, req.name.as_slice());
            buf.push(NL);
            append_slice(&mut buf, key_d.as_slice());
            append_slice(&mut buf, req.description.as_slice());
            proof {
                assert(buf@ =~= tok_name() + req.name@ + seq![NL] + tok_desc()
                    + req.description@);
            }
            Some(hash_bytes(buf.as_slice()))
        },
        None => None,
    }
}



/// A frontmatter block in the exact shape splitting produces when the
/// closing line is newline-terminated: it opens with a delimiter line, its
/// first closing delimiter line is its last line, and it ends with a line
/// feed.
pub open spec fn fm_wf(f: Seq<u8>) -> bool {
    &&& f.len() > 0
    &&& f.last() == NL
    &&& strip_eol(f.subrange(0, line_end(f, 0))) == dashes3()
    &&& fm_close_end(f, line_end(f, 0)) == Some(f.len() as int)
}

/// A line that ends before the end of the text ends with a line feed.
proof fn lemma_line_end_nl(s: Seq<u8>, i: int)
    requires
        0 <= i <= s.len(),
        line_end(s, i) < s.len(),
    ensures
        s[line_end(s, i) - 1] == NL,
    decreases s.len() - i,
{
    if i < s.len() && s[i] != NL {
        lemma_line_end_nl(s, i + 1);
    }
}

/// Appending text after a newline-terminated line does not move its end.
proof fn lemma_line_end_append(s: Seq<u8>, b: Seq<u8>, i: int)
    requires
        0 <= i < s.len(),
        i < line_end(s, i),
        line_end(s, i) <= s.len(),
        s[line_end(s, i) - 1] == NL,
    ensures
        line_end(s + b, i) == line_end(s, i),
    decreases s.len() - i,
{
    assert((s + b)[i] == s[i]);
    if s[i] == NL {
    } else {
        lemma_line_end_bounds(s, i + 1);
        let e = line_end(s, i);
        assert(e == line_end(s, i + 1));
        assert(e > i + 1) by {
            if e == i + 1 {
                assert(s[e - 1] == s[i]);
            }
        }
        if i + 1 < s.len() {
            lemma_line_end_append(s, b, i + 1);
        } else {
            assert(e <= s.len());
            assert(line_end(s, i + 1) == s.len());
            assert(false);
        }
    }
}

/// Cutting text after a line keeps the line's end.
proof fn lemma_line_end_prefix(s: Seq<u8>, k: int, i: int)
    requires
        0 <= i <= k <= s.len(),
        line_end(s, i) <= k,
    ensures
        line_end(s.take(k), i) == line_end(s, i),
    decreases s.len() - i,
{
    lemma_line_end_bounds(s, i);
    if i < k {
        assert(s.take(k)[i] == s[i]);
        if s[i] == NL {
        } else {
            lemma_line_end_prefix(s, k, i + 1);
        }
    } else {
        // the scan starts at the cut, so the line is empty on both sides
        assert(i == k);
        assert(line_end(s, i) <= i);
        assert(line_end(s, i) >= i);
        assert(i == s.len() || s[i] == NL && i + 1 <= k);
        if i < s.len() {
            assert(line_end(s, i) == i + 1 || line_end(s, i) == line_end(s, i + 1));
            assert(line_end(s, i) == i);
            if s[i] == NL {
                assert(line_end(s, i) == i + 1);
                assert(false);
            } else {
                lemma_line_end_bounds(s, i + 1);
                assert(false);
            }
        }
    }
}

/// Appending text after a well-ended block does not move its first
/// closing delimiter.
proof fn lemma_close_append(s: Seq<u8>, b: Seq<u8>, i: int)
    requires
        0 <= i <= s.len(),
        fm_close_end(s, i) == Some(s.len() as int),
        s.len() > 0,
        s.last() == NL,
    ensures
        fm_close_end(s + b, i) == Some(s.len() as int),
    decreases s.len() - i,
{
    assert(i < s.len());
    lemma_line_end_bounds(s, i);
    let e = line_end(s, i);
    assert(s[e - 1] == NL) by {
        if e < s.len() {
            lemma_line_end_nl(s, i);
        }
    }
    lemma_line_end_append(s, b, i);
    assert((s + b).subrange(i, e) =~= s.subrange(i, e));
    if strip_eol(s.subrange(i, e)) == dashes3() {
        assert(e == s.len());
    } else {
        assert(fm_close_end(s, e) == Some(s.len() as int));
        lemma_close_append(s, b, e);
    }
}

/// Cutting text after the first closing delimiter keeps it first.
proof fn lemma_close_prefix(s: Seq<u8>, k: int, i: int)
    requires
        0 <= i <= s.len(),
        fm_close_end(s, i) == Some(k),
        k <= s.len(),
    ensures
        fm_close_end(s.take(k), i) == Some(k),
    decreases s.len() - i,
{
    assert(i < s.len());
    lemma_line_end_bounds(s, i);
    lemma_fm_close_in_range(s, i);
    assert(i < k);
    let e = line_end(s, i);
    if strip_eol(s.subrange(i, e)) == dashes3() {
        assert(e == k);
        lemma_line_end_prefix(s, k, i);
        assert(s.take(k).subrange(i, e) =~= s.subrange(i, e));
    } else {
        assert(fm_close_end(s, e) == Some(k));
        lemma_fm_close_in_range(s, e);
        assert(e < k);
        lemma_line_end_prefix(s, k, i);
        assert(s.take(k).subrange(i, e) =~= s.subrange(i, e));
        lemma_close_prefix(s, k, e);
    }
}

/// The block splitting carves out is well formed whenever its closing
/// line is newline-terminated.
pub proof fn lemma_split_fm_wf(raw: Seq<u8>)
    ensures
        match split_fm(raw) {
            Some(f) => f.len() > 0 && (f.last() == NL ==> fm_wf(f)),
            None => true,
        },
{
    match split_fm(raw) {
        Some(f) => {
            let e0 = line_end(raw, 0);
            lemma_line_end_bounds(raw, 0);
            let e = fm_close_end(raw, e0).unwrap();
            lemma_fm_close_in_range(raw, e0);
            assert(f == raw.take(e));
            assert(f.len() == e);
            if f.last() == NL {
                lemma_line_end_prefix(raw, e, 0);
                assert(f.subrange(0, e0) =~= raw.subrange(0, e0));
                lemma_close_prefix(raw, e, e0);
            }
        },
        None => {},
    }
}

/// Re-serialization loses nothing: putting any body after a well-formed
/// frontmatter block and splitting again recovers exactly that block and
/// that body.
pub proof fn lemma_merge_then_split(f: Seq<u8>, b: Seq<u8>)
    requires
        fm_wf(f),
    ensures
        split_fm(f + b) == Some(f),
        split_body(f + b) == b,
{
    let s = f + b;
    let e0 = line_end(f, 0);
    lemma_line_end_bounds(f, 0);
    assert(e0 > 0);
    assert(f[e0 - 1] == NL) by {
        if e0 < f.len() {
            lemma_line_end_nl(f, 0);
        }
    }
    lemma_line_end_append(f, b, 0);
    assert(s.subrange(0, e0) =~= f.subrange(0, e0));
    lemma_close_append(f, b, e0);
    assert(split_fm(s) == Some(s.take(f.len() as int)));
    assert(s.take(f.len() as int) =~= f);
    assert(s.skip(f.len() as int) =~= b);
}


/// A value in the shape the parser produces: non-empty, fully trimmed,
/// and confined to a single line.
pub open spec fn value_wf(v: Seq<u8>) -> bool {
    &&& v.len() > 0
    &&& trim_seq(v) == v
    &&& no_nl(v)
}

/// No line feed anywhere.
pub open spec fn no_nl(s: Seq<u8>) -> bool {
    forall|j: int| 0 <= j < s.len() ==> s[j] != NL
}

/// A suffix that decomposes into two parts pins both parts' positions.
proof fn lemma_skip_decomp(o: Seq<u8>, p: int, a: Seq<u8>, b: Seq<u8>)
    requires
        0 <= p <= o.len(),
        o.skip(p) == a + b,
    ensures
        p + a.len() + b.len() == o.len(),
        o.subrange(p, p + a.len() as int) == a,
        o.skip(p + a.len() as int) == b,
{
    assert(o.skip(p).len() == a.len() + b.len());
    assert forall|j: int| 0 <= j < a.len() implies o.subrange(p, p + a.len() as int)[j] == a[j] by {
        assert(o.subrange(p, p + a.len() as int)[j] == o[p + j]);
        assert(o.skip(p)[j] == o[p + j]);
        assert(o.skip(p)[j] == (a + b)[j]);
    }
    assert(o.subrange(p, p + a.len() as int) =~= a);
    assert forall|j: int| 0 <= j < b.len() implies o.skip(p + a.len() as int)[j] == b[j] by {
        assert(o.skip(p + a.len() as int)[j] == o[p + a.len() + j]);
        assert(o.skip(p)[a.len() + j] == o[p + a.len() + j]);
        assert(o.skip(p)[a.len() + j] == (a + b)[a.len() + j]);
    }
    assert(o.skip(p + a.len() as int) =~= b);
}

/// A line never holds a line feed before its final position.
proof fn lemma_line_interior(s: Seq<u8>, i: int)
    requires
        0 <= i <= s.len(),
    ensures
        forall|j: int| i <= j < line_end(s, i) - 1 ==> s[j] != NL,
    decreases s.len() - i,
{
    if i < s.len() && s[i] != NL {
        lemma_line_interior(s, i + 1);
        lemma_line_end_bounds(s, i + 1);
    }
}

/// Scanning at a single newline-terminated line finds exactly it.
proof fn lemma_scan_line(o: Seq<u8>, p: int, line: Seq<u8>)
    requires
        0 <= p,
        p + line.len() <= o.len(),
        o.subrange(p, p + line.len() as int) == line,
        line.len() > 0,
        line.last() == NL,
        forall|j: int| 0 <= j < line.len() - 1 ==> line[j] != NL,
    ensures
        line_end(o, p) == p + line.len(),
    decreases line.len(),
{
    assert(o[p] == line[0]);
    if line.len() == 1 {
        assert(o[p] == NL);
    } else {
        assert(o[p] != NL);
        assert(o.subrange(p + 1, p + 1 + (line.skip(1)).len() as int) =~= line.skip(1));
        assert(forall|j: int| 0 <= j < line.skip(1).len() - 1 ==> line.skip(1)[j] != NL);
        assert(line.skip(1).last() == NL);
        lemma_scan_line(o, p + 1, line.skip(1));
    }
}

/// Scanning at an unterminated final line runs to the end of the text.
proof fn lemma_scan_tail(o: Seq<u8>, p: int)
    requires
        0 <= p <= o.len(),
        forall|j: int| p <= j < o.len() ==> o[j] != NL,
    ensures
        line_end(o, p) == o.len(),
    decreases o.len() - p,
{
    if p < o.len() {
        lemma_scan_tail(o, p + 1);
    }
}

/// Trimming the start drops exactly a whitespace prefix.
proof fn lemma_trim_start_decomp(s: Seq<u8>)
    ensures
        trim_start_seq(s).len() <= s.len(),
        trim_start_seq(s) == s.skip(s.len() - trim_start_seq(s).len()),
        forall|j: int| 0 <= j < s.len() - trim_start_seq(s).len() ==> is_space(#[trigger] s[j]),
        trim_start_seq(s).len() > 0 ==> !is_space(trim_start_seq(s)[0]),
    decreases s.len(),
{
    if s.len() > 0 && is_space(s[0]) {
        lemma_trim_start_decomp(s.skip(1));
        let t = trim_start_seq(s);
        assert(t == trim_start_seq(s.skip(1)));
        assert(s.skip(1).skip(s.skip(1).len() - t.len()) =~= s.skip(s.len() - t.len()));
        assert forall|j: int| 0 <= j < s.len() - t.len() implies is_space(#[trigger] s[j]) by {
            if j >= 1 {
                assert(s.skip(1)[j - 1] == s[j]);
                assert(is_space(s.skip(1)[j - 1]));
            }
        }
    } else {
        assert(s.skip(0) =~= s);
    }
}

/// Trimming the end keeps a prefix and drops only whitespace.
proof fn lemma_trim_end_decomp(s: Seq<u8>)
    ensures
        trim_end_seq(s).len() <= s.len(),
        trim_end_seq(s) == s.take(trim_end_seq(s).len() as int),
        forall|j: int| trim_end_seq(s).len() <= j < s.len() ==> is_space(#[trigger] s[j]),
        trim_end_seq(s).len() > 0 ==> !is_space(trim_end_seq(s).last()),
    decreases s.len(),
{
    if s.len() > 0 && is_space(s.last()) {
        lemma_trim_end_decomp(s.drop_last());
        let t = trim_end_seq(s);
        assert(s.drop_last().take(t.len() as int) =~= s.take(t.len() as int));
        assert forall|j: int| t.len() <= j < s.len() implies is_space(#[trigger] s[j]) by {
            if j < s.len() - 1 {
                assert(s.drop_last()[j] == s[j]);
                assert(is_space(s.drop_last()[j]));
            } else {
                assert(s[j] == s.last());
            }
        }
    } else {
        assert(s.take(s.len() as int) =~= s);
    }
}

/// A trimmed value neither starts nor ends with whitespace.
proof fn lemma_value_edges(v: Seq<u8>)
    requires
        v.len() > 0,
        trim_seq(v) == v,
    ensures
        !is_space(v[0]),
        !is_space(v.last()),
{
    lemma_trim_start_decomp(v);
    let u = trim_start_seq(v);
    lemma_trim_end_decomp(u);
    assert(trim_seq(v).len() <= u.len() <= v.len());
    assert(u.len() == v.len());
    assert(u =~= v);
    assert(trim_end_seq(v).len() == v.len());
}

/// Trimming strips surrounding whitespace from a well-formed value.
proof fn lemma_trim_around(ws: Seq<u8>, v: Seq<u8>, tail: Seq<u8>)
    requires
        forall|j: int| 0 <= j < ws.len() ==> is_space(#[trigger] ws[j]),
        forall|j: int| 0 <= j < tail.len() ==> is_space(#[trigger] tail[j]),
        value_wf(v),
    ensures
        trim_seq(ws + v + tail) == v,
{
    lemma_value_edges(v);
    lemma_trim_start_ws(ws, v + tail);
    assert((ws + v + tail).skip(ws.len() as int) =~= v + tail);
    lemma_trim_end_ws(v, tail);
    assert(trim_start_seq(ws + v + tail) == v + tail) by {
        assert(ws + v + tail =~= ws + (v + tail));
        assert((v + tail)[0] == v[0]);
    }
}

proof fn lemma_trim_start_ws(ws: Seq<u8>, t: Seq<u8>)
    requires
        forall|j: int| 0 <= j < ws.len() ==> is_space(#[trigger] ws[j]),
        t.len() > 0,
        !is_space(t[0]),
    ensures
        trim_start_seq(ws + t) == t,
    decreases ws.len(),
{
    if ws.len() == 0 {
        assert(ws + t =~= t);
    } else {
        assert((ws + t)[0] == ws[0]);
        assert((ws + t).skip(1) =~= ws.skip(1) + t);
        assert(forall|j: int| 0 <= j < ws.skip(1).len() ==> is_space(#[trigger] ws.skip(1)[j]));
        lemma_trim_start_ws(ws.skip(1), t);
    }
}

proof fn lemma_trim_end_ws(t: Seq<u8>, ws: Seq<u8>)
    requires
        forall|j: int| 0 <= j < ws.len() ==> is_space(#[trigger] ws[j]),
        t.len() > 0,
        !is_space(t.last()),
    ensures
        trim_end_seq(t + ws) == t,
    decreases ws.len(),
{
    if ws.len() == 0 {
        assert(t + ws =~= t);
    } else {
        assert((t + ws).last() == ws.last());
        assert((t + ws).drop_last() =~= t + ws.drop_last());
        assert(forall|j: int|
            0 <= j < ws.drop_last().len() ==> is_space(#[trigger] ws.drop_last()[j]));
        lemma_trim_end_ws(t, ws.drop_last());
    }
}


/// Parsing one rewritten key line moves the scan past it and stores its
/// value under the right key.
proof fn lemma_parse_key_line(
    o: Seq<u8>,
    p: int,
    indent: Seq<u8>,
    is_name: bool,
    v: Seq<u8>,
    na: Option<Seq<u8>>,
    da: Option<Seq<u8>>,
)
    requires
        0 <= p <= o.len(),
        value_wf(v),
        forall|j: int| 0 <= j < indent.len() ==> is_space(#[trigger] indent[j]) && indent[j] != NL,
        ({
            let key = if is_name {
                tok_name()
            } else {
                tok_desc()
            };
            is_prefix_of(indent + key + seq![SPACE] + v + seq![NL], o.skip(p))
        }),
    ensures
        ({
            let key = if is_name {
                tok_name()
            } else {
                tok_desc()
            };
            let next = p + indent.len() + key.len() + 1 + v.len() + 1;
            req_from(o, p, na, da) == if is_name {
                req_from(o, next, Some(v), da)
            } else {
                req_from(o, next, na, Some(v))
            }
        }),
{
    let key = if is_name {
        tok_name()
    } else {
        tok_desc()
    };
    let piece = indent + key + seq![SPACE] + v + seq![NL];
    assert(key.len() == if is_name {
        5int
    } else {
        12int
    });
    assert(no_nl(key)) by {
        assert(forall|j: int| 0 <= j < key.len() ==> key[j] != NL);
    }
    assert(!is_space(key[0]));
    assert(o.subrange(p, p + piece.len() as int) == piece) by {
        assert(o.skip(p).take(piece.len() as int) == piece);
        assert(o.subrange(p, p + piece.len() as int) =~= o.skip(p).take(piece.len() as int));
    }
    assert(piece.last() == NL);
    assert forall|j: int| 0 <= j < piece.len() - 1 implies piece[j] != NL by {
        lemma_value_edges(v);
        if j < indent.len() {
        } else if j < indent.len() + key.len() {
            assert(piece[j] == key[j - indent.len()]);
        } else if j == indent.len() + key.len() {
            assert(piece[j] == SPACE);
        } else {
            assert(piece[j] == v[j - indent.len() - key.len() - 1]);
        }
    }
    lemma_scan_line(o, p, piece);
    let e = line_end(o, p);
    assert(e == p + piece.len());
    // the line is not a closing delimiter
    let stripped = strip_eol(piece);
    assert(stripped == indent + key + seq![SPACE] + v) by {
        lemma_value_edges(v);
        assert(strip_eol(piece) == strip_eol(piece.drop_last()));
        assert(piece.drop_last() =~= indent + key + seq![SPACE] + v);
        let core = indent + key + seq![SPACE] + v;
        assert(core.last() == v.last());
        assert(v.last() != NL && v.last() != CR);
        assert(strip_eol(core) == core);
    }
    assert(stripped != dashes3()) by {
        if stripped == dashes3() {
            if indent.len() > 0 {
                assert(stripped[0] == indent[0]);
                assert(is_space(indent[0]));
                assert(dashes3()[0] == 0x2d);
            } else {
                assert(stripped[0] == key[0]);
                assert(dashes3()[0] == 0x2d);
            }
        }
    }
    // the trimmed line is the key and its value
    let t = trim_seq(piece);
    assert(t == key + seq![SPACE] + v) by {
        lemma_value_edges(v);
        assert(piece =~= indent + (key + seq![SPACE] + v + seq![NL]));
        assert((key + seq![SPACE] + v + seq![NL])[0] == key[0]);
        lemma_trim_start_ws(indent, key + seq![SPACE] + v + seq![NL]);
        assert(key + seq![SPACE] + v + seq![NL] =~= (key + seq![SPACE] + v) + seq![NL]);
        assert((key + seq![SPACE] + v).last() == v.last());
        lemma_trim_end_ws(key + seq![SPACE] + v, seq![NL]);
    }
    assert(t.len() > 0);
    assert(t[0] == key[0]);
    assert(t[0] != POUND);
    // which key branch the parser takes
    let vv = trim_seq(t.skip(key.len() as int));
    assert(vv == v) by {
        assert(t.skip(key.len() as int) =~= seq![SPACE] + v + Seq::<u8>::empty());
        lemma_trim_around(seq![SPACE], v, Seq::<u8>::empty());
    }
    if is_name {
        assert(is_prefix_of(tok_name(), t)) by {
            assert(t.take(5) =~= key);
        }
    } else {
        assert(!is_prefix_of(tok_name(), t)) by {
            if is_prefix_of(tok_name(), t) {
                assert(t.take(5)[0] == t[0]);
                assert(tok_name()[0] == 0x6e);
                assert(t[0] == 0x64);
            }
        }
        assert(is_prefix_of(tok_desc(), t)) by {
            assert(t.take(12) =~= key);
        }
    }
    assert(p < o.len());
    assert(o.subrange(p, e) == piece);
}

/// Parsing the output of an in-place rewrite from any aligned position
/// yields exactly the written pair, provided the scan's accumulators
/// already agree with what the rewrite has put out so far.
#[verifier::rlimit(100)]
proof fn lemma_req_of_upsert(
    f: Seq<u8>,
    i: int,
    n: Seq<u8>,
    d: Seq<u8>,
    saw_n: bool,
    saw_d: bool,
    o: Seq<u8>,
    p: int,
    na: Option<Seq<u8>>,
    da: Option<Seq<u8>>,
)
    requires
        0 <= i <= f.len(),
        value_wf(n),
        value_wf(d),
        upsert_from(f, i, n, d, saw_n, saw_d, false) is Some,
        0 <= p <= o.len(),
        o.skip(p) == upsert_from(f, i, n, d, saw_n, saw_d, false).unwrap(),
        saw_n ==> na == Some(n),
        saw_d ==> da == Some(d),
    ensures
        req_from(o, p, na, da) == Some((n, d)),
    decreases f.len() - i,
{
    let rest = upsert_from(f, i, n, d, saw_n, saw_d, false).unwrap();
    assert(i < f.len());
    lemma_line_end_bounds(f, i);
    lemma_line_interior(f, i);
    let e = line_end(f, i);
    let line = f.subrange(i, e);
    assert(line.len() > 0);
    assert forall|j: int| 0 <= j < line.len() - 1 implies line[j] != NL by {
        assert(line[j] == f[i + j]);
    }
    if strip_eol(line) == dashes3() {
        // the closing delimiter: missing key lines come first, then the line
        assert(upsert_from(f, e, n, d, saw_n, saw_d, true) is Some);
        let rest2 = upsert_from(f, e, n, d, saw_n, saw_d, true).unwrap();
        let ins_n: Seq<u8> = if !saw_n {
            name_line(n)
        } else {
            Seq::<u8>::empty()
        };
        let ins_d: Seq<u8> = if !saw_d {
            desc_line(d)
        } else {
            Seq::<u8>::empty()
        };
        assert(rest == ins_n + ins_d + line + rest2);
        let mut_p1 = p + ins_n.len() as int;
        let p2 = mut_p1 + ins_d.len() as int;
        assert(o.skip(p) =~= ins_n + (ins_d + line + rest2));
        lemma_skip_decomp(o, p, ins_n, ins_d + line + rest2);
        assert(o.skip(mut_p1) =~= ins_d + (line + rest2));
        lemma_skip_decomp(o, mut_p1, ins_d, line + rest2);
        let na1: Option<Seq<u8>> = Some(n);
        let da1: Option<Seq<u8>> = Some(d);
        if !saw_n {
            assert(is_prefix_of(
                Seq::<u8>::empty() + tok_name() + seq![SPACE] + n + seq![NL],
                o.skip(p),
            )) by {
                assert(Seq::<u8>::empty() + tok_name() + seq![SPACE] + n + seq![NL] =~= ins_n);
                assert(o.skip(p).take(ins_n.len() as int) =~= ins_n);
            }
            lemma_parse_key_line(o, p, Seq::<u8>::empty(), true, n, na, da);
            assert(req_from(o, p, na, da) == req_from(o, mut_p1, Some(n), da));
        } else {
            assert(req_from(o, p, na, da) == req_from(o, mut_p1, na, da));
            assert(na == Some(n));
        }
        if !saw_d {
            assert(is_prefix_of(
                Seq::<u8>::empty() + tok_desc() + seq![SPACE] + d + seq![NL],
                o.skip(mut_p1),
            )) by {
                assert(Seq::<u8>::empty() + tok_desc() + seq![SPACE] + d + seq![NL] =~= ins_d);
                assert(o.skip(mut_p1).take(ins_d.len() as int) =~= ins_d);
            }
            lemma_parse_key_line(o, mut_p1, Seq::<u8>::empty(), false, d, Some(n), da);
            assert(req_from(o, mut_p1, Some(n), da) == req_from(o, p2, Some(n), Some(d)));
        } else {
            assert(da == Some(d));
        }
        assert(req_from(o, p, na, da) == req_from(o, p2, Some(n), Some(d)));
        // now the closing line itself ends the scan
        lemma_skip_decomp(o, p2, line, rest2);
        assert(p2 < o.len());
        if line.last() == NL {
            lemma_scan_line(o, p2, line);
            assert(o.subrange(p2, line_end(o, p2)) == line);
            assert(req_from(o, p2, Some(n), Some(d)) == Some((n, d)));
        } else {
            assert(e == f.len()) by {
                if e < f.len() {
                    lemma_line_end_nl(f, i);
                    assert(line.last() == f[e - 1]);
                }
            }
            assert(rest2 =~= Seq::<u8>::empty());
            assert(p2 + line.len() == o.len());
            assert forall|j: int| p2 <= j < o.len() implies o[j] != NL by {
                assert(o[j] == line[j - p2]);
                if j - p2 < line.len() - 1 {
                } else {
                    assert(line[j - p2] == line.last());
                }
            }
            lemma_scan_tail(o, p2);
            assert(o.subrange(p2, o.len() as int) =~= line);
            assert(req_from(o, p2, Some(n), Some(d)) == Some((n, d)));
        }
    } else {
        let ts = trim_start_seq(line);
        let indent = line.take(line.len() - ts.len());
        lemma_trim_start_decomp(line);
        if is_prefix_of(tok_name(), ts) {
            assert forall|j: int| 0 <= j < indent.len() implies is_space(#[trigger] indent[j])
                && indent[j] != NL by {
                assert(indent[j] == line[j]);
                assert(ts.len() >= 5);
                assert(j < line.len() - 1);
            }
            assert(upsert_from(f, e, n, d, true, saw_d, false) is Some);
            let rest2 = upsert_from(f, e, n, d, true, saw_d, false).unwrap();
            let eol: Seq<u8> = if line.len() > 0 && line.last() == NL {
                seq![NL]
            } else {
                Seq::<u8>::empty()
            };
            assert(line.last() == NL) by {
                if line.last() != NL {
                    assert(e == f.len()) by {
                        if e < f.len() {
                            lemma_line_end_nl(f, i);
                            assert(line.last() == f[e - 1]);
                        }
                    }
                }
            }
            let piece = indent + tok_name() + seq![SPACE] + n + seq![NL];
            assert(rest == indent + tok_name() + seq![SPACE] + n + eol + rest2);
            assert(o.skip(p) =~= piece + rest2);
            lemma_skip_decomp(o, p, piece, rest2);
            assert(is_prefix_of(piece, o.skip(p))) by {
                assert(o.skip(p).take(piece.len() as int) =~= piece);
            }
            lemma_parse_key_line(o, p, indent, true, n, na, da);
            lemma_req_of_upsert(f, e, n, d, true, saw_d, o, p + piece.len() as int, Some(n), da);
        } else if is_prefix_of(tok_desc(), ts) {
            assert forall|j: int| 0 <= j < indent.len() implies is_space(#[trigger] indent[j])
                && indent[j] != NL by {
                assert(indent[j] == line[j]);
                assert(ts.len() >= 12);
                assert(j < line.len() - 1);
            }
            assert(upsert_from(f, e, n, d, saw_n, true, false) is Some);
            let rest2 = upsert_from(f, e, n, d, saw_n, true, false).unwrap();
            assert(line.last() == NL) by {
                if line.last() != NL {
                    assert(e == f.len()) by {
                        if e < f.len() {
                            lemma_line_end_nl(f, i);
                            assert(line.last() == f[e - 1]);
                        }
                    }
                }
            }
            let eol: Seq<u8> = if line.len() > 0 && line.last() == NL {
                seq![NL]
            } else {
                Seq::<u8>::empty()
            };
            let piece = indent + tok_desc() + seq![SPACE] + d + seq![NL];
            assert(rest == indent + tok_desc() + seq![SPACE] + d + eol + rest2);
            assert(o.skip(p) =~= piece + rest2);
            lemma_skip_decomp(o, p, piece, rest2);
            assert(is_prefix_of(piece, o.skip(p))) by {
                assert(o.skip(p).take(piece.len() as int) =~= piece);
            }
            lemma_parse_key_line(o, p, indent, false, d, na, da);
            lemma_req_of_upsert(f, e, n, d, saw_n, true, o, p + piece.len() as int, na, Some(d));
        } else {
            // a verbatim line
            assert(upsert_from(f, e, n, d, saw_n, saw_d, false) is Some);
            let rest2 = upsert_from(f, e, n, d, saw_n, saw_d, false).unwrap();
            assert(rest == line + rest2);
            assert(line.last() == NL) by {
                if line.last() != NL {
                    assert(e == f.len()) by {
                        if e < f.len() {
                            lemma_line_end_nl(f, i);
                            assert(line.last() == f[e - 1]);
                        }
                    }
                }
            }
            lemma_skip_decomp(o, p, line, rest2);
            lemma_scan_line(o, p, line);
            assert(o.subrange(p, line_end(o, p)) == line);
            assert(p < o.len());
            let t = trim_seq(line);
            if t.len() == 0 || t[0] == POUND {
                assert(req_from(o, p, na, da) == req_from(o, p + line.len() as int, na, da));
            } else {
                // the scan cannot take a key branch the rewrite did not take
                lemma_trim_end_decomp(ts);
                assert(t == trim_end_seq(ts));
                assert(!is_prefix_of(tok_name(), t)) by {
                    if is_prefix_of(tok_name(), t) {
                        assert(t == ts.take(t.len() as int));
                        assert(ts.take(5) =~= t.take(5));
                        assert(is_prefix_of(tok_name(), ts));
                    }
                }
                assert(!is_prefix_of(tok_desc(), t)) by {
                    if is_prefix_of(tok_desc(), t) {
                        assert(t == ts.take(t.len() as int));
                        assert(ts.take(12) =~= t.take(12));
                        assert(is_prefix_of(tok_desc(), ts));
                    }
                }
                assert(req_from(o, p, na, da) == req_from(o, p + line.len() as int, na, da));
            }
            lemma_req_of_upsert(f, e, n, d, saw_n, saw_d, o, p + line.len() as int, na, da);
        }
    }
}

/// The pair an in-place rewrite writes into a block reads back exactly:
/// parsing the rewritten block yields the written `name` and
/// `description`, whatever the block held before.
pub proof fn lemma_upsert_readback(f: Seq<u8>, n: Seq<u8>, d: Seq<u8>)
    requires
        value_wf(n),
        value_wf(d),
        spec_upsert(f, n, d) is Some,
    ensures
        spec_parse_required(Some(spec_upsert(f, n, d).unwrap())) == Some((n, d)),
{
    let u = spec_upsert(f, n, d).unwrap();
    let e0 = line_end(f, 0);
    lemma_line_end_bounds(f, 0);
    assert(f.len() > 0);
    assert(strip_eol(f.subrange(0, e0)) == dashes3());
    assert(upsert_from(f, e0, n, d, false, false, false) is Some);
    let rest = upsert_from(f, e0, n, d, false, false, false).unwrap();
    assert(u == f.take(e0) + rest);
    assert(e0 < f.len()) by {
        if e0 == f.len() {
            assert(upsert_from(f, e0, n, d, false, false, false) is None);
        }
    }
    lemma_line_end_nl(f, 0);
    let first = f.take(e0);
    assert(first =~= f.subrange(0, e0));
    assert(first.last() == f[e0 - 1]);
    lemma_line_interior(f, 0);
    assert forall|j: int| 0 <= j < first.len() - 1 implies first[j] != NL by {
        assert(first[j] == f[j]);
    }
    assert(u.skip(0) =~= u);
    lemma_skip_decomp(u, 0, first, rest);
    lemma_scan_line(u, 0, first);
    assert(u.subrange(0, e0) == first);
    assert(u.len() > 0);
    lemma_req_of_upsert(f, e0, n, d, false, false, u, e0, None, None);
}


/// Rewriting the key line the rewrite itself produced reproduces it.
proof fn lemma_upsert_key_line(
    o: Seq<u8>,
    p: int,
    indent: Seq<u8>,
    is_name: bool,
    v: Seq<u8>,
)
    requires
        0 <= p <= o.len(),
        value_wf(v),
        forall|j: int| 0 <= j < indent.len() ==> is_space(#[trigger] indent[j]) && indent[j] != NL,
        ({
            let key = if is_name {
                tok_name()
            } else {
                tok_desc()
            };
            is_prefix_of(indent + key + seq![SPACE] + v + seq![NL], o.skip(p))
        }),
    ensures
        ({
            let key = if is_name {
                tok_name()
            } else {
                tok_desc()
            };
            let piece = indent + key + seq![SPACE] + v + seq![NL];
            &&& line_end(o, p) == p + piece.len()
            &&& o.subrange(p, p + piece.len() as int) == piece
            &&& strip_eol(piece) != dashes3()
            &&& trim_start_seq(piece) == key + seq![SPACE] + v + seq![NL]
            &&& piece.take(piece.len() - trim_start_seq(piece).len()) == indent
            &&& (is_name ==> is_prefix_of(tok_name(), trim_start_seq(piece)))
            &&& (!is_name ==> !is_prefix_of(tok_name(), trim_start_seq(piece)) && is_prefix_of(
                tok_desc(),
                trim_start_seq(piece),
            ))
            &&& piece.last() == NL
        }),
{
    let key = if is_name {
        tok_name()
    } else {
        tok_desc()
    };
    let piece = indent + key + seq![SPACE] + v + seq![NL];
    assert(no_nl(key)) by {
        assert(forall|j: int| 0 <= j < key.len() ==> key[j] != NL);
    }
    assert(!is_space(key[0]));
    assert(o.subrange(p, p + piece.len() as int) == piece) by {
        assert(o.skip(p).take(piece.len() as int) == piece);
        assert(o.subrange(p, p + piece.len() as int) =~= o.skip(p).take(piece.len() as int));
    }
    assert forall|j: int| 0 <= j < piece.len() - 1 implies piece[j] != NL by {
        lemma_value_edges(v);
        if j < indent.len() {
        } else if j < indent.len() + key.len() {
            assert(piece[j] == key[j - indent.len()]);
        } else if j == indent.len() + key.len() {
            assert(piece[j] == SPACE);
        } else {
            assert(piece[j] == v[j - indent.len() - key.len() - 1]);
        }
    }
    lemma_scan_line(o, p, piece);
    assert(strip_eol(piece) != dashes3()) by {
        lemma_value_edges(v);
        assert(strip_eol(piece) == strip_eol(piece.drop_last()));
        assert(piece.drop_last() =~= indent + key + seq![SPACE] + v);
        let core = indent + key + seq![SPACE] + v;
        assert(core.last() == v.last());
        assert(v.last() != NL && v.last() != CR);
        assert(strip_eol(core) == core);
        if core == dashes3() {
            if indent.len() > 0 {
                assert(core[0] == indent[0]);
                assert(is_space(indent[0]));
                assert(dashes3()[0] == 0x2d);
            } else {
                assert(core[0] == key[0]);
                assert(dashes3()[0] == 0x2d);
            }
        }
    }
    assert(trim_start_seq(piece) == key + seq![SPACE] + v + seq![NL]) by {
        assert(piece =~= indent + (key + seq![SPACE] + v + seq![NL]));
        assert((key + seq![SPACE] + v + seq![NL])[0] == key[0]);
        lemma_trim_start_ws(indent, key + seq![SPACE] + v + seq![NL]);
    }
    let ts = trim_start_seq(piece);
    assert(piece.take(piece.len() - ts.len()) =~= indent);
    if is_name {
        assert(ts.take(5) =~= key);
    } else {
        assert(ts.take(12) =~= key);
        assert(!is_prefix_of(tok_name(), ts)) by {
            if is_prefix_of(tok_name(), ts) {
                assert(ts.take(5)[0] == ts[0]);
                assert(ts[0] == key[0]);
            }
        }
    }
}

/// Rewriting an already rewritten block changes nothing, provided the
/// block's first closing delimiter is its last line.
#[verifier::rlimit(100)]
proof fn lemma_upsert_fixpoint(
    f: Seq<u8>,
    i: int,
    n: Seq<u8>,
    d: Seq<u8>,
    saw_n: bool,
    saw_d: bool,
    o: Seq<u8>,
    p: int,
)
    requires
        0 <= i <= f.len(),
        value_wf(n),
        value_wf(d),
        fm_close_end(f, i) == Some(f.len() as int),
        upsert_from(f, i, n, d, saw_n, saw_d, false) is Some,
        0 <= p <= o.len(),
        o.skip(p) == upsert_from(f, i, n, d, saw_n, saw_d, false).unwrap(),
    ensures
        upsert_from(o, p, n, d, saw_n, saw_d, false) == upsert_from(f, i, n, d, saw_n, saw_d, false),
    decreases f.len() - i,
{
    let rest = upsert_from(f, i, n, d, saw_n, saw_d, false).unwrap();
    assert(i < f.len());
    lemma_line_end_bounds(f, i);
    lemma_line_interior(f, i);
    let e = line_end(f, i);
    let line = f.subrange(i, e);
    assert(line.len() > 0);
    assert forall|j: int| 0 <= j < line.len() - 1 implies line[j] != NL by {
        assert(line[j] == f[i + j]);
    }
    if strip_eol(line) == dashes3() {
        // the closing line ends the block, so nothing follows it
        assert(e == f.len());
        assert(upsert_from(f, e, n, d, saw_n, saw_d, true) == Some(Seq::<u8>::empty()));
        let ins_n: Seq<u8> = if !saw_n {
            name_line(n)
        } else {
            Seq::<u8>::empty()
        };
        let ins_d: Seq<u8> = if !saw_d {
            desc_line(d)
        } else {
            Seq::<u8>::empty()
        };
        assert(rest == ins_n + ins_d + line + Seq::<u8>::empty());
        assert(rest =~= ins_n + (ins_d + line));
        lemma_skip_decomp(o, p, ins_n, ins_d + line);
        let p1 = p + ins_n.len() as int;
        lemma_skip_decomp(o, p1, ins_d, line);
        let p2 = p1 + ins_d.len() as int;
        // the second run rewrites the inserted lines in place
        if !saw_n {
            assert(is_prefix_of(
                Seq::<u8>::empty() + tok_name() + seq![SPACE] + n + seq![NL],
                o.skip(p),
            )) by {
                assert(Seq::<u8>::empty() + tok_name() + seq![SPACE] + n + seq![NL] =~= ins_n);
                assert(o.skip(p).take(ins_n.len() as int) =~= ins_n);
            }
            lemma_upsert_key_line(o, p, Seq::<u8>::empty(), true, n);
        }
        if !saw_d {
            assert(is_prefix_of(
                Seq::<u8>::empty() + tok_desc() + seq![SPACE] + d + seq![NL],
                o.skip(p1),
            )) by {
                assert(Seq::<u8>::empty() + tok_desc() + seq![SPACE] + d + seq![NL] =~= ins_d);
                assert(o.skip(p1).take(ins_d.len() as int) =~= ins_d);
            }
            lemma_upsert_key_line(o, p1, Seq::<u8>::empty(), false, d);
        }
        // and then sees the closing line with both keys already written
        assert(p2 <= o.len());
        if line.last() == NL {
            lemma_scan_line(o, p2, line);
        } else {
            assert forall|j: int| p2 <= j < o.len() implies o[j] != NL by {
                assert(o[j] == line[j - p2]);
                if j - p2 < line.len() - 1 {
                } else {
                    assert(line[j - p2] == line.last());
                }
            }
            lemma_scan_tail(o, p2);
        }
        assert(line_end(o, p2) == p2 + line.len());
        assert(o.subrange(p2, p2 + line.len() as int) == line);
        assert(p2 + line.len() == o.len());
        assert(upsert_from(o, p2 + line.len() as int, n, d, true, true, true) == Some(
            Seq::<u8>::empty(),
        ));
        assert(upsert_from(o, p2, n, d, true, true, false) == Some(
            Seq::<u8>::empty() + Seq::<u8>::empty() + line + Seq::<u8>::empty(),
        ));
        assert(Seq::<u8>::empty() + Seq::<u8>::empty() + line + Seq::<u8>::empty() =~= line);
        if !saw_d {
            assert(upsert_from(o, p1, n, d, true, saw_d, false) == Some(
                Seq::<u8>::empty() + tok_desc() + seq![SPACE] + d + seq![NL] + line,
            ));
            assert(Seq::<u8>::empty() + tok_desc() + seq![SPACE] + d + seq![NL] + line =~= ins_d
                + line);
        } else {
            assert(upsert_from(o, p1, n, d, true, saw_d, false) == Some(line));
            assert(ins_d + line =~= line);
        }
        assert(upsert_from(o, p1, n, d, true, saw_d, false) == Some(ins_d + line));
        if !saw_n {
            assert(upsert_from(o, p, n, d, saw_n, saw_d, false) == Some(
                Seq::<u8>::empty() + tok_name() + seq![SPACE] + n + seq![NL] + (ins_d + line),
            ));
            assert(Seq::<u8>::empty() + tok_name() + seq![SPACE] + n + seq![NL] + (ins_d + line)
                =~= rest);
        } else {
            assert(upsert_from(o, p, n, d, saw_n, saw_d, false) == Some(ins_d + line));
            assert(ins_d + line =~= rest);
        }
    } else {
        let ts = trim_start_seq(line);
        let indent = line.take(line.len() - ts.len());
        lemma_trim_start_decomp(line);
        assert(fm_close_end(f, e) == Some(f.len() as int));
        if is_prefix_of(tok_name(), ts) {
            assert forall|j: int| 0 <= j < indent.len() implies is_space(#[trigger] indent[j])
                && indent[j] != NL by {
                assert(indent[j] == line[j]);
                assert(ts.len() >= 5);
                assert(j < line.len() - 1);
            }
            assert(upsert_from(f, e, n, d, true, saw_d, false) is Some);
            let rest2 = upsert_from(f, e, n, d, true, saw_d, false).unwrap();
            assert(line.last() == NL) by {
                if line.last() != NL {
                    assert(e == f.len()) by {
                        if e < f.len() {
                            lemma_line_end_nl(f, i);
                            assert(line.last() == f[e - 1]);
                        }
                    }
                }
            }
            let piece = indent + tok_name() + seq![SPACE] + n + seq![NL];
            let eol: Seq<u8> = if line.len() > 0 && line.last() == NL {
                seq![NL]
            } else {
                Seq::<u8>::empty()
            };
            assert(rest == indent + tok_name() + seq![SPACE] + n + eol + rest2);
            assert(o.skip(p) =~= piece + rest2);
            lemma_skip_decomp(o, p, piece, rest2);
            assert(is_prefix_of(piece, o.skip(p))) by {
                assert(o.skip(p).take(piece.len() as int) =~= piece);
            }
            lemma_upsert_key_line(o, p, indent, true, n);
            lemma_upsert_fixpoint(f, e, n, d, true, saw_d, o, p + piece.len() as int);
            assert(upsert_from(o, p, n, d, saw_n, saw_d, false) == Some(
                indent + tok_name() + seq![SPACE] + n + seq![NL] + rest2,
            ));
            assert(indent + tok_name() + seq![SPACE] + n + seq![NL] + rest2 =~= rest);
        } else if is_prefix_of(tok_desc(), ts) {
            assert forall|j: int| 0 <= j < indent.len() implies is_space(#[trigger] indent[j])
                && indent[j] != NL by {
                assert(indent[j] == line[j]);
                assert(ts.len() >= 12);
                assert(j < line.len() - 1);
            }
            assert(upsert_from(f, e, n, d, saw_n, true, false) is Some);
            let rest2 = upsert_from(f, e, n, d, saw_n, true, false).unwrap();
            assert(line.last() == NL) by {
                if line.last() != NL {
                    assert(e == f.len()) by {
                        if e < f.len() {
                            lemma_line_end_nl(f, i);
                            assert(line.last() == f[e - 1]);
                        }
                    }
                }
            }
            let piece = indent + tok_desc() + seq![SPACE] + d + seq![NL];
            let eol: Seq<u8> = if line.len() > 0 && line.last() == NL {
                seq![NL]
            } else {
                Seq::<u8>::empty()
            };
            assert(rest == indent + tok_desc() + seq![SPACE] + d + eol + rest2);
            assert(o.skip(p) =~= piece + rest2);
            lemma_skip_decomp(o, p, piece, rest2);
            assert(is_prefix_of(piece, o.skip(p))) by {
                assert(o.skip(p).take(piece.len() as int) =~= piece);
            }
            lemma_upsert_key_line(o, p, indent, false, d);
            lemma_upsert_fixpoint(f, e, n, d, saw_n, true, o, p + piece.len() as int);
            assert(upsert_from(o, p, n, d, saw_n, saw_d, false) == Some(
                indent + tok_desc() + seq![SPACE] + d + seq![NL] + rest2,
            ));
            assert(indent + tok_desc() + seq![SPACE] + d + seq![NL] + rest2 =~= rest);
        } else {
            assert(upsert_from(f, e, n, d, saw_n, saw_d, false) is Some);
            let rest2 = upsert_from(f, e, n, d, saw_n, saw_d, false).unwrap();
            assert(rest == line + rest2);
            assert(line.last() == NL) by {
                if line.last() != NL {
                    assert(e == f.len()) by {
                        if e < f.len() {
                            lemma_line_end_nl(f, i);
                            assert(line.last() == f[e - 1]);
                        }
                    }
                    assert(fm_close_end(f, e) is None);
                }
            }
            lemma_skip_decomp(o, p, line, rest2);
            lemma_scan_line(o, p, line);
            assert(o.subrange(p, line_end(o, p)) == line);
            // the same line takes the same branch again
            lemma_upsert_fixpoint(f, e, n, d, saw_n, saw_d, o, p + line.len() as int);
            assert(upsert_from(o, p, n, d, saw_n, saw_d, false) == Some(line + rest2));
        }
    }
}

/// Rewriting an already rewritten block is a fixed point: once the pair
/// is written into a block whose only closing delimiter is its last line,
/// writing the same pair again returns the block unchanged.
pub proof fn lemma_upsert_idempotent(f: Seq<u8>, n: Seq<u8>, d: Seq<u8>)
    requires
        value_wf(n),
        value_wf(d),
        fm_wf(f),
        spec_upsert(f, n, d) is Some,
    ensures
        spec_upsert(spec_upsert(f, n, d).unwrap(), n, d) == spec_upsert(f, n, d),
{
    let u = spec_upsert(f, n, d).unwrap();
    let e0 = line_end(f, 0);
    lemma_line_end_bounds(f, 0);
    assert(upsert_from(f, e0, n, d, false, false, false) is Some);
    let rest = upsert_from(f, e0, n, d, false, false, false).unwrap();
    assert(u == f.take(e0) + rest);
    assert(e0 < f.len()) by {
        if e0 == f.len() {
            assert(upsert_from(f, e0, n, d, false, false, false) is None);
        }
    }
    lemma_line_end_nl(f, 0);
    let first = f.take(e0);
    assert(first =~= f.subrange(0, e0));
    assert(first.last() == f[e0 - 1]);
    lemma_line_interior(f, 0);
    assert forall|j: int| 0 <= j < first.len() - 1 implies first[j] != NL by {
        assert(first[j] == f[j]);
    }
    assert(u.skip(0) =~= u);
    lemma_skip_decomp(u, 0, first, rest);
    lemma_scan_line(u, 0, first);
    assert(u.subrange(0, e0) == first);
    assert(strip_eol(u.subrange(0, line_end(u, 0))) == dashes3());
    assert(u.len() > 0);
    lemma_upsert_fixpoint(f, e0, n, d, false, false, u, e0);
    assert(spec_upsert(u, n, d) == Some(u.take(e0) + rest));
    assert(u.take(e0) + rest =~= u);
}


/// Second-pass stability for one markdown target.  Once a pass has
/// rewritten a target's block to carry the winner's pair, a later pass
/// whose source declares the same pair and the same body computes exactly
/// the bytes the target already holds, so nothing is rewritten: together
/// with the readback law this is why re-running a sync with no
/// intervening edits changes no markdown file.
pub proof fn lemma_markdown_second_pass_stable(
    src_fm: Option<Seq<u8>>,
    body: Seq<u8>,
    f: Seq<u8>,
    n: Seq<u8>,
    d: Seq<u8>,
)
    requires
        value_wf(n),
        value_wf(d),
        fm_wf(f),
        spec_upsert(f, n, d) is Some,
        spec_parse_required(src_fm) == Some((n, d)),
    ensures
        ({
            let u = spec_upsert(f, n, d).unwrap();
            spec_merge(spec_select_fm(src_fm, Some(Some(u)), true), body) == u + body
        }),
{
    let u = spec_upsert(f, n, d).unwrap();
    lemma_upsert_idempotent(f, n, d);
    assert(spec_upsert(u, n, d) == Some(u));
    assert(spec_select_fm(src_fm, Some(Some(u)), true) == Some(u));
}


/// Trimming is idempotent.
proof fn lemma_trim_idempotent(x: Seq<u8>)
    ensures
        trim_seq(trim_seq(x)) == trim_seq(x),
{
    let w = trim_seq(x);
    if w.len() > 0 {
        lemma_trim_start_decomp(x);
        lemma_trim_end_decomp(trim_start_seq(x));
        assert(!is_space(w[0])) by {
            assert(w == trim_start_seq(x).take(w.len() as int));
            assert(w[0] == trim_start_seq(x)[0]);
        }
        assert(!is_space(w.last()));
        assert(trim_start_seq(w) == w);
        assert(trim_end_seq(w) == w);
    } else {
        assert(trim_start_seq(w) == w);
        assert(trim_end_seq(w) == w);
    }
}

/// A value the parser stores is non-empty, trimmed, and free of line
/// feeds.
proof fn lemma_stored_value_wf(s: Seq<u8>, i: int, k: int)
    requires
        0 <= i <= s.len(),
        0 <= k,
    ensures
        ({
            let e = line_end(s, i);
            let t = trim_seq(s.subrange(i, e));
            let v = trim_seq(t.skip(if k <= t.len() {
                k
            } else {
                t.len() as int
            }));
            v.len() > 0 ==> value_wf(v)
        }),
{
    let e = line_end(s, i);
    lemma_line_end_bounds(s, i);
    lemma_line_interior(s, i);
    let line = s.subrange(i, e);
    let t = trim_seq(line);
    let kk: int = if k <= t.len() {
        k
    } else {
        t.len() as int
    };
    let v = trim_seq(t.skip(kk));
    lemma_trim_idempotent(t.skip(kk));
    if v.len() > 0 {
        // trimmed, by idempotence
        assert(trim_seq(v) == v);
        // within one line, so no line feed survives the trims
        assert(no_nl(v)) by {
            lemma_trim_start_decomp(line);
            let ts = trim_start_seq(line);
            lemma_trim_end_decomp(ts);
            assert(t == ts.take(t.len() as int));
            lemma_trim_start_decomp(t.skip(kk));
            lemma_trim_end_decomp(trim_start_seq(t.skip(kk)));
            assert forall|j: int| 0 <= j < v.len() implies v[j] != NL by {
                // map the position back into the original line
                let y = t.skip(kk);
                let ys = trim_start_seq(y);
                assert(v == ys.take(v.len() as int));
                assert(v[j] == ys[j]);
                assert(ys == y.skip(y.len() - ys.len()));
                let j2 = y.len() - ys.len() + j;
                assert(ys[j] == y[j2]);
                assert(y[j2] == t[kk + j2]);
                assert(t[kk + j2] == ts[kk + j2]);
                let drop = line.len() - ts.len();
                assert(ts == line.skip(drop));
                assert(ts[kk + j2] == line[drop + kk + j2]);
                // not the final byte of the line, whose trim dropped it
                if drop + kk + j2 == line.len() - 1 {
                    assert(kk + j2 == ts.len() - 1);
                    assert(kk + j2 < t.len());
                    assert(t.len() <= ts.len());
                    assert(t.len() == ts.len());
                    assert(t.last() == ts[kk + j2]);
                    assert(!is_space(t.last()));
                    assert(line[drop + kk + j2] != NL);
                } else {
                    assert(line[drop + kk + j2] == s[i + drop + kk + j2]);
                    assert(i + drop + kk + j2 < e - 1);
                    assert(s[i + drop + kk + j2] != NL);
                }
            }
        }
    }
}

/// Whatever required pair parsing yields is in the shape the rewrite
/// laws ask for: non-empty, trimmed, single-line values.
pub proof fn lemma_parsed_values_wf(fm: Option<Seq<u8>>)
    ensures
        match spec_parse_required(fm) {
            Some(r) => value_wf(r.0) && value_wf(r.1),
            None => true,
        },
{
    match fm {
        None => {},
        Some(s) => {
            if s.len() > 0 {
                let e0 = line_end(s, 0);
                if strip_eol(s.subrange(0, e0)) == dashes3() {
                    lemma_line_end_bounds(s, 0);
                    lemma_req_values_wf(s, e0, None, None);
                }
            }
        },
    }
}

proof fn lemma_req_values_wf(s: Seq<u8>, i: int, na: Option<Seq<u8>>, da: Option<Seq<u8>>)
    requires
        0 <= i <= s.len(),
        na matches Some(v) ==> value_wf(v),
        da matches Some(v) ==> value_wf(v),
    ensures
        match req_from(s, i, na, da) {
            Some(r) => value_wf(r.0) && value_wf(r.1),
            None => true,
        },
    decreases s.len() - i,
{
    if i < s.len() {
        let e = line_end(s, i);
        lemma_line_end_bounds(s, i);
        let line = s.subrange(i, e);
        if strip_eol(line) == dashes3() {
        } else {
            let t = trim_seq(line);
            if t.len() == 0 || t[0] == POUND {
                lemma_req_values_wf(s, e, na, da);
            } else if is_prefix_of(tok_name(), t) {
                let v = trim_seq(t.skip(tok_name().len() as int));
                if v.len() > 0 {
                    lemma_stored_value_wf(s, i, tok_name().len() as int);
                    lemma_req_values_wf(s, e, Some(v), da);
                }
            } else if is_prefix_of(tok_desc(), t) {
                let v = trim_seq(t.skip(tok_desc().len() as int));
                if v.len() > 0 {
                    lemma_stored_value_wf(s, i, tok_desc().len() as int);
                    lemma_req_values_wf(s, e, na, Some(v));
                }
            } else {
                lemma_req_values_wf(s, e, na, da);
            }
        }
    }
}

} // verus!
