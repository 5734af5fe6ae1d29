//! Byte-level text utilities shared by the document model, the snapshot
//! codec, and the path helpers.

use vstd::prelude::*;

verus! {

use vstd::string::StringSliceAdditionalSpecFns;

pub const NL: u8 = 0x0a;
pub const CR: u8 = 0x0d;
pub const SLASH: u8 = 0x2f;
pub const SPACE: u8 = 0x20;
pub const TAB: u8 = 0x09;

/// True of the four ASCII whitespace bytes this crate trims.
pub open spec fn is_space(b: u8) -> bool {
    b == SPACE || b == TAB || b == NL || b == CR
}

/// `p` is a prefix of `s`.
pub open spec fn is_prefix_of(p: Seq<u8>, s: Seq<u8>) -> bool {
    s.len() >= p.len() && s.take(p.len() as int) == p
}

/// Byte-for-byte equality of two slices.
pub fn bytes_eq(a: &[u8], b: &[u8]) -> (r: bool)
    ensures
        r == (a@ == b@),
{
    if a.len() != b.len() {
        proof {
            assert(a@.len() != b@.len());
        }
        return false;
    }
    let mut i: usize = 0;
    while i < a.len()
        invariant
            i <= a@.len(),
            a@.len() == b@.len(),
            forall|j: int| 0 <= j < i ==> a@[j] == b@[j],
        decreases a@.len() - i,
    {
        if a[i] != b[i] {
            return false;
        }
        i = i + 1;
    }
    proof {
        assert(a@ =~= b@);
    }
    true
}

/// Whether `s` starts with `p`.
pub fn starts_with(s: &[u8], p: &[u8]) -> (r: bool)
    ensures
        r == is_prefix_of(p@, s@),
{
    if s.len() < p.len() {
        return false;
    }
    let mut i: usize = 0;
    while i < p.len()
        invariant
            i <= p@.len(),
            s@.len() >= p@.len(),
            forall|j: int| 0 <= j < i ==> s@[j] == p@[j],
        decreases p@.len() - i,
    {
        if s[i] != p[i] {
            proof {
                assert(s@.take(p@.len() as int)[i as int] != p@[i as int]);
            }
            return false;
        }
        i = i + 1;
    }
    proof {
        assert(s@.take(p@.len() as int) =~= p@);
    }
    true
}

/// Copy `s[i..j]` into a fresh vector.
pub fn subrange_vec(s: &[u8], i: usize, j: usize) -> (r: Vec<u8>)
    requires
        i <= j <= s@.len(),
    ensures
        r@ == s@.subrange(i as int, j as int),
{
    let mut out: Vec<u8> = Vec::new();
    let mut k: usize = i;
    while k < j
        invariant
            i <= k <= j <= s@.len(),
            out@ =~= s@.subrange(i as int, k as int),
        decreases j - k,
    {
        out.push(s[k]);
        proof {
            assert(out@ =~= s@.subrange(i as int, k + 1));
        }
        k = k + 1;
    }
    out
}

/// Append a whole slice to a vector.
pub fn append_slice(out: &mut Vec<u8>, s: &[u8])
    ensures
        final(out)@ == old(out)@ + s@,
{
    let mut k: usize = 0;
    while k < s.len()
        invariant
            k <= s@.len(),
            out@ =~= old(out)@ + s@.take(k as int),
        decreases s@.len() - k,
    {
        out.push(s[k]);
        proof {
            assert(out@ =~= old(out)@ + s@.take(k + 1));
        }
        k = k + 1;
    }
    proof {
        assert(out@ =~= old(out)@ + s@);
    }
}

/// Copy a byte vector.
pub fn clone_of(v: &Vec<u8>) -> (r: Vec<u8>)
    ensures
        r@ == v@,
{
    let mut out: Vec<u8> = Vec::new();
    append_slice(&mut out, v.as_slice());
    proof {
        assert(out@ =~= v@);
    }
    out
}

/// Copy a byte slice into a fresh vector.
pub fn clone_of_slice(s: &[u8]) -> (r: Vec<u8>)
    ensures
        r@ == s@,
{
    let r: Vec<u8> = subrange_vec(s, 0, s.len());
    proof {
        assert(s@.subrange(0, s@.len() as int) =~= s@);
    }
    r
}

/// The UTF-8 bytes of a string literal, as a fresh vector.
pub fn lit(s: &str) -> (r: Vec<u8>)
    ensures
        r@ == s.spec_bytes(),
{
    vstd::slice::slice_to_vec(s.as_bytes())
}

/// `s` with every trailing line-feed or carriage-return removed.
pub open spec fn strip_eol(s: Seq<u8>) -> Seq<u8>
    decreases s.len(),
{
    if s.len() > 0 && (s.last() == NL || s.last() == CR) {
        strip_eol(s.drop_last())
    } else {
        s
    }
}

/// Strip trailing line ends from a slice.
pub fn strip_line_end(s: &[u8]) -> (r: Vec<u8>)
    ensures
        r@ == strip_eol(s@),
{
    let mut e: usize = s.len();
    proof {
        assert(s@.take(s@.len() as int) =~= s@);
    }
    while e > 0 && (s[e - 1] == NL || s[e - 1] == CR)
        invariant
            e <= s@.len(),
            strip_eol(s@) == strip_eol(s@.take(e as int)),
        decreases e,
    {
        proof {
            assert(s@.take(e as int).drop_last() =~= s@.take(e - 1));
        }
        e = e - 1;
    }
    proof {
        if e > 0 {
            assert(s@.take(e as int).last() == s@[e - 1]);
        }
        assert(strip_eol(s@.take(e as int)) == s@.take(e as int));
    }
    subrange_vec(s, 0, e)
}

/// `s` without leading whitespace.
pub open spec fn trim_start_seq(s: Seq<u8>) -> Seq<u8>
    decreases s.len(),
{
    if s.len() > 0 && is_space(s[0]) {
        trim_start_seq(s.skip(1))
    } else {
        s
    }
}

/// `s` without trailing whitespace.
pub open spec fn trim_end_seq(s: Seq<u8>) -> Seq<u8>
    decreases s.len(),
{
    if s.len() > 0 && is_space(s.last()) {
        trim_end_seq(s.drop_last())
    } else {
        s
    }
}

/// `s` without leading or trailing whitespace.
pub open spec fn trim_seq(s: Seq<u8>) -> Seq<u8> {
    trim_end_seq(trim_start_seq(s))
}

/// The number of leading whitespace bytes of `s`.
pub fn trim_start_index(s: &[u8]) -> (r: usize)
    ensures
        r <= s@.len(),
        trim_start_seq(s@) == s@.skip(r as int),
        forall|j: int| 0 <= j < r ==> is_space(s@[j]),
{
    let mut i: usize = 0;
    proof {
        assert(s@.skip(0) =~= s@);
    }
    while i < s.len() && (s[i] == SPACE || s[i] == TAB || s[i] == NL || s[i] == CR)
        invariant
            i <= s@.len(),
            trim_start_seq(s@) == trim_start_seq(s@.skip(i as int)),
            forall|j: int| 0 <= j < i ==> is_space(s@[j]),
        decreases s@.len() - i,
    {
        proof {
            assert(s@.skip(i as int).skip(1) =~= s@.skip(i + 1));
        }
        i = i + 1;
    }
    proof {
        assert(trim_start_seq(s@.skip(i as int)) == s@.skip(i as int));
    }
    i
}

/// The trimmed middle of `s`, as a fresh vector.
pub fn trim(s: &[u8]) -> (r: Vec<u8>)
    ensures
        r@ == trim_seq(s@),
{
    let start: usize = trim_start_index(s);
    let mut e: usize = s.len();
    proof {
        assert(s@.skip(start as int).take(s@.len() - start) =~= s@.skip(start as int));
    }
    while e > start && (s[e - 1] == SPACE || s[e - 1] == TAB || s[e - 1] == NL || s[e - 1] == CR)
        invariant
            start <= e <= s@.len(),
            trim_start_seq(s@) == s@.skip(start as int),
            trim_end_seq(s@.skip(start as int)) == trim_end_seq(s@.skip(start as int).take(
                e - start,
            )),
        decreases e,
    {
        proof {
            let cur = s@.skip(start as int).take(e - start);
            assert(cur.last() == s@[e - 1]);
            assert(cur.drop_last() =~= s@.skip(start as int).take(e - 1 - start));
        }
        e = e - 1;
    }
    proof {
        let cur = s@.skip(start as int).take(e - start);
        if e > start {
            assert(cur.last() == s@[e - 1]);
        } else {
            assert(cur.len() == 0);
        }
        assert(trim_end_seq(cur) == cur);
        assert(cur =~= s@.subrange(start as int, e as int));
    }
    subrange_vec(s, start, e)
}

/// The index just past the line that starts at `i`: one past the next
/// line feed, or the end of `s`.
pub open spec fn line_end(s: Seq<u8>, i: int) -> int
    decreases s.len() - i,
{
    if i < 0 || i >= s.len() {
        s.len() as int
    } else if s[i] == NL {
        i + 1
    } else {
        line_end(s, i + 1)
    }
}

pub proof fn lemma_line_end_bounds(s: Seq<u8>, i: int)
    requires
        0 <= i <= s.len(),
    ensures
        i <= line_end(s, i) <= s.len(),
        i < s.len() ==> i < line_end(s, i),
    decreases s.len() - i,
{
    if i < s.len() && s[i] != NL {
        lemma_line_end_bounds(s, i + 1);
    }
}

/// Find the end of the line starting at `from`.
pub fn find_line_end(s: &[u8], from: usize) -> (r: usize)
    requires
        from <= s@.len(),
    ensures
        r == line_end(s@, from as int),
        from <= r <= s@.len(),
{
    let mut i: usize = from;
    while i < s.len() && s[i] != NL
        invariant
            from <= i <= s@.len(),
            line_end(s@, from as int) == line_end(s@, i as int),
        decreases s@.len() - i,
    {
        i = i + 1;
    }
    proof {
        lemma_line_end_bounds(s@, from as int);
    }
    if i < s.len() {
        i + 1
    } else {
        i
    }
}

/// Lexicographic order on byte sequences.
pub open spec fn lex_le(a: Seq<u8>, b: Seq<u8>) -> bool
    decreases a.len(),
{
    if a.len() == 0 {
        true
    } else if b.len() == 0 {
        false
    } else if a[0] < b[0] {
        true
    } else if a[0] > b[0] {
        false
    } else {
        lex_le(a.skip(1), b.skip(1))
    }
}

pub proof fn lemma_lex_le_total(a: Seq<u8>, b: Seq<u8>)
    ensures
        lex_le(a, b) || lex_le(b, a),
        lex_le(a, b) && lex_le(b, a) ==> a == b,
    decreases a.len(),
{
    if a.len() > 0 && b.len() > 0 && a[0] == b[0] {
        lemma_lex_le_total(a.skip(1), b.skip(1));
        if lex_le(a, b) && lex_le(b, a) {
            assert(a.skip(1) == b.skip(1));
            assert forall|i: int| 0 <= i < a.len() implies a[i] == b[i] by {
                if i > 0 {
                    assert(a.skip(1)[i - 1] == b.skip(1)[i - 1]);
                }
            }
            assert(a =~= b);
        }
    } else if a.len() > 0 && b.len() > 0 {
        if lex_le(a, b) && lex_le(b, a) {
            assert(false);
        }
    } else if a.len() == 0 && b.len() == 0 {
        assert(a =~= b);
    }
}

pub proof fn lemma_lex_le_trans(a: Seq<u8>, b: Seq<u8>, c: Seq<u8>)
    requires
        lex_le(a, b),
        lex_le(b, c),
    ensures
        lex_le(a, c),
    decreases a.len(),
{
    if a.len() > 0 && b.len() > 0 && c.len() > 0 && a[0] == b[0] && b[0] == c[0] {
        lemma_lex_le_trans(a.skip(1), b.skip(1), c.skip(1));
    }
}

/// Compare two slices lexicographically.
pub fn bytes_le(a: &[u8], b: &[u8]) -> (r: bool)
    ensures
        r == lex_le(a@, b@),
{
    let mut i: usize = 0;
    proof {
        assert(a@.skip(0) =~= a@);
        assert(b@.skip(0) =~= b@);
    }
    while i < a.len() && i < b.len()
        invariant
            i <= a@.len(),
            i <= b@.len(),
            lex_le(a@, b@) == lex_le(a@.skip(i as int), b@.skip(i as int)),
            forall|j: int| 0 <= j < i ==> a@[j] == b@[j],
        decreases a@.len() - i,
    {
        if a[i] < b[i] {
            return true;
        }
        if a[i] > b[i] {
            return false;
        }
        proof {
            assert(a@.skip(i as int).skip(1) =~= a@.skip(i + 1));
            assert(b@.skip(i as int).skip(1) =~= b@.skip(i + 1));
        }
        i = i + 1;
    }
    a.len() <= b.len()
}

/// `needle` occurs somewhere inside `hay`.
pub open spec fn contains_seq(hay: Seq<u8>, needle: Seq<u8>) -> bool {
    exists|i: int|
        0 <= i && i + needle.len() <= hay.len() && #[trigger] hay.subrange(i, i + needle.len())
            == needle
}

/// Search for `needle` inside `hay`.
pub fn contains_bytes(hay: &[u8], needle: &[u8]) -> (r: bool)
    ensures
        r == contains_seq(hay@, needle@),
{
    if needle.len() > hay.len() {
        return false;
    }
    if needle.len() == 0 {
        proof {
            assert(hay@.subrange(0, 0 + needle@.len() as int) =~= needle@);
        }
        return true;
    }
    let bound: usize = hay.len() - needle.len();
    let mut i: usize = 0;
    while i <= bound
        invariant
            1 <= needle@.len() <= hay@.len(),
            hay@.len() <= usize::MAX,
            bound == hay@.len() - needle@.len(),
            i <= bound + 1,
            forall|k: int|
                0 <= k < i && k + needle@.len() <= hay@.len() ==> #[trigger] hay@.subrange(
                    k,
                    k + needle@.len(),
                ) != needle@,
        decreases hay@.len() - i,
    {
        let mut j: usize = 0;
        let mut matches: bool = true;
        proof {
            assert(hay@.subrange(i as int, i as int) =~= needle@.take(0));
        }
        while j < needle.len()
            invariant
                i + needle@.len() <= hay@.len(),
                hay@.len() <= usize::MAX,
                j <= needle@.len(),
                matches == (hay@.subrange(i as int, i + j) == needle@.take(j as int)),
            decreases needle@.len() - j,
        {
            let hb: u8 = hay[i + j];
            let nb: u8 = needle[j];
            proof {
                let pre_s = hay@.subrange(i as int, i + j);
                let pre_t = needle@.take(j as int);
                let ext_s = hay@.subrange(i as int, i + j + 1);
                let ext_t = needle@.take(j + 1);
                assert(ext_s =~= pre_s.push(hay@[i + j]));
                assert(ext_t =~= pre_t.push(needle@[j as int]));
                assert((ext_s == ext_t) == (pre_s == pre_t && hay@[i + j] == needle@[j as int]))
                    by {
                    if ext_s == ext_t {
                        assert(pre_s =~= ext_s.drop_last());
                        assert(pre_t =~= ext_t.drop_last());
                        assert(ext_s[j as int] == ext_t[j as int]);
                    } else {
                        if pre_s == pre_t && hay@[i + j] == needle@[j as int] {
                            assert(ext_s =~= ext_t);
                        }
                    }
                }
            }
            if hb != nb {
                matches = false;
            }
            j = j + 1;
        }
        proof {
            assert(needle@.take(needle@.len() as int) =~= needle@);
        }
        if matches {
            return true;
        }
        i = i + 1;
    }
    proof {
        if contains_seq(hay@, needle@) {
            let k = choose|k: int|
                0 <= k && k + needle@.len() <= hay@.len() && #[trigger] hay@.subrange(
                    k,
                    k + needle@.len(),
                ) == needle@;
            assert(k < i);
            assert(false);
        }
    }
    false
}

/// Lower-case an ASCII byte.
pub open spec fn to_lower(b: u8) -> u8 {
    if 0x41 <= b && b <= 0x5a {
        (b + 0x20) as u8
    } else {
        b
    }
}

/// The sequence with every ASCII upper-case byte lowered.
pub open spec fn lower_seq(s: Seq<u8>) -> Seq<u8> {
    Seq::new(s.len(), |i: int| to_lower(s[i]))
}

/// Lower-case every ASCII letter of a slice.
pub fn lower_bytes(s: &[u8]) -> (r: Vec<u8>)
    ensures
        r@ == lower_seq(s@),
{
    let mut out: Vec<u8> = Vec::new();
    let mut i: usize = 0;
    while i < s.len()
        invariant
            i <= s@.len(),
            out@.len() == i,
            forall|j: int| 0 <= j < i ==> out@[j] == to_lower(s@[j]),
        decreases s@.len() - i,
    {
        let b: u8 = s[i];
        if 0x41 <= b && b <= 0x5a {
            out.push(b + 0x20);
        } else {
            out.push(b);
        }
        i = i + 1;
    }
    proof {
        assert(out@ =~= lower_seq(s@));
    }
    out
}

/// `base`, a separator, then `name`.
pub open spec fn joined_path(base: Seq<u8>, name: Seq<u8>) -> Seq<u8> {
    base + seq![SLASH] + name
}

/// Join a directory path and a relative name with a separator.
pub fn path_join(base: &[u8], name: &[u8]) -> (r: Vec<u8>)
    ensures
        r@ == joined_path(base@, name@),
{
    let mut out: Vec<u8> = Vec::new();
    append_slice(&mut out, base);
    out.push(SLASH);
    append_slice(&mut out, name);
    proof {
        assert(out@ =~= joined_path(base@, name@));
    }
    out
}

/// The prefix of `s` before its last separator, if `s` has one.
pub open spec fn parent_path(s: Seq<u8>) -> Option<Seq<u8>>
    decreases s.len(),
{
    if s.len() == 0 {
        None
    } else if s.last() == SLASH {
        Some(s.drop_last())
    } else {
        parent_path(s.drop_last())
    }
}

/// Strip the final component from a path.
pub fn path_parent(s: &[u8]) -> (r: Option<Vec<u8>>)
    ensures
        match r {
            Some(p) => parent_path(s@) == Some(p@),
            None => parent_path(s@) is None,
        },
{
    let mut e: usize = s.len();
    proof {
        assert(s@.take(s@.len() as int) =~= s@);
    }
    while e > 0 && s[e - 1] != SLASH
        invariant
            e <= s@.len(),
            parent_path(s@) == parent_path(s@.take(e as int)),
        decreases e,
    {
        proof {
            assert(s@.take(e as int).drop_last() =~= s@.take(e - 1));
        }
        e = e - 1;
    }
    if e == 0 {
        None
    } else {
        proof {
            assert(s@.take(e as int).last() == s@[e - 1]);
            assert(s@.take(e as int).drop_last() =~= s@.take(e - 1));
        }
        Some(subrange_vec(s, 0, e - 1))
    }
}

/// The decimal digits of `n`, most significant first.
pub open spec fn dec_u128(n: nat) -> Seq<u8>
    decreases n,
{
    if n < 10 {
        seq![(0x30 + n) as u8]
    } else {
        dec_u128(n / 10) + seq![(0x30 + n % 10) as u8]
    }
}

/// Append the decimal rendering of `n`.
pub fn push_dec_u128(out: &mut Vec<u8>, n: u128)
    ensures
        final(out)@ == old(out)@ + dec_u128(n as nat),
    decreases n,
{
    if n < 10 {
        out.push(0x30 + (n as u8));
        proof {
            assert(out@ =~= old(out)@ + dec_u128(n as nat));
        }
    } else {
        push_dec_u128(out, n / 10);
        out.push(0x30 + ((n % 10) as u8));
        proof {
            assert(out@ =~= old(out)@ + dec_u128(n as nat));
        }
    }
}

/// Append the decimal rendering of a 64-bit value.
pub fn push_dec_u64(out: &mut Vec<u8>, n: u64)
    ensures
        final(out)@ == old(out)@ + dec_u128(n as nat),
{
    push_dec_u128(out, n as u128);
}

/// The decimal rendering of `n` as a fresh vector.
pub fn dec_bytes_u64(n: u64) -> (r: Vec<u8>)
    ensures
        r@ == dec_u128(n as nat),
{
    let mut out: Vec<u8> = Vec::new();
    push_dec_u64(&mut out, n);
    proof {
        assert(out@ =~= dec_u128(n as nat));
    }
    out
}

} // verus!
