//! The directory snapshot wire format: a magic tag, a record count, then
//! length-prefixed `(relative path, contents)` records.  Encoding and
//! decoding are exact inverses, which the round-trip law at the end states.

use vstd::prelude::*;

verus! {

use crate::errors::ErrorKind;
use crate::text::{append_slice, subrange_vec, lex_le};

/// One file of a captured directory tree: its relative path and its bytes.
pub struct TreeFile {
    pub rel: Vec<u8>,
    pub data: Vec<u8>,
}

impl View for TreeFile {
    type V = (Seq<u8>, Seq<u8>);

    open spec fn view(&self) -> (Seq<u8>, Seq<u8>) {
        (self.rel@, self.data@)
    }
}

/// The views of a tree-file list.
pub open spec fn tree_view(files: Seq<TreeFile>) -> Seq<(Seq<u8>, Seq<u8>)> {
    Seq::new(files.len(), |i: int| files[i]@)
}

/// The five magic bytes that open every snapshot.
pub open spec fn snapshot_magic() -> Seq<u8> {
    seq![0x52u8, 0x4cu8, 0x59u8, 0x44u8, 0x31u8]
}

pub fn snapshot_magic_vec() -> (r: Vec<u8>)
    ensures
        r@ == snapshot_magic(),
{
    let mut v: Vec<u8> = Vec::new();
    v.push(0x52);
    v.push(0x4c);
    v.push(0x59);
    v.push(0x44);
    v.push(0x31);
    proof {
        assert(v@ =~= snapshot_magic());
    }
    v
}

/// Four little-endian bytes of a 32-bit value.
pub open spec fn le32(n: u32) -> Seq<u8> {
    seq![
        (n & 0xff) as u8,
        ((n >> 8) & 0xff) as u8,
        ((n >> 16) & 0xff) as u8,
        ((n >> 24) & 0xff) as u8,
    ]
}

/// Eight little-endian bytes of a 64-bit value.
pub open spec fn le64(n: u64) -> Seq<u8> {
    seq![
        (n & 0xff) as u8,
        ((n >> 8) & 0xff) as u8,
        ((n >> 16) & 0xff) as u8,
        ((n >> 24) & 0xff) as u8,
        ((n >> 32) & 0xff) as u8,
        ((n >> 40) & 0xff) as u8,
        ((n >> 48) & 0xff) as u8,
        ((n >> 56) & 0xff) as u8,
    ]
}

/// The value of four little-endian bytes.
pub open spec fn u32_of_le(b: Seq<u8>) -> int {
    b[0] + b[1] * 0x100 + b[2] * 0x10000 + b[3] * 0x1000000
}

/// The value of eight little-endian bytes.
pub open spec fn u64_of_le(b: Seq<u8>) -> int {
    b[0] + b[1] * 0x100 + b[2] * 0x10000 + b[3] * 0x1000000 + b[4] * 0x100000000 + b[5]
        * 0x10000000000 + b[6] * 0x1000000000000 + b[7] * 0x100000000000000
}

pub proof fn lemma_le32_inverse(n: u32)
    ensures
        u32_of_le(le32(n)) == n,
{
    assert(n & 0xff < 0x100) by (bit_vector);
    assert((n >> 8) & 0xff < 0x100) by (bit_vector);
    assert((n >> 16) & 0xff < 0x100) by (bit_vector);
    assert((n >> 24) & 0xff < 0x100) by (bit_vector);
    assert((n & 0xff) + ((n >> 8) & 0xff) * 0x100 + ((n >> 16) & 0xff) * 0x10000 + ((n >> 24)
        & 0xff) * 0x1000000 == n) by (bit_vector);
    assert(le32(n)[0] == (n & 0xff) as u8);
    assert(u32_of_le(le32(n)) == ((n & 0xff) as u8) + (((n >> 8) & 0xff) as u8) * 0x100 + (((n
        >> 16) & 0xff) as u8) * 0x10000 + (((n >> 24) & 0xff) as u8) * 0x1000000);
}

pub proof fn lemma_le64_inverse(n: u64)
    ensures
        u64_of_le(le64(n)) == n,
{
    assert(n & 0xff < 0x100) by (bit_vector);
    assert((n >> 8) & 0xff < 0x100) by (bit_vector);
    assert((n >> 16) & 0xff < 0x100) by (bit_vector);
    assert((n >> 24) & 0xff < 0x100) by (bit_vector);
    assert((n >> 32) & 0xff < 0x100) by (bit_vector);
    assert((n >> 40) & 0xff < 0x100) by (bit_vector);
    assert((n >> 48) & 0xff < 0x100) by (bit_vector);
    assert((n >> 56) & 0xff < 0x100) by (bit_vector);
    assert((n & 0xff) + ((n >> 8) & 0xff) * 0x100 + ((n >> 16) & 0xff) * 0x10000 + ((n >> 24)
        & 0xff) * 0x1000000 + ((n >> 32) & 0xff) * 0x100000000 + ((n >> 40) & 0xff)
        * 0x10000000000 + ((n >> 48) & 0xff) * 0x1000000000000 + ((n >> 56) & 0xff)
        * 0x100000000000000 == n) by (bit_vector);
}

/// One encoded record.
pub open spec fn enc_record(r: (Seq<u8>, Seq<u8>)) -> Seq<u8> {
    le32(r.0.len() as u32) + r.0 + le64(r.1.len() as u64) + r.1
}

/// The records of a tree, encoded in order.
pub open spec fn enc_records(rs: Seq<(Seq<u8>, Seq<u8>)>) -> Seq<u8>
    decreases rs.len(),
{
    if rs.len() == 0 {
        Seq::<u8>::empty()
    } else {
        enc_record(rs.first()) + enc_records(rs.drop_first())
    }
}

/// A whole encoded snapshot.
pub open spec fn spec_encode(rs: Seq<(Seq<u8>, Seq<u8>)>) -> Seq<u8> {
    snapshot_magic() + le32(rs.len() as u32) + enc_records(rs)
}

/// A record list whose lengths fit the wire format.
pub open spec fn records_wf(rs: Seq<(Seq<u8>, Seq<u8>)>) -> bool {
    &&& rs.len() <= u32::MAX
    &&& forall|i: int|
        0 <= i < rs.len() ==> (#[trigger] rs[i]).0.len() <= u32::MAX && rs[i].1.len() <= u64::MAX
}

/// A UTF-8 continuation byte.
pub open spec fn is_cont(b: u8) -> bool {
    0x80 <= b <= 0xbf
}

/// Well-formed UTF-8, by the byte-level rules: ASCII, two-, three- and
/// four-byte sequences with their restricted second bytes, no surrogates
/// and nothing past the last code point.
pub open spec fn is_utf8(s: Seq<u8>) -> bool
    decreases s.len(),
{
    if s.len() == 0 {
        true
    } else {
        let b0 = s[0];
        if b0 < 0x80 {
            is_utf8(s.skip(1))
        } else if 0xc2 <= b0 <= 0xdf {
            s.len() >= 2 && is_cont(s[1]) && is_utf8(s.skip(2))
        } else if b0 == 0xe0 {
            s.len() >= 3 && 0xa0 <= s[1] <= 0xbf && is_cont(s[2]) && is_utf8(s.skip(3))
        } else if 0xe1 <= b0 <= 0xec || b0 == 0xee || b0 == 0xef {
            s.len() >= 3 && is_cont(s[1]) && is_cont(s[2]) && is_utf8(s.skip(3))
        } else if b0 == 0xed {
            s.len() >= 3 && 0x80 <= s[1] <= 0x9f && is_cont(s[2]) && is_utf8(s.skip(3))
        } else if b0 == 0xf0 {
            s.len() >= 4 && 0x90 <= s[1] <= 0xbf && is_cont(s[2]) && is_cont(s[3]) && is_utf8(
                s.skip(4),
            )
        } else if 0xf1 <= b0 <= 0xf3 {
            s.len() >= 4 && is_cont(s[1]) && is_cont(s[2]) && is_cont(s[3]) && is_utf8(s.skip(4))
        } else if b0 == 0xf4 {
            s.len() >= 4 && 0x80 <= s[1] <= 0x8f && is_cont(s[2]) && is_cont(s[3]) && is_utf8(
                s.skip(4),
            )
        } else {
            false
        }
    }
}

/// Check a byte string for UTF-8 well-formedness.
pub fn is_utf8_bytes(s: &[u8]) -> (r: bool)
    ensures
        r == is_utf8(s@),
{
    let mut i: usize = 0;
    proof {
        assert(s@.skip(0) =~= s@);
    }
    while i < s.len()
        invariant
            i <= s@.len(),
            is_utf8(s@) == is_utf8(s@.skip(i as int)),
        decreases s@.len() - i,
    {
        let b0: u8 = s[i];
        proof {
            assert(s@.skip(i as int)[0] == s@[i as int]);
            if i + 1 < s@.len() {
                assert(s@.skip(i as int)[1] == s@[i + 1]);
            }
            if i + 2 < s@.len() {
                assert(s@.skip(i as int)[2] == s@[i + 2]);
            }
            if i + 3 < s@.len() {
                assert(s@.skip(i as int)[3] == s@[i + 3]);
            }
        }
        let width: usize = if b0 < 0x80 {
            1
        } else if 0xc2 <= b0 && b0 <= 0xdf {
            if !(s.len() - i >= 2 && 0x80 <= s[i + 1] && s[i + 1] <= 0xbf) {
                return false;
            }
            2
        } else if b0 == 0xe0 {
            if !(s.len() - i >= 3 && 0xa0 <= s[i + 1] && s[i + 1] <= 0xbf && 0x80 <= s[i + 2]
                && s[i + 2] <= 0xbf) {
                return false;
            }
            3
        } else if (0xe1 <= b0 && b0 <= 0xec) || b0 == 0xee || b0 == 0xef {
            if !(s.len() - i >= 3 && 0x80 <= s[i + 1] && s[i + 1] <= 0xbf && 0x80 <= s[i + 2]
                && s[i + 2] <= 0xbf) {
                return false;
            }
            3
        } else if b0 == 0xed {
            if !(s.len() - i >= 3 && 0x80 <= s[i + 1] && s[i + 1] <= 0x9f && 0x80 <= s[i + 2]
                && s[i + 2] <= 0xbf) {
                return false;
            }
            3
        } else if b0 == 0xf0 {
            if !(s.len() - i >= 4 && 0x90 <= s[i + 1] && s[i + 1] <= 0xbf && 0x80 <= s[i + 2]
                && s[i + 2] <= 0xbf && 0x80 <= s[i + 3] && s[i + 3] <= 0xbf) {
                return false;
            }
            4
        } else if 0xf1 <= b0 && b0 <= 0xf3 {
            if !(s.len() - i >= 4 && 0x80 <= s[i + 1] && s[i + 1] <= 0xbf && 0x80 <= s[i + 2]
                && s[i + 2] <= 0xbf && 0x80 <= s[i + 3] && s[i + 3] <= 0xbf) {
                return false;
            }
            4
        } else if b0 == 0xf4 {
            if !(s.len() - i >= 4 && 0x80 <= s[i + 1] && s[i + 1] <= 0x8f && 0x80 <= s[i + 2]
                && s[i + 2] <= 0xbf && 0x80 <= s[i + 3] && s[i + 3] <= 0xbf) {
                return false;
            }
            4
        } else {
            return false;
        };
        proof {
            assert(s@.skip(i as int).skip(width as int) =~= s@.skip(i + width));
        }
        i = i + width;
    }
    proof {
        assert(is_utf8(s@.skip(i as int)));
    }
    true
}

/// Every relative path of the record list is well-formed UTF-8.
pub open spec fn rels_utf8(rs: Seq<(Seq<u8>, Seq<u8>)>) -> bool {
    forall|i: int| 0 <= i < rs.len() ==> is_utf8((#[trigger] rs[i]).0)
}

/// Append the little-endian bytes of a 32-bit value.
pub fn push_le32(out: &mut Vec<u8>, n: u32)
    ensures
        final(out)@ == old(out)@ + le32(n),
{
    out.push((n & 0xff) as u8);
    out.push(((n >> 8) & 0xff) as u8);
    out.push(((n >> 16) & 0xff) as u8);
    out.push(((n >> 24) & 0xff) as u8);
    proof {
        assert(out@ =~= old(out)@ + le32(n));
    }
}

/// Append the little-endian bytes of a 64-bit value.
pub fn push_le64(out: &mut Vec<u8>, n: u64)
    ensures
        final(out)@ == old(out)@ + le64(n),
{
    out.push((n & 0xff) as u8);
    out.push(((n >> 8) & 0xff) as u8);
    out.push(((n >> 16) & 0xff) as u8);
    out.push(((n >> 24) & 0xff) as u8);
    out.push(((n >> 32) & 0xff) as u8);
    out.push(((n >> 40) & 0xff) as u8);
    out.push(((n >> 48) & 0xff) as u8);
    out.push(((n >> 56) & 0xff) as u8);
    proof {
        assert(out@ =~= old(out)@ + le64(n));
    }
}

/// Encode a directory tree, first record first.
pub fn encode_dir_snapshot(files: &Vec<TreeFile>) -> (r: Vec<u8>)
    requires
        records_wf(tree_view(files@)),
    ensures
        r@ == spec_encode(tree_view(files@)),
{
    let magic: Vec<u8> = snapshot_magic_vec();
    let mut out: Vec<u8> = Vec::new();
    append_slice(&mut out, magic.as_slice());
    push_le32(&mut out, files.len() as u32);
    let ghost rs = tree_view(files@);
    let mut k: usize = 0;
    proof {
        assert(enc_records(rs.skip(0)) == enc_records(rs)) by {
            assert(rs.skip(0) =~= rs);
        }
        assert(out@ =~= snapshot_magic() + le32(rs.len() as u32));
    }
    while k < files.len()
        invariant
            k <= files@.len(),
            rs == tree_view(files@),
            records_wf(rs),
            out@ + enc_records(rs.skip(k as int)) == spec_encode(rs),
        decreases files@.len() - k,
    {
        let ghost out0 = out@;
        let f: &TreeFile = &files[k];
        proof {
            assert(rs[k as int] == (f.rel@, f.data@));
        }
        push_le32(&mut out, f.rel.len() as u32);
        append_slice(&mut out, f.rel.as_slice());
        push_le64(&mut out, f.data.len() as u64);
        append_slice(&mut out, f.data.as_slice());
        proof {
            let tail = rs.skip(k as int);
            assert(tail.first() == rs[k as int]);
            assert(tail.drop_first() =~= rs.skip(k + 1));
            assert(out@ =~= out0 + enc_record(rs[k as int]));
            assert(out0 + enc_record(rs[k as int]) + enc_records(rs.skip(k + 1)) =~= out0 + (
            enc_record(rs[k as int]) + enc_records(rs.skip(k + 1))));
        }
        k = k + 1;
    }
    proof {
        assert(rs.skip(rs.len() as int) =~= Seq::<(Seq<u8>, Seq<u8>)>::empty());
        assert(out@ + enc_records(rs.skip(rs.len() as int)) =~= out@);
    }
    out
}

/// Parse `k` records of `s` starting at `i`; trailing bytes are ignored.
pub open spec fn dec_records(s: Seq<u8>, i: int, k: nat) -> Option<Seq<(Seq<u8>, Seq<u8>)>>
    decreases k,
{
    if k == 0 {
        Some(Seq::<(Seq<u8>, Seq<u8>)>::empty())
    } else if i < 0 || i + 4 > s.len() {
        None
    } else {
        let rl = u32_of_le(s.subrange(i, i + 4));
        if i + 4 + rl > s.len() {
            None
        } else {
            let rel = s.subrange(i + 4, i + 4 + rl);
            if !is_utf8(rel) {
                None
            } else if i + 4 + rl + 8 > s.len() {
                None
            } else {
                let dl = u64_of_le(s.subrange(i + 4 + rl, i + 4 + rl + 8));
                if i + 4 + rl + 8 + dl > s.len() {
                    None
                } else {
                    let data = s.subrange(i + 4 + rl + 8, i + 4 + rl + 8 + dl);
                    match dec_records(s, i + 4 + rl + 8 + dl, (k - 1) as nat) {
                        Some(rest) => Some(seq![(rel, data)] + rest),
                        None => None,
                    }
                }
            }
        }
    }
}

/// Parse a whole snapshot: magic, count, then that many records.
pub open spec fn spec_decode(s: Seq<u8>) -> Option<Seq<(Seq<u8>, Seq<u8>)>> {
    if s.len() < 9 || s.subrange(0, 5) != snapshot_magic() {
        None
    } else {
        dec_records(s, 9, u32_of_le(s.subrange(5, 9)) as nat)
    }
}

/// Read four little-endian bytes at `i`.
pub fn read_u32_at(s: &[u8], i: usize) -> (r: u32)
    requires
        i + 4 <= s@.len(),
    ensures
        r == u32_of_le(s@.subrange(i as int, i + 4)),
{
    let ghost b = s@.subrange(i as int, i + 4);
    let r: u32 = s[i] as u32 + s[i + 1] as u32 * 0x100 + s[i + 2] as u32 * 0x10000 + s[i
        + 3] as u32 * 0x1000000;
    proof {
        assert(b[0] == s@[i as int] && b[1] == s@[i + 1] && b[2] == s@[i + 2] && b[3] == s@[i
            + 3]);
    }
    r
}

/// Read eight little-endian bytes at `i`.
pub fn read_u64_at(s: &[u8], i: usize) -> (r: u64)
    requires
        i + 8 <= s@.len(),
    ensures
        r == u64_of_le(s@.subrange(i as int, i + 8)),
{
    let ghost b = s@.subrange(i as int, i + 8);
    let r: u64 = s[i] as u64 + s[i + 1] as u64 * 0x100 + s[i + 2] as u64 * 0x10000 + s[i
        + 3] as u64 * 0x1000000 + s[i + 4] as u64 * 0x100000000 + s[i + 5] as u64 * 0x10000000000
        + s[i + 6] as u64 * 0x1000000000000 + s[i + 7] as u64 * 0x100000000000000;
    proof {
        assert(b[0] == s@[i as int] && b[1] == s@[i + 1] && b[2] == s@[i + 2] && b[3] == s@[i + 3]
            && b[4] == s@[i + 4] && b[5] == s@[i + 5] && b[6] == s@[i + 6] && b[7] == s@[i + 7]);
    }
    r
}

/// Decode a snapshot, rejecting a bad magic tag and truncated records.
pub fn decode_dir_snapshot(bytes: &[u8]) -> (r: Result<Vec<TreeFile>, ErrorKind>)
    ensures
        match r {
            Ok(files) => spec_decode(bytes@) == Some(tree_view(files@)),
            Err(e) => spec_decode(bytes@) is None && e == ErrorKind::InvalidData,
        },
{
    let magic: Vec<u8> = snapshot_magic_vec();
    if bytes.len() < 9 {
        return Err(ErrorKind::InvalidData);
    }
    let head: Vec<u8> = subrange_vec(bytes, 0, 5);
    if !crate::text::bytes_eq(head.as_slice(), magic.as_slice()) {
        return Err(ErrorKind::InvalidData);
    }
    let count: u32 = read_u32_at(bytes, 5);
    let mut out: Vec<TreeFile> = Vec::new();
    let mut idx: usize = 9;
    let mut parsed: u32 = 0;
    proof {
        assert(tree_view(out@) =~= Seq::<(Seq<u8>, Seq<u8>)>::empty());
    }
    while parsed < count
        invariant
            parsed <= count,
            9 <= idx <= bytes@.len(),
            count == u32_of_le(bytes@.subrange(5, 9)),
            tree_view(out@).len() == parsed,
            match dec_records(bytes@, idx as int, (count - parsed) as nat) {
                Some(rest) => spec_decode(bytes@) == Some(tree_view(out@) + rest),
                None => spec_decode(bytes@) is None,
            },
        decreases count - parsed,
    {
        let ghost pre = tree_view(out@);
        if idx > bytes.len() - 4 {
            return Err(ErrorKind::InvalidData);
        }
        let rl32: u32 = read_u32_at(bytes, idx);
        let rl: usize = rl32 as usize;
        if rl > bytes.len() - idx - 4 {
            return Err(ErrorKind::InvalidData);
        }
        let rel: Vec<u8> = subrange_vec(bytes, idx + 4, idx + 4 + rl);
        if !is_utf8_bytes(rel.as_slice()) {
            return Err(ErrorKind::InvalidData);
        }
        if 8 > bytes.len() - idx - 4 - rl {
            return Err(ErrorKind::InvalidData);
        }
        let dl64: u64 = read_u64_at(bytes, idx + 4 + rl);
        if dl64 > (bytes.len() - idx - 4 - rl - 8) as u64 {
            return Err(ErrorKind::InvalidData);
        }
        let dl: usize = dl64 as usize;
        let data: Vec<u8> = subrange_vec(bytes, idx + 4 + rl + 8, idx + 4 + rl + 8 + dl);
        out.push(TreeFile { rel, data });
        proof {
            let i = idx as int;
            assert(tree_view(out@) =~= pre + seq![(bytes@.subrange(i + 4, i + 4 + rl), bytes@
                .subrange(i + 4 + rl + 8, i + 4 + rl + 8 + dl))]);
            let rec: Seq<(Seq<u8>, Seq<u8>)> = seq![(bytes@.subrange(i + 4, i + 4 + rl), bytes@
                .subrange(i + 4 + rl + 8, i + 4 + rl + 8 + dl))];
            match dec_records(bytes@, i + 4 + rl + 8 + dl, (count - parsed - 1) as nat) {
                Some(rest) => {
                    assert(pre + (rec + rest) =~= (pre + rec) + rest);
                },
                None => {},
            }
        }
        idx = idx + 4 + rl + 8 + dl;
        parsed = parsed + 1;
    }
    proof {
        assert(tree_view(out@) + Seq::<(Seq<u8>, Seq<u8>)>::empty() =~= tree_view(out@));
    }
    Ok(out)
}

/// Decoding a snapshot that encoding produced yields the records that went
/// in: the byte format loses nothing, whatever the record contents.
pub proof fn lemma_snapshot_round_trip(rs: Seq<(Seq<u8>, Seq<u8>)>)
    requires
        records_wf(rs),
        rels_utf8(rs),
    ensures
        spec_decode(spec_encode(rs)) == Some(rs),
{
    let s = spec_encode(rs);
    assert(s.subrange(0, 5) =~= snapshot_magic());
    assert(s.subrange(5, 9) =~= le32(rs.len() as u32));
    lemma_le32_inverse(rs.len() as u32);
    assert(s.subrange(9, 9 + enc_records(rs).len() as int) =~= enc_records(rs)) by {
        assert forall|j: int| 0 <= j < enc_records(rs).len() implies #[trigger] s.subrange(
            9,
            9 + enc_records(rs).len() as int,
        )[j] == enc_records(rs)[j] by {
            assert(s[9 + j] == enc_records(rs)[j]);
        }
    }
    lemma_dec_records_of_enc(s, 9, rs);
}

/// Parsing `rs.len()` records out of any byte string that carries
/// `enc_records(rs)` at position `i` gives back exactly `rs`.
proof fn lemma_dec_records_of_enc(s: Seq<u8>, i: int, rs: Seq<(Seq<u8>, Seq<u8>)>)
    requires
        records_wf(rs),
        rels_utf8(rs),
        0 <= i,
        i + enc_records(rs).len() <= s.len(),
        s.subrange(i, i + enc_records(rs).len() as int) == enc_records(rs),
    ensures
        dec_records(s, i, rs.len()) == Some(rs),
    decreases rs.len(),
{
    if rs.len() == 0 {
        assert(dec_records(s, i, 0) == Some(Seq::<(Seq<u8>, Seq<u8>)>::empty()));
        assert(rs =~= Seq::<(Seq<u8>, Seq<u8>)>::empty());
    } else {
        let r0 = rs.first();
        let rest = rs.drop_first();
        let rec = enc_record(r0);
        let all = enc_records(rs);
        assert(all == rec + enc_records(rest));
        let rl = r0.0.len() as int;
        let dl = r0.1.len() as int;
        assert(rec.len() == 4 + rl + 8 + dl) by {
            assert(le32(r0.0.len() as u32).len() == 4);
            assert(le64(r0.1.len() as u64).len() == 8);
        }
        // the four length bytes
        assert(s.subrange(i, i + 4) =~= le32(r0.0.len() as u32)) by {
            assert(s.subrange(i, i + all.len() as int)[0] == all[0]);
            assert(s.subrange(i, i + all.len() as int)[1] == all[1]);
            assert(s.subrange(i, i + all.len() as int)[2] == all[2]);
            assert(s.subrange(i, i + all.len() as int)[3] == all[3]);
        }
        lemma_le32_inverse(r0.0.len() as u32);
        // the relative path bytes
        assert(s.subrange(i + 4, i + 4 + rl) =~= r0.0) by {
            assert forall|j: int| 0 <= j < rl implies s.subrange(i + 4, i + 4 + rl)[j]
                == #[trigger] r0.0[j] by {
                assert(s.subrange(i, i + all.len() as int)[4 + j] == all[4 + j]);
                assert(all[4 + j] == rec[4 + j]);
            }
        }
        // the eight data-length bytes
        assert(s.subrange(i + 4 + rl, i + 4 + rl + 8) =~= le64(r0.1.len() as u64)) by {
            assert forall|j: int| 0 <= j < 8 implies #[trigger] s.subrange(
                i + 4 + rl,
                i + 4 + rl + 8,
            )[j] == le64(r0.1.len() as u64)[j] by {
                assert(s.subrange(i, i + all.len() as int)[4 + rl + j] == all[4 + rl + j]);
                assert(all[4 + rl + j] == rec[4 + rl + j]);
            }
        }
        lemma_le64_inverse(r0.1.len() as u64);
        // the data bytes
        assert(s.subrange(i + 4 + rl + 8, i + 4 + rl + 8 + dl) =~= r0.1) by {
            assert forall|j: int| 0 <= j < dl implies s.subrange(i + 4 + rl + 8, i + 4 + rl + 8
                + dl)[j] == #[trigger] r0.1[j] by {
                assert(s.subrange(i, i + all.len() as int)[4 + rl + 8 + j] == all[4 + rl + 8 + j]);
                assert(all[4 + rl + 8 + j] == rec[4 + rl + 8 + j]);
            }
        }
        // the tail
        let i2 = i + rec.len() as int;
        assert(s.subrange(i2, i2 + enc_records(rest).len() as int) =~= enc_records(rest)) by {
            assert forall|j: int| 0 <= j < enc_records(rest).len() implies #[trigger] s.subrange(
                i2,
                i2 + enc_records(rest).len() as int,
            )[j] == enc_records(rest)[j] by {
                assert(s.subrange(i, i + all.len() as int)[rec.len() + j] == all[rec.len() + j]);
            }
        }
        lemma_dec_records_of_enc(s, i2, rest);
        assert(dec_records(s, i, rs.len()) == Some(seq![r0] + rest));
        assert(seq![r0] + rest =~= rs);
    }
}

/// Whatever decodes came off the wire, so its lengths fit the wire format.
pub proof fn lemma_decode_wf(s: Seq<u8>)
    ensures
        match spec_decode(s) {
            Some(rs) => records_wf(rs),
            None => true,
        },
{
    match spec_decode(s) {
        Some(rs) => {
            let k = u32_of_le(s.subrange(5, 9));
            assert(0 <= k <= u32::MAX) by {
                let b = s.subrange(5, 9);
                assert(b[0] <= 0xff && b[1] <= 0xff && b[2] <= 0xff && b[3] <= 0xff);
            }
            lemma_dec_records_wf(s, 9, k as nat);
        },
        None => {},
    }
}

proof fn lemma_dec_records_wf(s: Seq<u8>, i: int, k: nat)
    ensures
        match dec_records(s, i, k) {
            Some(rs) => rs.len() == k && forall|j: int|
                0 <= j < rs.len() ==> (#[trigger] rs[j]).0.len() <= u32::MAX && rs[j].1.len()
                    <= u64::MAX,
            None => true,
        },
    decreases k,
{
    if k > 0 {
        match dec_records(s, i, k) {
            Some(rs) => {
                let rl = u32_of_le(s.subrange(i, i + 4));
                assert(0 <= rl <= u32::MAX) by {
                    let b = s.subrange(i, i + 4);
                    assert(b[0] <= 0xff && b[1] <= 0xff && b[2] <= 0xff && b[3] <= 0xff);
                }
                let dl = u64_of_le(s.subrange(i + 4 + rl, i + 4 + rl + 8));
                assert(0 <= dl <= u64::MAX) by {
                    let b = s.subrange(i + 4 + rl, i + 4 + rl + 8);
                    assert(b[0] <= 0xff && b[1] <= 0xff && b[2] <= 0xff && b[3] <= 0xff && b[4]
                        <= 0xff && b[5] <= 0xff && b[6] <= 0xff && b[7] <= 0xff);
                }
                lemma_dec_records_wf(s, i + 4 + rl + 8 + dl, (k - 1) as nat);
            },
            None => {},
        }
    }
}

/// Record well-formedness carries across a reordering.
pub proof fn lemma_records_wf_multiset(a: Seq<(Seq<u8>, Seq<u8>)>, b: Seq<(Seq<u8>, Seq<u8>)>)
    requires
        records_wf(a),
        a.to_multiset() == b.to_multiset(),
    ensures
        records_wf(b),
{
    broadcast use vstd::seq_lib::group_to_multiset_ensures;

    assert(b.len() == a.len()) by {
        assert(a.to_multiset().len() == a.len());
        assert(b.to_multiset().len() == b.len());
    }
    assert forall|j: int| 0 <= j < b.len() implies (#[trigger] b[j]).0.len() <= u32::MAX
        && b[j].1.len() <= u64::MAX by {
        assert(b.contains(b[j]));
        assert(b.to_multiset().count(b[j]) > 0);
        assert(a.to_multiset().count(b[j]) > 0);
        assert(a.contains(b[j]));
        let w = choose|w: int| 0 <= w < a.len() && a[w] == b[j];
        assert(a[w].0.len() <= u32::MAX);
    }
}

/// Order tree files by their relative path, keeping every record.
pub fn sort_tree_files(files: Vec<TreeFile>) -> (r: Vec<TreeFile>)
    ensures
        r@.len() == files@.len(),
        tree_view(r@).to_multiset() == tree_view(files@).to_multiset(),
        forall|i: int, j: int|
            0 <= i < j < r@.len() ==> lex_le(#[trigger] r@[i].rel@, #[trigger] r@[j].rel@),
{
    let mut out: Vec<TreeFile> = Vec::new();
    let mut src: Vec<TreeFile> = files;
    proof {
        broadcast use vstd::seq_lib::group_to_multiset_ensures;

        assert(tree_view(out@).to_multiset().add(tree_view(src@).to_multiset()) =~= tree_view(
            files@,
        ).to_multiset()) by {
            assert(tree_view(out@) =~= Seq::<(Seq<u8>, Seq<u8>)>::empty());
            assert(tree_view(src@) =~= tree_view(files@));
        }
    }
    while src.len() > 0
        invariant
            out@.len() + src@.len() == files@.len(),
            tree_view(out@).to_multiset().add(tree_view(src@).to_multiset()) == tree_view(files@)
                .to_multiset(),
            forall|i: int, j: int|
                0 <= i < j < out@.len() ==> lex_le(#[trigger] out@[i].rel@, #[trigger] out@[j].rel@),
            forall|i: int, j: int|
                0 <= i < out@.len() && 0 <= j < src@.len() ==> lex_le(
                    #[trigger] out@[i].rel@,
                    #[trigger] src@[j].rel@,
                ),
        decreases src@.len(),
    {
        // find the least remaining relative path
        let mut best: usize = 0;
        let mut m: usize = 1;
        proof {
            crate::text::lemma_lex_le_total(src@[0].rel@, src@[0].rel@);
        }
        while m < src.len()
            invariant
                src@.len() > 0,
                best < src@.len(),
                m <= src@.len(),
                forall|j: int| 0 <= j < m ==> lex_le(src@[best as int].rel@, #[trigger] src@[j].rel@),
            decreases src@.len() - m,
        {
            if !crate::text::bytes_le(src[best].rel.as_slice(), src[m].rel.as_slice()) {
                proof {
                    crate::text::lemma_lex_le_total(src@[best as int].rel@, src@[m as int].rel@);
                    assert forall|j: int| 0 <= j < m + 1 implies lex_le(
                        src@[m as int].rel@,
                        #[trigger] src@[j].rel@,
                    ) by {
                        if j < m {
                            crate::text::lemma_lex_le_trans(
                                src@[m as int].rel@,
                                src@[best as int].rel@,
                                src@[j].rel@,
                            );
                        } else {
                            crate::text::lemma_lex_le_total(src@[m as int].rel@, src@[m as int].rel@);
                        }
                    }
                }
                best = m;
            } else {
                proof {
                    crate::text::lemma_lex_le_total(src@[m as int].rel@, src@[m as int].rel@);
                }
            }
            m = m + 1;
        }
        let ghost out0 = out@;
        let ghost src0 = src@;
        let picked: TreeFile = src.remove(best);
        out.push(picked);
        proof {
            broadcast use vstd::seq_lib::group_to_multiset_ensures;

            assert(tree_view(out@) =~= tree_view(out0).push(picked@));
            assert(tree_view(src@) =~= tree_view(src0).remove(best as int));
            assert(tree_view(src0)[best as int] == picked@);
            assert(tree_view(src@).to_multiset() =~= tree_view(src0).to_multiset().remove(
                picked@,
            ));
            assert(tree_view(out@).to_multiset() =~= tree_view(out0).to_multiset().insert(
                picked@,
            ));
            assert(tree_view(src0).contains(picked@)) by {
                assert(tree_view(src0)[best as int] == picked@);
            }
            assert(tree_view(src0).to_multiset().count(picked@) > 0);
            assert(tree_view(out@).to_multiset().add(tree_view(src@).to_multiset()) =~= tree_view(
                files@,
            ).to_multiset());
            assert forall|i: int, j: int|
                0 <= i < out@.len() && 0 <= j < src@.len() implies lex_le(
                #[trigger] out@[i].rel@,
                #[trigger] src@[j].rel@,
            ) by {
                if i < out0.len() {
                    let j0 = if j < best as int {
                        j
                    } else {
                        j + 1
                    };
                    assert(src0[j0] == src@[j]);
                } else {
                    let j0 = if j < best as int {
                        j
                    } else {
                        j + 1
                    };
                    assert(src0[j0] == src@[j]);
                    assert(lex_le(picked.rel@, src0[j0].rel@));
                }
            }
        }
    }
    proof {
        broadcast use vstd::seq_lib::group_to_multiset_ensures;

        assert(tree_view(src@).to_multiset() =~= Seq::<(Seq<u8>, Seq<u8>)>::empty().to_multiset())
            by {
            assert(tree_view(src@) =~= Seq::<(Seq<u8>, Seq<u8>)>::empty());
        }
        assert(tree_view(out@).to_multiset().add(tree_view(src@).to_multiset()) =~= tree_view(
            out@,
        ).to_multiset());
    }
    out
}

} // verus!
