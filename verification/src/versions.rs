//! Version-token extraction and comparison against the versions the
//! configuration says were verified.

use vstd::prelude::*;

verus! {

use crate::config::{Config, kv_get, list_has};
use crate::text::{trim, trim_seq, lower_seq, bytes_eq, subrange_vec, is_space};

/// A digit byte.
pub open spec fn is_digit(b: u8) -> bool {
    0x30 <= b <= 0x39
}

/// The index of the first digit at or after `i`, or the length.
pub open spec fn first_digit(s: Seq<u8>, i: int) -> int
    decreases s.len() - i,
{
    if i < 0 || i >= s.len() {
        s.len() as int
    } else if is_digit(s[i]) {
        i
    } else {
        first_digit(s, i + 1)
    }
}

/// The end of the run of digits and dots starting at `i`.
pub open spec fn token_end(s: Seq<u8>, i: int) -> int
    decreases s.len() - i,
{
    if i < 0 || i >= s.len() {
        s.len() as int
    } else if is_digit(s[i]) || s[i] == 0x2e {
        token_end(s, i + 1)
    } else {
        i
    }
}

/// The version token of a string: its first run of digits and dots that
/// starts with a digit.
pub open spec fn spec_version_token(s: Seq<u8>) -> Option<Seq<u8>> {
    let i = first_digit(s, 0);
    if i >= s.len() {
        None
    } else {
        Some(s.subrange(i, token_end(s, i)))
    }
}

/// Extract the version token of an input line.
pub fn extract_version_token(input: &[u8]) -> (r: Option<Vec<u8>>)
    ensures
        match r {
            Some(t) => spec_version_token(input@) == Some(t@),
            None => spec_version_token(input@) is None,
        },
{
    let mut i: usize = 0;
    while i < input.len() && !(0x30 <= input[i] && input[i] <= 0x39)
        invariant
            i <= input@.len(),
            first_digit(input@, 0) == first_digit(input@, i as int),
        decreases input@.len() - i,
    {
        i = i + 1;
    }
    if i >= input.len() {
        return None;
    }
    let start: usize = i;
    let mut e: usize = i;
    while e < input.len() && (0x30 <= input[e] && input[e] <= 0x39 || input[e] == 0x2e)
        invariant
            start <= e <= input@.len(),
            token_end(input@, start as int) == token_end(input@, e as int),
        decreases input@.len() - e,
    {
        e = e + 1;
    }
    Some(subrange_vec(input, start, e))
}

/// A parsed `major.minor` version.
#[derive(Clone, Copy, Debug, PartialEq, Eq, Structural)]
pub struct ParsedVersion {
    pub major: u64,
    pub minor: u64,
}

/// The numeric value of a digit string.
pub open spec fn dec_val(s: Seq<u8>) -> int
    decreases s.len(),
{
    if s.len() == 0 {
        0
    } else {
        dec_val(s.drop_last()) * 10 + (s.last() - 0x30)
    }
}

/// A non-empty string of digits.
pub open spec fn all_digits(s: Seq<u8>) -> bool {
    s.len() > 0 && forall|i: int| 0 <= i < s.len() ==> is_digit(#[trigger] s[i])
}

/// Parse a digit string into a 64-bit value; too-large values and
/// non-digit bytes give nothing.
pub fn parse_u64(s: &[u8]) -> (r: Option<u64>)
    ensures
        match r {
            Some(v) => all_digits(s@) && dec_val(s@) == v,
            None => !all_digits(s@) || dec_val(s@) > u64::MAX,
        },
{
    if s.len() == 0 {
        return None;
    }
    let mut v: u64 = 0;
    let mut i: usize = 0;
    proof {
        assert(s@.take(0) =~= Seq::<u8>::empty());
    }
    while i < s.len()
        invariant
            i <= s@.len(),
            s@.len() > 0,
            v == dec_val(s@.take(i as int)),
            forall|j: int| 0 <= j < i ==> is_digit(#[trigger] s@[j]),
        decreases s@.len() - i,
    {
        let b: u8 = s[i];
        if !(0x30 <= b && b <= 0x39) {
            return None;
        }
        proof {
            assert(s@.take(i + 1).drop_last() =~= s@.take(i as int));
            assert(s@.take(i + 1).last() == s@[i as int]);
        }
        if v > 0xFFFFFFFFFFFFFFFF / 10 {
            proof {
                lemma_dec_val_grows(s@, i as int);
            }
            return None;
        }
        let v10: u64 = v * 10;
        let d: u64 = (b - 0x30) as u64;
        if v10 > u64::MAX - d {
            proof {
                lemma_dec_val_grows(s@, i as int);
            }
            return None;
        }
        v = v10 + d;
        i = i + 1;
    }
    proof {
        assert(s@.take(s@.len() as int) =~= s@);
    }
    Some(v)
}

/// A longer digit prefix never shrinks the value.
proof fn lemma_dec_val_grows(s: Seq<u8>, i: int)
    requires
        0 <= i < s.len(),
        forall|j: int| 0 <= j < i ==> is_digit(#[trigger] s[j]),
        dec_val(s.take(i)) * 10 + (s[i] - 0x30) > u64::MAX,
    ensures
        dec_val(s) > u64::MAX || !all_digits(s),
    decreases s.len() - i,
{
    if all_digits(s) {
        lemma_dec_val_prefix(s, i + 1);
        assert(s.take(i + 1).drop_last() =~= s.take(i));
        assert(s.take(i + 1).last() == s[i]);
        assert(dec_val(s.take(i + 1)) > u64::MAX);
    }
}

/// The value of a prefix bounds the value of the whole digit string.
proof fn lemma_dec_val_prefix(s: Seq<u8>, k: int)
    requires
        0 <= k <= s.len(),
        forall|j: int| 0 <= j < s.len() ==> is_digit(#[trigger] s[j]),
    ensures
        dec_val(s) >= dec_val(s.take(k)),
        dec_val(s.take(k)) >= 0,
    decreases s.len() - k,
{
    if k < s.len() {
        lemma_dec_val_prefix(s, k + 1);
        assert(s.take(k + 1).drop_last() =~= s.take(k));
        assert(s.take(k + 1).last() == s[k]);
        lemma_dec_val_nonneg(s.take(k));
    } else {
        assert(s.take(k) =~= s);
        lemma_dec_val_nonneg(s);
    }
}

proof fn lemma_dec_val_nonneg(s: Seq<u8>)
    requires
        forall|j: int| 0 <= j < s.len() ==> is_digit(#[trigger] s[j]),
    ensures
        dec_val(s) >= 0,
    decreases s.len(),
{
    if s.len() > 0 {
        assert(forall|j: int| 0 <= j < s.drop_last().len() ==> is_digit(#[trigger] s.drop_last()[j]));
        lemma_dec_val_nonneg(s.drop_last());
    }
}

/// The dot-separated segments of a token.
pub open spec fn spec_segments(s: Seq<u8>) -> Seq<Seq<u8>>
    decreases s.len(),
{
    if s.len() == 0 {
        seq![Seq::<u8>::empty()]
    } else if s.last() == 0x2e {
        spec_segments(s.drop_last()).push(Seq::<u8>::empty())
    } else {
        let r = spec_segments(s.drop_last());
        r.update(r.len() - 1, r.last().push(s.last()))
    }
}

/// Split a token at its dots.
pub fn split_dots(s: &[u8]) -> (r: Vec<Vec<u8>>)
    ensures
        r@.len() == spec_segments(s@).len(),
        forall|i: int| 0 <= i < r@.len() ==> (#[trigger] r@[i])@ == spec_segments(s@)[i],
{
    let mut out: Vec<Vec<u8>> = Vec::new();
    out.push(Vec::new());
    let mut i: usize = 0;
    proof {
        assert(s@.take(0) =~= Seq::<u8>::empty());
        assert(Seq::new(out@.len(), |k: int| out@[k]@) =~= spec_segments(s@.take(0)));
    }
    while i < s.len()
        invariant
            i <= s@.len(),
            out@.len() >= 1,
            out@.len() == spec_segments(s@.take(i as int)).len(),
            forall|k: int|
                0 <= k < out@.len() ==> (#[trigger] out@[k])@ == spec_segments(s@.take(i as int))[k],
        decreases s@.len() - i,
    {
        proof {
            assert(s@.take(i + 1).drop_last() =~= s@.take(i as int));
            assert(s@.take(i + 1).last() == s@[i as int]);
        }
        let ghost segs0 = spec_segments(s@.take(i as int));
        if s[i] == 0x2e {
            out.push(Vec::new());
            proof {
                assert forall|k: int| 0 <= k < out@.len() implies (#[trigger] out@[k])@
                    == spec_segments(s@.take(i + 1))[k] by {
                    if k < out@.len() - 1 {
                        assert(out@[k]@ == segs0[k]);
                    }
                }
            }
        } else {
            let last: usize = out.len() - 1;
            let mut seg: Vec<u8> = out.remove(last);
            seg.push(s[i]);
            out.push(seg);
            proof {
                assert forall|k: int| 0 <= k < out@.len() implies (#[trigger] out@[k])@
                    == spec_segments(s@.take(i + 1))[k] by {
                    let segs1 = spec_segments(s@.take(i + 1));
                    assert(segs1 == segs0.update(segs0.len() - 1, segs0.last().push(s@[i as int])));
                    if k < out@.len() - 1 {
                        assert(out@[k]@ == segs0[k]);
                    } else {
                        assert(out@[k]@ == segs0.last().push(s@[i as int]));
                    }
                }
            }
        }
        i = i + 1;
    }
    proof {
        assert(s@.take(s@.len() as int) =~= s@);
    }
    out
}

/// The first two non-empty dot segments, parsed: the major part must
/// parse, a missing or unparsable minor part reads as zero.
pub open spec fn spec_parse_version(s: Seq<u8>) -> Option<ParsedVersion> {
    let parts = spec_segments(s).filter(|p: Seq<u8>| p.len() > 0);
    if parts.len() == 0 {
        None
    } else if !(all_digits(parts[0]) && dec_val(parts[0]) <= u64::MAX) {
        None
    } else {
        let major = dec_val(parts[0]) as u64;
        let minor = if parts.len() >= 2 && all_digits(parts[1]) && dec_val(parts[1]) <= u64::MAX {
            dec_val(parts[1]) as u64
        } else {
            0
        };
        Some(ParsedVersion { major, minor })
    }
}

/// Parse a version token into its major and minor numbers.
pub fn parse_version(token: &[u8]) -> (r: Option<ParsedVersion>)
    ensures
        r == spec_parse_version(token@),
{
    let segs: Vec<Vec<u8>> = split_dots(token);
    let mut parts: Vec<Vec<u8>> = Vec::new();
    let mut i: usize = 0;
    let ghost segv = Seq::new(segs@.len(), |k: int| segs@[k]@);
    proof {
        assert(segv =~= spec_segments(token@));
        assert(segv.take(0) =~= Seq::<Seq<u8>>::empty());
        assert(Seq::new(parts@.len(), |k: int| parts@[k]@) =~= segv.take(0).filter(
            |p: Seq<u8>| p.len() > 0,
        ));
    }
    while i < segs.len()
        invariant
            i <= segs@.len(),
            segv == Seq::new(segs@.len(), |k: int| segs@[k]@),
            Seq::new(parts@.len(), |k: int| parts@[k]@) == segv.take(i as int).filter(
                |p: Seq<u8>| p.len() > 0,
            ),
        decreases segs@.len() - i,
    {
        proof {
            assert(segv.take(i + 1).drop_last() =~= segv.take(i as int));
            assert(segv.take(i + 1).last() == segv[i as int]);
            reveal_with_fuel(Seq::filter, 2);
        }
        if segs[i].len() > 0 {
            parts.push(crate::text::clone_of(&segs[i]));
        }
        proof {
            assert(Seq::new(parts@.len(), |k: int| parts@[k]@) =~= segv.take(i + 1).filter(
                |p: Seq<u8>| p.len() > 0,
            ));
        }
        i = i + 1;
    }
    proof {
        assert(segv.take(segv.len() as int) =~= segv);
    }
    if parts.len() == 0 {
        return None;
    }
    let major: u64 = match parse_u64(parts[0].as_slice()) {
        Some(v) => v,
        None => {
            return None;
        },
    };
    let minor: u64 = if parts.len() >= 2 {
        match parse_u64(parts[1].as_slice()) {
            Some(v) => v,
            None => 0,
        }
    } else {
        0
    };
    proof {
        let ghost pv = Seq::new(parts@.len(), |k: int| parts@[k]@);
        assert(pv[0] == parts@[0]@);
        if parts@.len() >= 2 {
            assert(pv[1] == parts@[1]@);
        }
    }
    Some(ParsedVersion { major, minor })
}

/// How an observed version relates to the verified one.
#[derive(Clone, Copy, Debug, PartialEq, Eq, Structural)]
pub enum VersionStatus {
    /// Major and minor both agree.
    Aligned,
    /// Same major line, different minor.
    MinorDrift,
    /// A different major line.
    MajorDrift,
}

/// Classify an observed version against the verified one.
pub fn classify_version(actual: ParsedVersion, verified: ParsedVersion) -> (r: VersionStatus)
    ensures
        r == (if actual.major == verified.major {
            if actual.minor == verified.minor {
                VersionStatus::Aligned
            } else {
                VersionStatus::MinorDrift
            }
        } else {
            VersionStatus::MajorDrift
        }),
{
    if actual.major == verified.major {
        if actual.minor == verified.minor {
            VersionStatus::Aligned
        } else {
            VersionStatus::MinorDrift
        }
    } else {
        VersionStatus::MajorDrift
    }
}

/// One tool's probe: whether it was detected on disk, and the version its
/// binary reported, if it could be asked.
pub struct VersionProbe {
    pub tool: Vec<u8>,
    pub detected: bool,
    pub reported: Option<Vec<u8>>,
}

/// Whether one reported version disagrees with the verified one.
pub open spec fn spec_version_mismatch(verified: Option<Seq<u8>>, reported: Option<Seq<u8>>) -> bool {
    match reported {
        None => false,
        Some(out) => {
            let v = trim_seq(out);
            if v.len() == 0 {
                false
            } else {
                let actual_token = match spec_version_token(v) {
                    Some(t) => t,
                    None => v,
                };
                match verified {
                    None => false,
                    Some(ver) => {
                        let verified_token = match spec_version_token(ver) {
                            Some(t) => t,
                            None => ver,
                        };
                        match (spec_parse_version(actual_token), spec_parse_version(
                            verified_token,
                        )) {
                            (Some(a), Some(b)) => a.major != b.major || a.minor != b.minor,
                            _ => actual_token != verified_token,
                        }
                    },
                }
            }
        },
    }
}

/// Whether a reported version disagrees with the configured one.
pub fn version_mismatch(verified: Option<&Vec<u8>>, reported: Option<&Vec<u8>>) -> (r: bool)
    ensures
        r == spec_version_mismatch(crate::doc::opt_view(verified), crate::doc::opt_view(reported)),
{
    let out: &Vec<u8> = match reported {
        Some(o) => o,
        None => {
            return false;
        },
    };
    let v: Vec<u8> = trim(out.as_slice());
    if v.len() == 0 {
        return false;
    }
    let actual_token: Vec<u8> = match extract_version_token(v.as_slice()) {
        Some(t) => t,
        None => v,
    };
    let ver: &Vec<u8> = match verified {
        Some(w) => w,
        None => {
            return false;
        },
    };
    let verified_token: Vec<u8> = match extract_version_token(ver.as_slice()) {
        Some(t) => t,
        None => crate::text::clone_of(ver),
    };
    match (parse_version(actual_token.as_slice()), parse_version(verified_token.as_slice())) {
        (Some(a), Some(b)) => a.major != b.major || a.minor != b.minor,
        _ => !bytes_eq(actual_token.as_slice(), verified_token.as_slice()),
    }
}

/// Whether any enabled, detected tool reports a version that disagrees
/// with the one the configuration says was verified.
pub fn check_versions(cfg: &Config, probes: &Vec<VersionProbe>) -> (r: bool)
    ensures
        r == exists|i: int|
            0 <= i < probes@.len() && {
                let p = #[trigger] probes@[i];
                &&& list_has(cfg.enabled_tools@, p.tool@)
                &&& p.detected
                &&& spec_version_mismatch(
                    kv_get(cfg.verified_versions@, lower_seq(p.tool@)),
                    match p.reported {
                        Some(ref o) => Some(o@),
                        None => None,
                    },
                )
            },
{
    let mut i: usize = 0;
    let mut mismatch: bool = false;
    while i < probes.len()
        invariant
            i <= probes@.len(),
            mismatch == exists|j: int|
                0 <= j < i && {
                    let p = #[trigger] probes@[j];
                    &&& list_has(cfg.enabled_tools@, p.tool@)
                    &&& p.detected
                    &&& spec_version_mismatch(
                        kv_get(cfg.verified_versions@, lower_seq(p.tool@)),
                        match p.reported {
                            Some(ref o) => Some(o@),
                            None => None,
                        },
                    )
                },
        decreases probes@.len() - i,
    {
        let p: &VersionProbe = &probes[i];
        if cfg.tool_enabled(p.tool.as_slice()) && p.detected {
            let verified: Option<Vec<u8>> = cfg.verified_version(p.tool.as_slice());
            let m: bool = version_mismatch(
                match &verified {
                    Some(v) => Some(v),
                    None => None,
                },
                match &p.reported {
                    Some(o) => Some(o),
                    None => None,
                },
            );
            if m {
                mismatch = true;
            }
        }
        i = i + 1;
    }
    mismatch
}

} // verus!
