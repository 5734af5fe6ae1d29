//! The commands synchronizer: flat markdown files per tool directory, with
//! a legacy `prompt:`-prefixed alias convention for one tool.

use vstd::prelude::*;

verus! {

use vstd::string::StringSliceAdditionalSpecFns;
use crate::config::Config;
use crate::history::{HistoryStore, HistoryRecorder, blobs_view, events_view, writes_view};
use crate::sync::{
    SyncStats, ExecutionMode, MarkdownVariant, Tool, WriteAction, actions_view, DirListing,
    FileRecord, select_markdown_winner, should_warn_conflict, read_markdown_variant,
    unique_sorted, variants_view, vwinner_at, spec_target_action, opt_action,
    sync_markdown_target_at, lemma_vwinner_unique,
};
use crate::text::{clone_of, lit, path_join, bytes_eq, starts_with, is_prefix_of, subrange_vec};

/// What the commands category sees on disk.
pub struct CommandsListing {
    pub helm: DirListing,
    pub opencode: DirListing,
    pub codex: DirListing,
    pub central: Vec<FileRecord>,
}

/// The `prompt:` alias prefix.
pub open spec fn prompt_prefix() -> Seq<u8> {
    "prompt:".spec_bytes()
}

/// The logical name a codex file answers to: its own name with the alias
/// prefix stripped.
pub open spec fn spec_codex_key(name: Seq<u8>) -> Seq<u8> {
    if is_prefix_of(prompt_prefix(), name) {
        name.skip(prompt_prefix().len() as int)
    } else {
        name
    }
}

/// Every file's logical name has an entry in the keyed map.
pub open spec fn codex_map_complete(files: Seq<FileRecord>, upto: int, out: Seq<(Vec<u8>, usize)>) -> bool {
    forall|k: int|
        0 <= k < upto ==> exists|a: int|
            0 <= a < out.len() && (#[trigger] out[a]).0@ == spec_codex_key(
                (#[trigger] files[k]).name@,
            )
}

/// The first file bearing exactly this name.
pub open spec fn spec_find_rec(files: Seq<FileRecord>, name: Seq<u8>) -> int
    decreases files.len(),
{
    if files.len() == 0 {
        -1
    } else if files.first().name@ == name {
        0
    } else {
        let r = spec_find_rec(files.drop_first(), name);
        if r < 0 {
            -1
        } else {
            r + 1
        }
    }
}

/// The found index is in range and bears the name.
pub proof fn lemma_find_rec_ok(files: Seq<FileRecord>, name: Seq<u8>)
    ensures
        spec_find_rec(files, name) >= 0 ==> spec_find_rec(files, name) < files.len()
            && files[spec_find_rec(files, name)].name@ == name,
    decreases files.len(),
{
    if files.len() > 0 && files.first().name@ != name {
        lemma_find_rec_ok(files.drop_first(), name);
    }
}

proof fn lemma_find_rec_char(files: Seq<FileRecord>, name: Seq<u8>, i: int)
    requires
        0 <= i < files.len(),
        files[i].name@ == name,
        forall|j: int| 0 <= j < i ==> (#[trigger] files[j]).name@ != name,
    ensures
        spec_find_rec(files, name) == i,
    decreases files.len(),
{
    if i > 0 {
        assert(files.drop_first()[i - 1] == files[i]);
        assert(forall|j: int|
            0 <= j < i - 1 ==> (#[trigger] files.drop_first()[j]) == files[j + 1]);
        lemma_find_rec_char(files.drop_first(), name, i - 1);
    }
}

proof fn lemma_find_rec_none(files: Seq<FileRecord>, name: Seq<u8>)
    requires
        forall|j: int| 0 <= j < files.len() ==> (#[trigger] files[j]).name@ != name,
    ensures
        spec_find_rec(files, name) < 0,
    decreases files.len(),
{
    if files.len() > 0 {
        assert(forall|j: int|
            0 <= j < files.drop_first().len() ==> (#[trigger] files.drop_first()[j]) == files[j
                + 1]);
        lemma_find_rec_none(files.drop_first(), name);
    }
}

/// A held name is found.
proof fn lemma_find_rec_some(files: Seq<FileRecord>, name: Seq<u8>, j: int)
    requires
        0 <= j < files.len(),
        files[j].name@ == name,
    ensures
        spec_find_rec(files, name) >= 0,
    decreases files.len(),
{
    if files.len() > 0 && files[0].name@ != name {
        assert(files.drop_first()[j - 1] == files[j]);
        lemma_find_rec_some(files.drop_first(), name, j - 1);
    }
}

/// Which file the codex map binds to a key after the first `upto` files:
/// the first bearer, except that a plainly named file displaces an
/// earlier `prompt:`-prefixed one.
pub open spec fn cidx_upto(files: Seq<FileRecord>, upto: int, name: Seq<u8>) -> int
    decreases upto,
{
    if upto <= 0 {
        -1
    } else {
        let p = cidx_upto(files, upto - 1, name);
        if spec_codex_key(files[upto - 1].name@) != name {
            p
        } else if p < 0 {
            upto - 1
        } else if is_prefix_of(prompt_prefix(), files[p].name@) && !is_prefix_of(
            prompt_prefix(),
            files[upto - 1].name@,
        ) {
            upto - 1
        } else {
            p
        }
    }
}

/// The file the codex directory offers under a logical name.
pub open spec fn spec_codex_idx(files: Seq<FileRecord>, name: Seq<u8>) -> int {
    cidx_upto(files, files.len() as int, name)
}

/// The bound index is in range and bears the key.
pub proof fn lemma_cidx_ok(files: Seq<FileRecord>, upto: int, name: Seq<u8>)
    requires
        upto <= files.len(),
    ensures
        cidx_upto(files, upto, name) >= 0 ==> cidx_upto(files, upto, name) < upto
            && spec_codex_key(files[cidx_upto(files, upto, name)].name@) == name,
    decreases upto,
{
    if upto > 0 {
        lemma_cidx_ok(files, upto - 1, name);
    }
}

/// A held key is bound.
proof fn lemma_cidx_some(files: Seq<FileRecord>, upto: int, name: Seq<u8>, j: int)
    requires
        0 <= j < upto <= files.len(),
        spec_codex_key(files[j].name@) == name,
    ensures
        cidx_upto(files, upto, name) >= 0,
    decreases upto,
{
    if j < upto - 1 {
        lemma_cidx_some(files, upto - 1, name, j);
    }
}

/// The first file with exactly this name.
pub fn find_record(files: &Vec<FileRecord>, name: &[u8]) -> (r: Option<usize>)
    ensures
        match r {
            Some(i) => 0 <= i < files@.len() && files@[i as int].name@ == name@ && spec_find_rec(
                files@,
                name@,
            ) == i,
            None => spec_find_rec(files@, name@) < 0,
        },
{
    let mut i: usize = 0;
    while i < files.len()
        invariant
            i <= files@.len(),
            forall|j: int| 0 <= j < i ==> (#[trigger] files@[j]).name@ != name@,
        decreases files@.len() - i,
    {
        if bytes_eq(files[i].name.as_slice(), name) {
            proof {
                lemma_find_rec_char(files@, name@, i as int);
            }
            return Some(i);
        }
        i = i + 1;
    }
    proof {
        lemma_find_rec_none(files@, name@);
    }
    None
}

/// Key the codex directory by logical name, preferring a plainly named
/// file over a `prompt:`-prefixed one carrying the same logical name.
pub fn list_codex_files(files: &Vec<FileRecord>) -> (r: Vec<(Vec<u8>, usize)>)
    ensures
        forall|a: int, b: int|
            0 <= a < b < r@.len() ==> (#[trigger] r@[a]).0@ != (#[trigger] r@[b]).0@,
        forall|a: int|
            0 <= a < r@.len() ==> (#[trigger] r@[a]).1 < files@.len() && r@[a].0@ == spec_codex_key(
                files@[r@[a].1 as int].name@,
            ),
        forall|a: int|
            0 <= a < r@.len() ==> (!is_prefix_of(prompt_prefix(), (#[trigger] r@[a]).0@) && (
            exists|i: int|
                0 <= i < files@.len() && (#[trigger] files@[i]).name@ == (r@[a]).0@)
                ==> files@[r@[a].1 as int].name@ == r@[a].0@),
        codex_map_complete(files@, files@.len() as int, r@),
        forall|a: int|
            0 <= a < r@.len() ==> (#[trigger] r@[a]).1 == spec_codex_idx(files@, (r@[a]).0@),
{
    let prompt: Vec<u8> = lit("prompt:");
    let mut out: Vec<(Vec<u8>, usize)> = Vec::new();
    let mut i: usize = 0;
    while i < files.len()
        invariant
            i <= files@.len(),
            prompt@ == prompt_prefix(),
            forall|a: int, b: int|
                0 <= a < b < out@.len() ==> (#[trigger] out@[a]).0@ != (#[trigger] out@[b]).0@,
            forall|a: int|
                0 <= a < out@.len() ==> (#[trigger] out@[a]).1 < files@.len() && out@[a].0@
                    == spec_codex_key(files@[out@[a].1 as int].name@),
            forall|a: int|
                0 <= a < out@.len() ==> (!is_prefix_of(prompt_prefix(), (#[trigger] out@[a]).0@)
                    && (exists|k: int|
                    0 <= k < i && (#[trigger] files@[k]).name@ == (out@[a]).0@)
                    ==> files@[out@[a].1 as int].name@ == out@[a].0@),
            codex_map_complete(files@, i as int, out@),
            forall|a: int|
                0 <= a < out@.len() ==> (#[trigger] out@[a]).1 == cidx_upto(
                    files@,
                    i as int,
                    (out@[a]).0@,
                ),
        decreases files@.len() - i,
    {
        let name: &Vec<u8> = &files[i].name;
        let prefixed: bool = starts_with(name.as_slice(), prompt.as_slice());
        let key: Vec<u8> = if prefixed {
            subrange_vec(name.as_slice(), prompt.len(), name.len())
        } else {
            clone_of(name)
        };
        proof {
            assert(key@ == spec_codex_key(files@[i as int].name@));
        }
        let mut pos: usize = out.len();
        let mut a: usize = 0;
        while a < out.len()
            invariant
                a <= out@.len(),
                pos == out@.len() || (pos < a && (out@[pos as int]).0@ == key@),
                pos == out@.len() ==> forall|b: int| 0 <= b < a ==> (#[trigger] out@[b]).0@ != key@,
            decreases out@.len() - a,
        {
            if pos == out.len() && bytes_eq(out[a].0.as_slice(), key.as_slice()) {
                pos = a;
            }
            a = a + 1;
        }
        let found: Option<usize> = if pos < out.len() {
            Some(pos)
        } else {
            None
        };
        let ghost out0 = out@;
        match found {
            None => {
                out.push((key, i));
                proof {
                    assert forall|a2: int| 0 <= a2 < out@.len() implies (#[trigger] out@[a2]).1
                        == cidx_upto(files@, i + 1, (out@[a2]).0@) by {
                        if a2 < out0.len() {
                            assert(out@[a2] == out0[a2]);
                            assert((out0[a2]).0@ != key@);
                            assert(spec_codex_key(files@[i as int].name@) == key@);
                            assert(cidx_upto(files@, i + 1, (out@[a2]).0@) == cidx_upto(
                                files@,
                                i as int,
                                (out@[a2]).0@,
                            ));
                        } else {
                            assert((out@[a2]).0@ == key@ && (out@[a2]).1 == i);
                            assert(cidx_upto(files@, i as int, key@) < 0) by {
                                if cidx_upto(files@, i as int, key@) >= 0 {
                                    lemma_cidx_ok(files@, i as int, key@);
                                    let k = cidx_upto(files@, i as int, key@);
                                    assert(codex_map_complete(files@, i as int, out0));
                                    let w = choose|w: int|
                                        0 <= w < out0.len() && (#[trigger] out0[w]).0@
                                            == spec_codex_key(files@[k].name@);
                                    assert((out0[w]).0@ == key@);
                                }
                            }
                            assert(cidx_upto(files@, i + 1, key@) == i);
                        }
                    }
                    assert(codex_map_complete(files@, i + 1, out@)) by {
                        assert forall|k: int| 0 <= k < i + 1 implies exists|a2: int|
                            0 <= a2 < out@.len() && (#[trigger] out@[a2]).0@ == spec_codex_key(
                                (#[trigger] files@[k]).name@,
                            ) by {
                            if k < i {
                                let w = choose|w: int|
                                    0 <= w < out0.len() && (#[trigger] out0[w]).0@
                                        == spec_codex_key(files@[k].name@);
                                assert((out@[w]).0@ == spec_codex_key(files@[k].name@));
                            } else {
                                assert((out@[out@.len() - 1]).0@ == spec_codex_key(
                                    files@[i as int].name@,
                                ));
                            }
                        }
                    }
                }
            },
            Some(pos) => {
                let existing_prefixed: bool = starts_with(
                    files[out[pos].1].name.as_slice(),
                    prompt.as_slice(),
                );
                if existing_prefixed && !prefixed {
                    let _old: (Vec<u8>, usize) = out.remove(pos);
                    out.insert(pos, (key, i));
                    proof {
                        assert forall|a2: int| 0 <= a2 < out@.len() implies (#[trigger] out@[a2]).1
                            == cidx_upto(files@, i + 1, (out@[a2]).0@) by {
                            if a2 == pos as int {
                                let p = cidx_upto(files@, i as int, key@);
                                assert((out0[pos as int]).1 == p);
                                assert(p >= 0);
                                assert(is_prefix_of(prompt_prefix(), files@[p].name@));
                                assert(!is_prefix_of(prompt_prefix(), files@[i as int].name@));
                                assert(spec_codex_key(files@[i as int].name@) == key@);
                                assert(cidx_upto(files@, i + 1, key@) == i);
                            } else {
                                assert(out@[a2] == out0[a2]);
                                assert((out0[pos as int]).0@ == key@);
                                assert((out0[a2]).0@ != key@);
                                assert(spec_codex_key(files@[i as int].name@) == key@);
                                assert(cidx_upto(files@, i + 1, (out@[a2]).0@) == cidx_upto(
                                    files@,
                                    i as int,
                                    (out@[a2]).0@,
                                ));
                            }
                        }
                        assert(out@[pos as int].0@ == key@);
                        assert(out@[pos as int].1 == i);
                        assert(forall|a2: int|
                            0 <= a2 < out@.len() && a2 != pos ==> out@[a2] == out0[a2]);
                        assert(key@ == files@[i as int].name@);
                        assert forall|a2: int, b2: int|
                            0 <= a2 < b2 < out@.len() implies (#[trigger] out@[a2]).0@ != (
                        #[trigger] out@[b2]).0@ by {
                            if a2 != pos as int && b2 != pos as int {
                                assert(out@[a2] == out0[a2] && out@[b2] == out0[b2]);
                            } else if a2 == pos as int {
                                assert(out0[a2].0@ == key@);
                                assert(out@[b2] == out0[b2]);
                            } else {
                                assert(out0[b2].0@ == key@);
                                assert(out@[a2] == out0[a2]);
                            }
                        }
                        assert forall|a2: int|
                            0 <= a2 < out@.len() implies (!is_prefix_of(
                            prompt_prefix(),
                            (#[trigger] out@[a2]).0@,
                        ) && (exists|k: int|
                            0 <= k < i + 1 && (#[trigger] files@[k]).name@ == (out@[a2]).0@)
                            ==> files@[out@[a2].1 as int].name@ == out@[a2].0@) by {
                            if a2 == pos as int {
                            } else {
                                if !is_prefix_of(prompt_prefix(), (out@[a2]).0@) && (exists|k: int|
                                    0 <= k < i + 1 && (#[trigger] files@[k]).name@ == (
                                    out@[a2]).0@) {
                                    let k = choose|k: int|
                                        0 <= k < i + 1 && (#[trigger] files@[k]).name@ == (
                                        out@[a2]).0@;
                                    assert(out@[a2] == out0[a2]);
                                    if k == i {
                                        // the new plain name equals another
                                        // entry's key, contradicting key
                                        // uniqueness
                                        assert(out@[a2].0@ == key@);
                                        assert(out@[pos as int].0@ == key@);
                                        assert(false);
                                    }
                                }
                            }
                        }
                        assert(codex_map_complete(files@, i + 1, out@)) by {
                            assert forall|k: int| 0 <= k < i + 1 implies exists|a2: int|
                                0 <= a2 < out@.len() && (#[trigger] out@[a2]).0@
                                    == spec_codex_key((#[trigger] files@[k]).name@) by {
                                if k < i {
                                    let w = choose|w: int|
                                        0 <= w < out0.len() && (#[trigger] out0[w]).0@
                                            == spec_codex_key(files@[k].name@);
                                    if w == pos as int {
                                        assert((out@[w]).0@ == key@);
                                        assert(out0[w].0@ == key@);
                                        assert((out@[w]).0@ == spec_codex_key(files@[k].name@));
                                    } else {
                                        assert((out@[w]).0@ == spec_codex_key(files@[k].name@));
                                    }
                                } else {
                                    assert((out@[pos as int]).0@ == spec_codex_key(
                                        files@[i as int].name@,
                                    ));
                                }
                            }
                        }
                    }
                } else {
                    proof {
                        assert forall|a2: int| 0 <= a2 < out@.len() implies (#[trigger] out@[a2]).1
                            == cidx_upto(files@, i + 1, (out@[a2]).0@) by {
                            if a2 == pos as int {
                                let p = cidx_upto(files@, i as int, key@);
                                assert((out@[pos as int]).1 == p);
                                assert(p >= 0);
                                assert(spec_codex_key(files@[i as int].name@) == key@);
                                assert(!(is_prefix_of(prompt_prefix(), files@[p].name@)
                                    && !is_prefix_of(prompt_prefix(), files@[i as int].name@)));
                                assert(cidx_upto(files@, i + 1, key@) == p);
                            } else {
                                assert((out@[pos as int]).0@ == key@);
                                assert((out@[a2]).0@ != key@);
                                assert(spec_codex_key(files@[i as int].name@) == key@);
                                assert(cidx_upto(files@, i + 1, (out@[a2]).0@) == cidx_upto(
                                    files@,
                                    i as int,
                                    (out@[a2]).0@,
                                ));
                            }
                        }
                        assert(out@[pos as int].0@ == key@);
                        assert forall|a2: int|
                            0 <= a2 < out@.len() implies (!is_prefix_of(
                            prompt_prefix(),
                            (#[trigger] out@[a2]).0@,
                        ) && (exists|k: int|
                            0 <= k < i + 1 && (#[trigger] files@[k]).name@ == (out@[a2]).0@)
                            ==> files@[out@[a2].1 as int].name@ == out@[a2].0@) by {
                            if !is_prefix_of(prompt_prefix(), (out@[a2]).0@) && (exists|k: int|
                                0 <= k < i + 1 && (#[trigger] files@[k]).name@ == (out@[a2]).0@) {
                                let k = choose|k: int|
                                    0 <= k < i + 1 && (#[trigger] files@[k]).name@ == (
                                    out@[a2]).0@;
                                if k == i {
                                    // the new name equals this entry's key,
                                    // which is not prefixed, so the new name
                                    // is plain and this entry is the found
                                    // one, which was kept because it is
                                    // already plainly named
                                    assert(files@[i as int].name@ == out@[a2].0@);
                                    if prefixed {
                                        lemma_prefixed_key_shorter(files@[i as int].name@);
                                        assert(out@[a2].0@ == spec_codex_key(
                                            files@[out@[a2].1 as int].name@,
                                        ));
                                        assert(is_prefix_of(
                                            prompt_prefix(),
                                            files@[i as int].name@,
                                        ));
                                        assert(false);
                                    }
                                    assert(key@ == files@[i as int].name@);
                                    assert(out@[a2].0@ == key@);
                                    if a2 != pos as int {
                                        assert(out@[pos as int].0@ == key@);
                                        assert(false);
                                    }
                                    assert(!existing_prefixed);
                                    assert(files@[out@[pos as int].1 as int].name@
                                        == spec_codex_key(
                                        files@[out@[pos as int].1 as int].name@,
                                    ));
                                }
                            }
                        }
                        assert(codex_map_complete(files@, i + 1, out@)) by {
                            assert forall|k: int| 0 <= k < i + 1 implies exists|a2: int|
                                0 <= a2 < out@.len() && (#[trigger] out@[a2]).0@
                                    == spec_codex_key((#[trigger] files@[k]).name@) by {
                                if k < i {
                                    let w = choose|w: int|
                                        0 <= w < out0.len() && (#[trigger] out0[w]).0@
                                            == spec_codex_key(files@[k].name@);
                                    assert((out@[w]).0@ == spec_codex_key(files@[k].name@));
                                } else {
                                    assert((out@[pos as int]).0@ == spec_codex_key(
                                        files@[i as int].name@,
                                    ));
                                }
                            }
                        }
                    }
                }
            },
        }
        i = i + 1;
    }
    out
}

/// A prefixed name is strictly longer than its logical key.
proof fn lemma_prefixed_key_shorter(name: Seq<u8>)
    requires
        is_prefix_of(prompt_prefix(), name),
    ensures
        spec_codex_key(name).len() < name.len(),
{
    broadcast use vstd::string::group_string_axioms;

    reveal_strlit("prompt:");
    assert("prompt:"@.len() == 7);
    assert(vstd::string::is_ascii("prompt:")) by {
        let cs = "prompt:"@;
        assert forall|i: int| 0 <= i < cs.len() implies '\0' <= #[trigger] cs[i] <= '\u{7f}' by {
            assert(cs.len() == 7);
        }
    }
    assert(prompt_prefix().len() == 7);
}

/// Participation flags of the three tools.
pub open spec fn cmds_helm_on(cfg: &Config, listing: &CommandsListing) -> bool {
    crate::config::list_has(cfg.enabled_tools@, crate::config::tool_helm())
        && listing.helm.present
}

pub open spec fn cmds_opencode_on(cfg: &Config, listing: &CommandsListing) -> bool {
    crate::config::list_has(cfg.enabled_tools@, crate::config::tool_opencode())
        && listing.opencode.present
}

pub open spec fn cmds_codex_on(cfg: &Config, listing: &CommandsListing) -> bool {
    crate::config::list_has(cfg.enabled_tools@, crate::config::tool_codex())
        && listing.codex.present
}

/// A name takes part in the pass: some participating place holds it.
pub open spec fn cmds_observed(cfg: &Config, listing: &CommandsListing, name: Seq<u8>) -> bool {
    ||| spec_find_rec(listing.central@, name) >= 0
    ||| cmds_helm_on(cfg, listing) && spec_find_rec(listing.helm.files@, name) >= 0
    ||| cmds_opencode_on(cfg, listing) && spec_find_rec(listing.opencode.files@, name) >= 0
    ||| cmds_codex_on(cfg, listing) && spec_codex_idx(listing.codex.files@, name) >= 0
}

/// The variants one name offers, in the pass's fixed order: central, then
/// the enabled tools.
pub open spec fn cmds_variants(cfg: &Config, listing: &CommandsListing, name: Seq<u8>) -> Seq<
    (Tool, Seq<u8>, Seq<u8>, u128),
> {
    let o1: Seq<(Tool, Seq<u8>, Seq<u8>, u128)> = if spec_find_rec(listing.central@, name) >= 0 {
        let f = listing.central@[spec_find_rec(listing.central@, name)];
        seq![(Tool::Central, crate::text::joined_path(cfg.central_dir@, name), f.content@, f.mtime)]
    } else {
        Seq::<(Tool, Seq<u8>, Seq<u8>, u128)>::empty()
    };
    let o2: Seq<(Tool, Seq<u8>, Seq<u8>, u128)> = if cmds_helm_on(cfg, listing) && spec_find_rec(
        listing.helm.files@,
        name,
    ) >= 0 {
        let f = listing.helm.files@[spec_find_rec(listing.helm.files@, name)];
        seq![(Tool::Helm, crate::text::joined_path(cfg.helm_dir@, name), f.content@, f.mtime)]
    } else {
        Seq::<(Tool, Seq<u8>, Seq<u8>, u128)>::empty()
    };
    let o3: Seq<(Tool, Seq<u8>, Seq<u8>, u128)> = if cmds_opencode_on(cfg, listing)
        && spec_find_rec(listing.opencode.files@, name) >= 0 {
        let f = listing.opencode.files@[spec_find_rec(listing.opencode.files@, name)];
        seq![
            (
                Tool::Opencode,
                crate::text::joined_path(cfg.opencode_commands_dir@, name),
                f.content@,
                f.mtime,
            ),
        ]
    } else {
        Seq::<(Tool, Seq<u8>, Seq<u8>, u128)>::empty()
    };
    let o4: Seq<(Tool, Seq<u8>, Seq<u8>, u128)> = if cmds_codex_on(cfg, listing)
        && spec_codex_idx(listing.codex.files@, name) >= 0 {
        let f = listing.codex.files@[spec_codex_idx(listing.codex.files@, name)];
        seq![(Tool::Codex, crate::text::joined_path(cfg.codex_dir@, f.name@), f.content@, f.mtime)]
    } else {
        Seq::<(Tool, Seq<u8>, Seq<u8>, u128)>::empty()
    };
    o1 + o2 + o3 + o4
}

/// The actions one name owes, target by target in the pass's fixed order,
/// for a given winner.
pub open spec fn spec_cmds_actions(
    cfg: &Config,
    listing: &CommandsListing,
    name: Seq<u8>,
    wi: int,
) -> Seq<(bool, Seq<u8>, Seq<u8>, Seq<(Seq<u8>, Seq<u8>)>)> {
    let vs = cmds_variants(cfg, listing, name);
    opt_action(true, spec_target_action(vs, wi, crate::text::joined_path(cfg.central_dir@, name)))
        + opt_action(
        cmds_helm_on(cfg, listing),
        spec_target_action(vs, wi, crate::text::joined_path(cfg.helm_dir@, name)),
    ) + opt_action(
        cmds_opencode_on(cfg, listing),
        spec_target_action(vs, wi, crate::text::joined_path(cfg.opencode_commands_dir@, name)),
    ) + opt_action(
        cmds_codex_on(cfg, listing),
        spec_target_action(vs, wi, crate::text::joined_path(cfg.codex_dir@, name)),
    )
}

/// The winner index one name's variants determine.
pub open spec fn cmds_wi(cfg: &Config, listing: &CommandsListing, name: Seq<u8>) -> int {
    choose|wi: int| vwinner_at(cmds_variants(cfg, listing, name), wi)
}

/// A name list fit for a pass: strictly ascending, holding every observed
/// name and no others.
pub open spec fn cmds_names_ok(cfg: &Config, listing: &CommandsListing, ns: Seq<Seq<u8>>) -> bool {
    &&& forall|a: int, b: int|
        0 <= a < b < ns.len() ==> crate::text::lex_le(#[trigger] ns[a], #[trigger] ns[b]) && ns[a]
            != ns[b]
    &&& forall|a: int| 0 <= a < ns.len() ==> cmds_observed(cfg, listing, #[trigger] ns[a])
    &&& forall|name: Seq<u8>|
        #[trigger] cmds_observed(cfg, listing, name) ==> exists|a: int|
            0 <= a < ns.len() && ns[a] == name
}

/// The actions a whole commands pass owes over the first `k` names of a
/// list: each name's owed actions for its determined winner, in order.
pub open spec fn cmds_pass_actions(
    cfg: &Config,
    listing: &CommandsListing,
    ns: Seq<Seq<u8>>,
    k: int,
) -> Seq<(bool, Seq<u8>, Seq<u8>, Seq<(Seq<u8>, Seq<u8>)>)>
    decreases k,
{
    if k <= 0 {
        Seq::<(bool, Seq<u8>, Seq<u8>, Seq<(Seq<u8>, Seq<u8>)>)>::empty()
    } else {
        cmds_pass_actions(cfg, listing, ns, k - 1) + spec_cmds_actions(
            cfg,
            listing,
            ns[k - 1],
            cmds_wi(cfg, listing, ns[k - 1]),
        )
    }
}

/// Gather the variants one name offers, in the pass's fixed order.
#[verifier::rlimit(100)]
#[verifier::spinoff_prover]
fn build_cmds_variants(
    cfg: &Config,
    listing: &CommandsListing,
    codex_keys: &Vec<(Vec<u8>, usize)>,
    name: &Vec<u8>,
    helm_enabled: bool,
    opencode_enabled: bool,
    codex_enabled: bool,
) -> (r: Vec<MarkdownVariant>)
    requires
        helm_enabled == cmds_helm_on(cfg, listing),
        opencode_enabled == cmds_opencode_on(cfg, listing),
        codex_enabled == cmds_codex_on(cfg, listing),
        forall|a: int|
            0 <= a < codex_keys@.len() ==> (#[trigger] codex_keys@[a]).1
                < listing.codex.files@.len() && (codex_keys@[a]).1 == spec_codex_idx(
                listing.codex.files@,
                (codex_keys@[a]).0@,
            ),
        codex_map_complete(listing.codex.files@, listing.codex.files@.len() as int, codex_keys@),
    ensures
        variants_view(r@) == cmds_variants(cfg, listing, name@),
        forall|k: int| 0 <= k < r@.len() ==> (#[trigger] r@[k]).doc.wf(),
{
    let mut variants: Vec<MarkdownVariant> = Vec::new();
    match find_record(&listing.central, name.as_slice()) {
        Some(ci) => {
            variants.push(
                read_markdown_variant(
                    Tool::Central,
                    path_join(cfg.central_dir.as_slice(), name.as_slice()),
                    &listing.central[ci].content,
                    listing.central[ci].mtime,
                ),
            );
        },
        None => {},
    }
    if helm_enabled {
        match find_record(&listing.helm.files, name.as_slice()) {
            Some(ci) => {
                variants.push(
                    read_markdown_variant(
                        Tool::Helm,
                        path_join(cfg.helm_dir.as_slice(), name.as_slice()),
                        &listing.helm.files[ci].content,
                        listing.helm.files[ci].mtime,
                    ),
                );
            },
            None => {},
        }
    }
    if opencode_enabled {
        match find_record(&listing.opencode.files, name.as_slice()) {
            Some(ci) => {
                variants.push(
                    read_markdown_variant(
                        Tool::Opencode,
                        path_join(cfg.opencode_commands_dir.as_slice(), name.as_slice()),
                        &listing.opencode.files[ci].content,
                        listing.opencode.files[ci].mtime,
                    ),
                );
            },
            None => {},
        }
    }
    if codex_enabled {
        let mut cpos: usize = codex_keys.len();
        let mut a: usize = 0;
        while a < codex_keys.len()
            invariant
                a <= codex_keys@.len(),
                cpos == codex_keys@.len() || (cpos < a && (codex_keys@[cpos as int]).0@ == name@),
                cpos == codex_keys@.len() ==> forall|b: int|
                    0 <= b < a ==> (#[trigger] codex_keys@[b]).0@ != name@,
            decreases codex_keys@.len() - a,
        {
            if cpos == codex_keys.len() && bytes_eq(codex_keys[a].0.as_slice(), name.as_slice()) {
                cpos = a;
            }
            a = a + 1;
        }
        if cpos < codex_keys.len() {
            let fi: usize = codex_keys[cpos].1;
            proof {
                assert(fi == spec_codex_idx(listing.codex.files@, name@));
            }
            variants.push(
                read_markdown_variant(
                    Tool::Codex,
                    path_join(cfg.codex_dir.as_slice(), listing.codex.files[fi].name.as_slice()),
                    &listing.codex.files[fi].content,
                    listing.codex.files[fi].mtime,
                ),
            );
        } else {
            proof {
                assert(spec_codex_idx(listing.codex.files@, name@) < 0) by {
                    if spec_codex_idx(listing.codex.files@, name@) >= 0 {
                        lemma_cidx_ok(
                            listing.codex.files@,
                            listing.codex.files@.len() as int,
                            name@,
                        );
                        let k = spec_codex_idx(listing.codex.files@, name@);
                        let w = choose|w: int|
                            0 <= w < codex_keys@.len() && (#[trigger] codex_keys@[w]).0@
                                == spec_codex_key(listing.codex.files@[k].name@);
                        assert((codex_keys@[w]).0@ == name@);
                    }
                }
            }
        }
    }
    proof {
        assert(variants_view(variants@) =~= cmds_variants(cfg, listing, name@));
    }
    variants
}

/// Run one name of the commands pass: gather its variants, pick the
/// winner, and bring every participating target up to date.  The appended
/// actions are exactly the owed ones, in the pass's fixed target order.
#[verifier::rlimit(100)]
#[verifier::spinoff_prover]
fn sync_one_command_name(
    cfg: &Config,
    listing: &CommandsListing,
    codex_keys: &Vec<(Vec<u8>, usize)>,
    name: &Vec<u8>,
    helm_enabled: bool,
    opencode_enabled: bool,
    codex_enabled: bool,
    mode: ExecutionMode,
    store: &mut HistoryStore,
    rec: &mut HistoryRecorder,
    actions: &mut Vec<WriteAction>,
) -> (r: (usize, bool))
    requires
        old(store).wf(),
        helm_enabled == cmds_helm_on(cfg, listing),
        opencode_enabled == cmds_opencode_on(cfg, listing),
        codex_enabled == cmds_codex_on(cfg, listing),
        forall|a: int|
            0 <= a < codex_keys@.len() ==> (#[trigger] codex_keys@[a]).1
                < listing.codex.files@.len() && (codex_keys@[a]).1 == spec_codex_idx(
                listing.codex.files@,
                (codex_keys@[a]).0@,
            ),
        codex_map_complete(listing.codex.files@, listing.codex.files@.len() as int, codex_keys@),
    ensures
        final(store).wf(),
        final(store).root@ == old(store).root@,
        events_view(final(store).events@) == events_view(old(store).events@),
        final(rec).id == old(rec).id,
        final(rec).origin@ == old(rec).origin@,
        final(rec).timestamp_ms == old(rec).timestamp_ms,
        mode == ExecutionMode::Plan || r.0 == 0 ==> {
            &&& blobs_view(final(store).blobs@) == blobs_view(old(store).blobs@)
            &&& writes_view(final(rec).writes@) == writes_view(old(rec).writes@)
            &&& actions_view(final(actions)@) == actions_view(old(actions)@)
        },
        mode == ExecutionMode::Apply ==> writes_view(final(rec).writes@).len() == writes_view(
            old(rec).writes@,
        ).len() + r.0,
        !cmds_observed(cfg, listing, name@) ==> r.0 == 0,
        cmds_observed(cfg, listing, name@) ==> exists|wi: int|
            #[trigger] vwinner_at(cmds_variants(cfg, listing, name@), wi) && r.0
                == spec_cmds_actions(cfg, listing, name@, wi).len() && (mode
                == ExecutionMode::Apply ==> actions_view(final(actions)@) == actions_view(
                old(actions)@,
            ) + spec_cmds_actions(cfg, listing, name@, wi)),
        r.0 <= 4,
{
    let ghost cv = cmds_variants(cfg, listing, name@);
    let variants: Vec<MarkdownVariant> = build_cmds_variants(
        cfg,
        listing,
        codex_keys,
        name,
        helm_enabled,
        opencode_enabled,
        codex_enabled,
    );
    if variants.len() == 0 {
        proof {
            assert(blobs_view(store.blobs@) =~= blobs_view(old(store).blobs@));
            assert(writes_view(rec.writes@) =~= writes_view(old(rec).writes@));
            assert(actions_view(actions@) =~= actions_view(old(actions)@));
            assert(events_view(store.events@) =~= events_view(old(store).events@));
            assert(!cmds_observed(cfg, listing, name@)) by {
                if cmds_observed(cfg, listing, name@) {
                    assert(cmds_variants(cfg, listing, name@).len() >= 1);
                }
            }
        }
        return (0, false);
    }
    proof {
        assert(cmds_observed(cfg, listing, name@)) by {
            if !cmds_observed(cfg, listing, name@) {
                assert(cmds_variants(cfg, listing, name@).len() == 0);
            }
        }
    }
    let wi: usize = select_markdown_winner(&variants);
    let warned: bool = should_warn_conflict(&variants);
    proof {
        assert(vwinner_at(cv, wi as int)) by {
            assert(forall|j: int|
                0 <= j < cv.len() ==> (#[trigger] cv[j]).3 == variants@[j].mtime && cv[j].0
                    == variants@[j].tool);
        }
    }
    let mut count: usize = 0;
    let ghost a0 = actions_view(actions@);
    let ghost mut done: Seq<(bool, Seq<u8>, Seq<u8>, Seq<(Seq<u8>, Seq<u8>)>)> = Seq::<
        (bool, Seq<u8>, Seq<u8>, Seq<(Seq<u8>, Seq<u8>)>),
    >::empty();
    let target_path: Vec<u8> = path_join(cfg.central_dir.as_slice(), name.as_slice());
    let step = sync_markdown_target_at(
        &variants,
        wi,
        target_path.as_slice(),
        mode,
        store,
        rec,
        actions,
    );
    if step {
        count = count + 1;
    }
    proof {
        done = opt_action(
            true,
            spec_target_action(cv, wi as int, crate::text::joined_path(cfg.central_dir@, name@)),
        );
        assert(mode == ExecutionMode::Apply ==> actions_view(actions@) =~= a0 + done);
        assert(count == done.len());
        assert(mode == ExecutionMode::Apply ==> writes_view(rec.writes@).len() == writes_view(
            old(rec).writes@,
        ).len() + done.len());
    }
    if helm_enabled {
        let target_path: Vec<u8> = path_join(cfg.helm_dir.as_slice(), name.as_slice());
        let step = sync_markdown_target_at(
            &variants,
            wi,
            target_path.as_slice(),
            mode,
            store,
            rec,
            actions,
        );
        if step {
            count = count + 1;
        }
        proof {
            done = done + opt_action(
                true,
                spec_target_action(cv, wi as int, crate::text::joined_path(cfg.helm_dir@, name@)),
            );
        }
    }
    proof {
        assert(done =~= opt_action(
            true,
            spec_target_action(cv, wi as int, crate::text::joined_path(cfg.central_dir@, name@)),
        ) + opt_action(
            cmds_helm_on(cfg, listing),
            spec_target_action(cv, wi as int, crate::text::joined_path(cfg.helm_dir@, name@)),
        ));
        assert(mode == ExecutionMode::Apply ==> actions_view(actions@) =~= a0 + done);
        assert(count == done.len());
        assert(mode == ExecutionMode::Apply ==> writes_view(rec.writes@).len() == writes_view(
            old(rec).writes@,
        ).len() + done.len());
    }
    if opencode_enabled {
        let target_path: Vec<u8> = path_join(
            cfg.opencode_commands_dir.as_slice(),
            name.as_slice(),
        );
        let step = sync_markdown_target_at(
            &variants,
            wi,
            target_path.as_slice(),
            mode,
            store,
            rec,
            actions,
        );
        if step {
            count = count + 1;
        }
        proof {
            done = done + opt_action(
                true,
                spec_target_action(
                    cv,
                    wi as int,
                    crate::text::joined_path(cfg.opencode_commands_dir@, name@),
                ),
            );
        }
    }
    proof {
        if !opencode_enabled {
            done = done + opt_action(
                false,
                spec_target_action(
                    cv,
                    wi as int,
                    crate::text::joined_path(cfg.opencode_commands_dir@, name@),
                ),
            );
        }
        assert(mode == ExecutionMode::Apply ==> actions_view(actions@) =~= a0 + done);
        assert(count == done.len());
        assert(mode == ExecutionMode::Apply ==> writes_view(rec.writes@).len() == writes_view(
            old(rec).writes@,
        ).len() + done.len());
    }
    if codex_enabled {
        let target_path: Vec<u8> = path_join(cfg.codex_dir.as_slice(), name.as_slice());
        let step = sync_markdown_target_at(
            &variants,
            wi,
            target_path.as_slice(),
            mode,
            store,
            rec,
            actions,
        );
        if step {
            count = count + 1;
        }
        proof {
            done = done + opt_action(
                true,
                spec_target_action(cv, wi as int, crate::text::joined_path(cfg.codex_dir@, name@)),
            );
        }
    }
    proof {
        if !codex_enabled {
            done = done + opt_action(
                false,
                spec_target_action(cv, wi as int, crate::text::joined_path(cfg.codex_dir@, name@)),
            );
        }
        assert(mode == ExecutionMode::Apply ==> actions_view(actions@) =~= a0 + done);
        assert(count == done.len());
        assert(mode == ExecutionMode::Apply ==> writes_view(rec.writes@).len() == writes_view(
            old(rec).writes@,
        ).len() + done.len());
        assert(done =~= spec_cmds_actions(cfg, listing, name@, wi as int));
        if count == 0 {
            assert(blobs_view(store.blobs@) == blobs_view(old(store).blobs@));
            assert(writes_view(rec.writes@) == writes_view(old(rec).writes@));
            assert(actions_view(actions@) == actions_view(old(actions)@));
        }
    }
    (count, warned)
}

/// Append every record's name to the running list.
fn append_rec_names(names: &mut Vec<Vec<u8>>, recs: &Vec<FileRecord>)
    ensures
        final(names)@.len() == old(names)@.len() + recs@.len(),
        forall|a: int| 0 <= a < old(names)@.len() ==> final(names)@[a] == old(names)@[a],
        forall|a: int|
            old(names)@.len() <= a < final(names)@.len() ==> (#[trigger] final(names)@[a])@
                == recs@[a - old(names)@.len()].name@,
{
    let mut i: usize = 0;
    while i < recs.len()
        invariant
            i <= recs@.len(),
            names@.len() == old(names)@.len() + i,
            forall|a: int| 0 <= a < old(names)@.len() ==> names@[a] == old(names)@[a],
            forall|a: int|
                old(names)@.len() <= a < names@.len() ==> (#[trigger] names@[a])@ == recs@[a
                    - old(names)@.len()].name@,
        decreases recs@.len() - i,
    {
        names.push(clone_of(&recs[i].name));
        i = i + 1;
    }
}

/// Append every bound key to the running list.
fn append_key_names(names: &mut Vec<Vec<u8>>, keys: &Vec<(Vec<u8>, usize)>)
    ensures
        final(names)@.len() == old(names)@.len() + keys@.len(),
        forall|a: int| 0 <= a < old(names)@.len() ==> final(names)@[a] == old(names)@[a],
        forall|a: int|
            old(names)@.len() <= a < final(names)@.len() ==> (#[trigger] final(names)@[a])@
                == (keys@[a - old(names)@.len()]).0@,
{
    let mut i: usize = 0;
    while i < keys.len()
        invariant
            i <= keys@.len(),
            names@.len() == old(names)@.len() + i,
            forall|a: int| 0 <= a < old(names)@.len() ==> names@[a] == old(names)@[a],
            forall|a: int|
                old(names)@.len() <= a < names@.len() ==> (#[trigger] names@[a])@ == (keys@[a
                    - old(names)@.len()]).0@,
        decreases keys@.len() - i,
    {
        names.push(clone_of(&keys[i].0));
        i = i + 1;
    }
}

/// Synchronize the command files of every enabled tool and the central
/// directory, name by name.
pub fn sync_commands_with_mode(
    cfg: &Config,
    listing: &CommandsListing,
    mode: ExecutionMode,
    store: &mut HistoryStore,
    rec: &mut HistoryRecorder,
    actions: &mut Vec<WriteAction>,
) -> (r: (SyncStats, usize))
    requires
        old(store).wf(),
    ensures
        final(store).wf(),
        final(store).root@ == old(store).root@,
        events_view(final(store).events@) == events_view(old(store).events@),
        final(rec).id == old(rec).id,
        final(rec).origin@ == old(rec).origin@,
        mode == ExecutionMode::Plan ==> {
            &&& blobs_view(final(store).blobs@) == blobs_view(old(store).blobs@)
            &&& writes_view(final(rec).writes@) == writes_view(old(rec).writes@)
            &&& actions_view(final(actions)@) == actions_view(old(actions)@)
        },
        r.0.updated == 0 ==> {
            &&& blobs_view(final(store).blobs@) == blobs_view(old(store).blobs@)
            &&& writes_view(final(rec).writes@) == writes_view(old(rec).writes@)
            &&& actions_view(final(actions)@) == actions_view(old(actions)@)
        },
        mode == ExecutionMode::Apply ==> actions_view(final(actions)@).len() == actions_view(
            old(actions)@,
        ).len() + r.0.updated,
        forall|i: int|
            0 <= i < actions_view(old(actions)@).len() ==> #[trigger] actions_view(
                final(actions)@,
            )[i] == actions_view(old(actions)@)[i],
        mode == ExecutionMode::Apply ==> writes_view(final(rec).writes@).len() == writes_view(
            old(rec).writes@,
        ).len() + r.0.updated,
        exists|ns: Seq<Seq<u8>>|
            #[trigger] cmds_names_ok(cfg, listing, ns) && (mode == ExecutionMode::Apply ==> {
                &&& r.0.updated == cmds_pass_actions(cfg, listing, ns, ns.len() as int).len()
                &&& actions_view(final(actions)@) == actions_view(old(actions)@)
                    + cmds_pass_actions(cfg, listing, ns, ns.len() as int)
            }),
{
    let helm_enabled: bool = cfg.tool_enabled(crate::config::tool_helm_id().as_slice())
        && listing.helm.present;
    let opencode_enabled: bool = cfg.tool_enabled(crate::config::tool_opencode_id().as_slice())
        && listing.opencode.present;
    let codex_enabled: bool = cfg.tool_enabled(crate::config::tool_codex_id().as_slice())
        && listing.codex.present;
    proof {
        assert(helm_enabled == cmds_helm_on(cfg, listing));
        assert(opencode_enabled == cmds_opencode_on(cfg, listing));
        assert(codex_enabled == cmds_codex_on(cfg, listing));
    }

    let codex_keys: Vec<(Vec<u8>, usize)> = list_codex_files(&listing.codex.files);

    // gather every logical name seen anywhere
    let mut names: Vec<Vec<u8>> = Vec::new();
    if helm_enabled {
        append_rec_names(&mut names, &listing.helm.files);
    }
    let ghost g1 = names@;
    let ghost l1 = names@.len() as int;
    if opencode_enabled {
        append_rec_names(&mut names, &listing.opencode.files);
    }
    let ghost g2 = names@;
    let ghost l2 = names@.len() as int;
    if codex_enabled {
        append_key_names(&mut names, &codex_keys);
    }
    let ghost g3 = names@;
    let ghost l3 = names@.len() as int;
    append_rec_names(&mut names, &listing.central);
    proof {
        assert forall|a: int| 0 <= a < names@.len() implies cmds_observed(
            cfg,
            listing,
            (#[trigger] names@[a])@,
        ) by {
            if a < l1 {
                assert((g1[a])@ == listing.helm.files@[a].name@);
                assert(g2[a] == g1[a]);
                assert(g3[a] == g2[a]);
                assert(names@[a] == g3[a]);
                lemma_find_rec_some(listing.helm.files@, (names@[a])@, a);
            } else if a < l2 {
                assert((g2[a])@ == listing.opencode.files@[a - l1].name@);
                assert(g3[a] == g2[a]);
                assert(names@[a] == g3[a]);
                lemma_find_rec_some(listing.opencode.files@, (names@[a])@, a - l1);
            } else if a < l3 {
                assert((g3[a])@ == (codex_keys@[a - l2]).0@);
                assert(names@[a] == g3[a]);
                assert((codex_keys@[a - l2]).1 == spec_codex_idx(
                    listing.codex.files@,
                    (names@[a])@,
                ));
            } else {
                assert((names@[a])@ == listing.central@[a - l3].name@);
                lemma_find_rec_some(listing.central@, (names@[a])@, a - l3);
            }
        }
        assert forall|nm: Seq<u8>| #[trigger] cmds_observed(cfg, listing, nm)
            implies crate::config::list_has(names@, nm) by {
            if cmds_helm_on(cfg, listing) && spec_find_rec(listing.helm.files@, nm) >= 0 {
                let j = spec_find_rec(listing.helm.files@, nm);
                lemma_find_rec_ok(listing.helm.files@, nm);
                assert((g1[j])@ == nm);
                assert(g2[j] == g1[j]);
                assert(g3[j] == g2[j]);
                assert(names@[j] == g3[j]);
            } else if cmds_opencode_on(cfg, listing) && spec_find_rec(
                listing.opencode.files@,
                nm,
            ) >= 0 {
                let j = spec_find_rec(listing.opencode.files@, nm);
                lemma_find_rec_ok(listing.opencode.files@, nm);
                assert((g2[l1 + j])@ == nm);
                assert(g3[l1 + j] == g2[l1 + j]);
                assert(names@[l1 + j] == g3[l1 + j]);
            } else if cmds_codex_on(cfg, listing) && spec_codex_idx(listing.codex.files@, nm)
                >= 0 {
                let k = spec_codex_idx(listing.codex.files@, nm);
                lemma_cidx_ok(listing.codex.files@, listing.codex.files@.len() as int, nm);
                let w = choose|w: int|
                    0 <= w < codex_keys@.len() && (#[trigger] codex_keys@[w]).0@
                        == spec_codex_key(listing.codex.files@[k].name@);
                assert((g3[l2 + w])@ == (codex_keys@[w]).0@);
                assert(names@[l2 + w] == g3[l2 + w]);
                assert((names@[l2 + w])@ == nm);
            } else {
                let j = spec_find_rec(listing.central@, nm);
                lemma_find_rec_ok(listing.central@, nm);
                assert((names@[l3 + j])@ == nm);
            }
        }
    }
    let ghost names_all = names@;
    let names: Vec<Vec<u8>> = unique_sorted(names);
    let ghost ns = Seq::new(names@.len(), |k: int| (names@[k])@);
    proof {
        assert(cmds_names_ok(cfg, listing, ns)) by {
            assert forall|a: int| 0 <= a < ns.len() implies cmds_observed(
                cfg,
                listing,
                #[trigger] ns[a],
            ) by {
                assert(crate::config::list_has(names_all, (names@[a])@));
                let w = choose|w: int|
                    0 <= w < names_all.len() && (#[trigger] names_all[w])@ == (names@[a])@;
                assert(cmds_observed(cfg, listing, (names_all[w])@));
            }
            assert forall|nm: Seq<u8>| #[trigger] cmds_observed(cfg, listing, nm)
                implies exists|a: int| 0 <= a < ns.len() && ns[a] == nm by {
                assert(crate::config::list_has(names_all, nm));
                let k = choose|k: int|
                    0 <= k < names_all.len() && (#[trigger] names_all[k])@ == nm;
                assert(crate::config::list_has(names@, (names_all[k])@));
                let a = choose|a: int| 0 <= a < names@.len() && (#[trigger] names@[a])@ == nm;
                assert(ns[a] == nm);
            }
        }
    }

    let mut stats: SyncStats = SyncStats { updated: 0 };
    let mut warned: usize = 0;
    let mut n: usize = 0;
    while n < names.len()
        invariant
            n <= names@.len(),
            warned <= n,
            helm_enabled == cmds_helm_on(cfg, listing),
            opencode_enabled == cmds_opencode_on(cfg, listing),
            codex_enabled == cmds_codex_on(cfg, listing),
            cmds_names_ok(cfg, listing, ns),
            names@.len() == ns.len(),
            forall|k: int| 0 <= k < names@.len() ==> (#[trigger] names@[k])@ == ns[k],
            forall|a: int|
                0 <= a < codex_keys@.len() ==> (#[trigger] codex_keys@[a]).1
                    < listing.codex.files@.len() && (codex_keys@[a]).1 == spec_codex_idx(
                    listing.codex.files@,
                    (codex_keys@[a]).0@,
                ),
            codex_map_complete(
                listing.codex.files@,
                listing.codex.files@.len() as int,
                codex_keys@,
            ),
            store.wf(),
            store.root@ == old(store).root@,
            events_view(store.events@) == events_view(old(store).events@),
            rec.id == old(rec).id,
            rec.origin@ == old(rec).origin@,
            rec.timestamp_ms == old(rec).timestamp_ms,
            mode == ExecutionMode::Plan ==> {
                &&& blobs_view(store.blobs@) == blobs_view(old(store).blobs@)
                &&& writes_view(rec.writes@) == writes_view(old(rec).writes@)
                &&& actions_view(actions@) == actions_view(old(actions)@)
            },
            stats.updated == 0 ==> {
                &&& blobs_view(store.blobs@) == blobs_view(old(store).blobs@)
                &&& writes_view(rec.writes@) == writes_view(old(rec).writes@)
                &&& actions_view(actions@) == actions_view(old(actions)@)
            },
            mode == ExecutionMode::Apply ==> actions_view(actions@).len() == actions_view(
                old(actions)@,
            ).len() + stats.updated,
            forall|k: int|
                0 <= k < actions_view(old(actions)@).len() ==> #[trigger] actions_view(actions@)[k]
                    == actions_view(old(actions)@)[k],
            mode == ExecutionMode::Apply ==> writes_view(rec.writes@).len() == writes_view(
                old(rec).writes@,
            ).len() + stats.updated,
            mode == ExecutionMode::Apply ==> stats.updated == cmds_pass_actions(
                cfg,
                listing,
                ns,
                n as int,
            ).len(),
            mode == ExecutionMode::Apply ==> actions_view(actions@) == actions_view(
                old(actions)@,
            ) + cmds_pass_actions(cfg, listing, ns, n as int),
        decreases names@.len() - n,
    {
        let name: &Vec<u8> = &names[n];
        let ghost a_pre = actions_view(actions@);
        let ghost u_pre = stats.updated;
        let (c, w): (usize, bool) = sync_one_command_name(
            cfg,
            listing,
            &codex_keys,
            name,
            helm_enabled,
            opencode_enabled,
            codex_enabled,
            mode,
            store,
            rec,
            actions,
        );
        proof {
            if mode == ExecutionMode::Apply {
                assert(name@ == ns[n as int]);
                assert(cmds_observed(cfg, listing, name@));
                let cv = cmds_variants(cfg, listing, name@);
                let wi_n = choose|wi: int|
                    #[trigger] vwinner_at(cmds_variants(cfg, listing, name@), wi) && c
                        == spec_cmds_actions(cfg, listing, name@, wi).len() && (mode
                        == ExecutionMode::Apply ==> actions_view(actions@) == a_pre
                        + spec_cmds_actions(cfg, listing, name@, wi));
                assert(vwinner_at(cv, cmds_wi(cfg, listing, name@))) by {
                    assert(vwinner_at(cv, wi_n));
                }
                lemma_vwinner_unique(cv, wi_n, cmds_wi(cfg, listing, name@));
                assert(cmds_pass_actions(cfg, listing, ns, n + 1) == cmds_pass_actions(
                    cfg,
                    listing,
                    ns,
                    n as int,
                ) + spec_cmds_actions(cfg, listing, ns[n as int], cmds_wi(
                    cfg,
                    listing,
                    ns[n as int],
                )));
                assert(actions_view(actions@) =~= actions_view(old(actions)@) + cmds_pass_actions(
                    cfg,
                    listing,
                    ns,
                    n + 1,
                ));
                assert(actions_view(actions@).len() == a_pre.len() + c);
                assert(actions_view(actions@).len() == actions@.len());
                assert(forall|k: int|
                    0 <= k < a_pre.len() ==> #[trigger] actions_view(actions@)[k] == a_pre[k]);
                assert(actions_view(actions@).len() - actions_view(old(actions)@).len() == u_pre
                    + c);
            }
        }
        let _cap: usize = actions.len();
        proof {
            assert(actions_view(actions@).len() == actions@.len());
        }
        stats.updated = crate::sync::skills::bump_by_exact(
            stats.updated,
            c,
            mode,
            Ghost(actions_view(actions@).len() - actions_view(old(actions)@).len()),
        );
        proof {
            if mode == ExecutionMode::Apply {
                assert(stats.updated == cmds_pass_actions(cfg, listing, ns, n + 1).len());
            }
        }
        if w {
            warned = warned + 1;
        }
        n = n + 1;
    }
    proof {
        assert(cmds_names_ok(cfg, listing, ns));
        assert(names@.len() == ns.len());
    }
    (stats, warned)
}

} // verus!
