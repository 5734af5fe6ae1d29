//! The skills synchronizer: directories with a `SKILL.md` inside, replaced
//! whole when their digests differ, with the winner's required pair
//! written into the target's own `SKILL.md` frontmatter block.

use vstd::prelude::*;

verus! {

use vstd::string::StringSliceAdditionalSpecFns;
use crate::codec::{TreeFile, le64, tree_view, records_wf};
use crate::config::Config;
use crate::doc::{split_body, split_frontmatter, merge_frontmatter};
use crate::hash::{fnv64, hash_bytes};
use crate::history::{
    HistoryStore, HistoryRecorder, EntityState, EntityKind, blobs_view, events_view, writes_view,
};
use crate::sync::{
    SyncStats, ExecutionMode, Tool, WriteAction, actions_view, spec_tool_order, tool_order,
    unique_sorted, key_lt,
};
use crate::text::{clone_of, lit, path_join, bytes_eq};

/// One file of a skill directory, with its modification time.
pub struct SkillEntry {
    pub rel: Vec<u8>,
    pub data: Vec<u8>,
    pub mtime: u128,
}

/// One observed skill directory.
pub struct SkillRecord {
    pub name: Vec<u8>,
    pub entries: Vec<SkillEntry>,
}

/// A tool's skills directory as observed on disk.
pub struct SkillsDirListing {
    pub present: bool,
    pub skills: Vec<SkillRecord>,
}

/// What the skills category sees on disk.
pub struct SkillsListing {
    pub helm: SkillsDirListing,
    pub opencode: SkillsDirListing,
    pub codex: SkillsDirListing,
    pub central: Vec<SkillRecord>,
}

/// The marker file's name.
pub open spec fn skill_md() -> Seq<u8> {
    "SKILL.md".spec_bytes()
}

/// The digest of one file: the body digest for the marker file, the byte
/// digest for everything else.
pub open spec fn file_hash(rel: Seq<u8>, data: Seq<u8>) -> u64 {
    if rel == skill_md() {
        fnv64(split_body(data))
    } else {
        fnv64(data)
    }
}

/// The byte string a directory digest is computed over.
pub open spec fn digest_input(entries: Seq<SkillEntry>) -> Seq<u8>
    decreases entries.len(),
{
    if entries.len() == 0 {
        Seq::<u8>::empty()
    } else {
        digest_input(entries.drop_last()) + entries.last().rel@ + le64(
            file_hash(entries.last().rel@, entries.last().data@),
        )
    }
}

/// The content digest of a skill directory.
pub open spec fn spec_skill_digest(entries: Seq<SkillEntry>) -> u64 {
    fnv64(digest_input(entries))
}

/// The newest modification time inside a skill directory.
pub open spec fn spec_skill_mtime(entries: Seq<SkillEntry>) -> u128
    decreases entries.len(),
{
    if entries.len() == 0 {
        0
    } else {
        let r = spec_skill_mtime(entries.drop_last());
        if entries.last().mtime > r {
            entries.last().mtime
        } else {
            r
        }
    }
}

/// Digest a skill directory's contents and report its newest time.
pub fn digest_skill_dir(entries: &Vec<SkillEntry>) -> (r: (u64, u128))
    ensures
        r.0 == spec_skill_digest(entries@),
        r.1 == spec_skill_mtime(entries@),
{
    let marker: Vec<u8> = lit("SKILL.md");
    let mut buf: Vec<u8> = Vec::new();
    let mut mtime: u128 = 0;
    let mut i: usize = 0;
    proof {
        assert(entries@.take(0) =~= Seq::<SkillEntry>::empty());
        assert(buf@ =~= digest_input(entries@.take(0)));
    }
    while i < entries.len()
        invariant
            i <= entries@.len(),
            marker@ == skill_md(),
            buf@ == digest_input(entries@.take(i as int)),
            mtime == spec_skill_mtime(entries@.take(i as int)),
        decreases entries@.len() - i,
    {
        proof {
            assert(entries@.take(i + 1).drop_last() =~= entries@.take(i as int));
            assert(entries@.take(i + 1).last() == entries@[i as int]);
        }
        let ghost buf0 = buf@;
        let e: &SkillEntry = &entries[i];
        let h: u64 = if bytes_eq(e.rel.as_slice(), marker.as_slice()) {
            let (_fm, body) = split_frontmatter(e.data.as_slice());
            hash_bytes(body.as_slice())
        } else {
            hash_bytes(e.data.as_slice())
        };
        crate::text::append_slice(&mut buf, e.rel.as_slice());
        crate::codec::push_le64(&mut buf, h);
        proof {
            assert(buf@ =~= buf0 + entries@[i as int].rel@ + le64(
                file_hash(entries@[i as int].rel@, entries@[i as int].data@),
            ));
        }
        if e.mtime > mtime {
            mtime = e.mtime;
        }
        i = i + 1;
    }
    proof {
        assert(entries@.take(entries@.len() as int) =~= entries@);
    }
    (hash_bytes(buf.as_slice()), mtime)
}

/// One observed copy of a skill.
pub struct SkillVariant {
    pub tool: Tool,
    pub digest: u64,
    pub mtime: u128,
}

/// Pick the winning skill variant: greatest `(mtime, rank)`, later on a
/// full tie.
pub fn select_skill_winner(variants: &Vec<SkillVariant>) -> (r: usize)
    requires
        variants@.len() > 0,
    ensures
        r < variants@.len(),
        forall|j: int|
            0 <= j < variants@.len() ==> !key_lt(
                variants@[r as int].mtime,
                spec_tool_order(variants@[r as int].tool),
                (#[trigger] variants@[j]).mtime,
                spec_tool_order(variants@[j].tool),
            ),
        forall|j: int|
            r < j < variants@.len() ==> key_lt(
                (#[trigger] variants@[j]).mtime,
                spec_tool_order(variants@[j].tool),
                variants@[r as int].mtime,
                spec_tool_order(variants@[r as int].tool),
            ),
{
    let mut best: usize = 0;
    let mut i: usize = 1;
    while i < variants.len()
        invariant
            variants@.len() > 0,
            best < i <= variants@.len(),
            forall|j: int|
                0 <= j < i ==> !key_lt(
                    variants@[best as int].mtime,
                    spec_tool_order(variants@[best as int].tool),
                    (#[trigger] variants@[j]).mtime,
                    spec_tool_order(variants@[j].tool),
                ),
            forall|j: int|
                best < j < i ==> key_lt(
                    (#[trigger] variants@[j]).mtime,
                    spec_tool_order(variants@[j].tool),
                    variants@[best as int].mtime,
                    spec_tool_order(variants@[best as int].tool),
                ),
        decreases variants@.len() - i,
    {
        let bm: u128 = variants[best].mtime;
        let br: u8 = tool_order(variants[best].tool);
        let cm: u128 = variants[i].mtime;
        let cr: u8 = tool_order(variants[i].tool);
        if !(cm < bm || (cm == bm && cr < br)) {
            best = i;
        }
        i = i + 1;
    }
    best
}

/// The first entry with this relative path, or a negative value.
pub open spec fn spec_find_rel(es: Seq<SkillEntry>, rel: Seq<u8>) -> int
    decreases es.len(),
{
    if es.len() == 0 {
        -1
    } else if es.first().rel@ == rel {
        0
    } else {
        let r = spec_find_rel(es.drop_first(), rel);
        if r < 0 {
            -1
        } else {
            r + 1
        }
    }
}

/// The raw bytes of a skill's marker file, if it has one.
pub open spec fn spec_skill_md_raw(es: Seq<SkillEntry>) -> Option<Seq<u8>> {
    let i = spec_find_rel(es, skill_md());
    if i >= 0 {
        Some(es[i].data@)
    } else {
        None
    }
}

/// The plain view of a skill's entries.
pub open spec fn spec_entries_tree(es: Seq<SkillEntry>) -> Seq<(Seq<u8>, Seq<u8>)> {
    Seq::new(es.len(), |i: int| (es[i].rel@, es[i].data@))
}

/// The files a replaced target holds: the source's files verbatim, except
/// that the marker file's frontmatter is selected by the per-tool
/// preservation rule against the target's marker file.
pub open spec fn spec_skill_tree(src: Seq<SkillEntry>, target_md: Option<Seq<u8>>) -> Seq<
    (Seq<u8>, Seq<u8>),
> {
    Seq::new(
        src.len(),
        |i: int|
            (
                src[i].rel@,
                if src[i].rel@ == skill_md() {
                    crate::sync::spec_merged_raw(src[i].data@, target_md, true)
                } else {
                    src[i].data@
                },
            ),
    )
}

/// A skill directory the engine can capture: records fit the wire format.
pub open spec fn skill_rec_wf(entries: Seq<SkillEntry>) -> bool {
    &&& entries.len() <= u32::MAX
    &&& forall|i: int|
        0 <= i < entries.len() ==> (#[trigger] entries[i]).rel@.len() <= u32::MAX
            && entries[i].data@.len() <= u64::MAX
}

/// Every skill record in the listing is capturable.
pub open spec fn skills_listing_wf(listing: &SkillsListing) -> bool {
    &&& forall|i: int|
        0 <= i < listing.helm.skills@.len() ==> skill_rec_wf(
            (#[trigger] listing.helm.skills@[i]).entries@,
        )
    &&& forall|i: int|
        0 <= i < listing.opencode.skills@.len() ==> skill_rec_wf(
            (#[trigger] listing.opencode.skills@[i]).entries@,
        )
    &&& forall|i: int|
        0 <= i < listing.codex.skills@.len() ==> skill_rec_wf(
            (#[trigger] listing.codex.skills@[i]).entries@,
        )
    &&& forall|i: int|
        0 <= i < listing.central@.len() ==> skill_rec_wf((#[trigger] listing.central@[i]).entries@)
}

/// The first record with this name, or a negative value.
pub open spec fn spec_find_skill(ss: Seq<SkillRecord>, name: Seq<u8>) -> int
    decreases ss.len(),
{
    if ss.len() == 0 {
        -1
    } else if ss.first().name@ == name {
        0
    } else {
        let r = spec_find_skill(ss.drop_first(), name);
        if r < 0 {
            -1
        } else {
            r + 1
        }
    }
}

/// The found record carries the name, and nothing earlier does.
pub proof fn lemma_find_skill_ok(ss: Seq<SkillRecord>, name: Seq<u8>)
    ensures
        spec_find_skill(ss, name) >= 0 ==> spec_find_skill(ss, name) < ss.len() && ss[spec_find_skill(
            ss,
            name,
        )].name@ == name,
        spec_find_skill(ss, name) < 0 ==> forall|j: int|
            0 <= j < ss.len() ==> (#[trigger] ss[j]).name@ != name,
    decreases ss.len(),
{
    if ss.len() > 0 && ss.first().name@ != name {
        lemma_find_skill_ok(ss.drop_first(), name);
        assert(forall|j: int| 1 <= j < ss.len() ==> (#[trigger] ss[j]) == ss.drop_first()[j - 1]);
    }
}

/// The first skill with this name.
pub fn find_skill(skills: &Vec<SkillRecord>, name: &[u8]) -> (r: Option<usize>)
    ensures
        match r {
            Some(i) => 0 <= i < skills@.len() && spec_find_skill(skills@, name@) == i,
            None => spec_find_skill(skills@, name@) < 0,
        },
{
    let mut i: usize = 0;
    while i < skills.len()
        invariant
            i <= skills@.len(),
            forall|j: int| 0 <= j < i ==> (#[trigger] skills@[j]).name@ != name@,
        decreases skills@.len() - i,
    {
        if bytes_eq(skills[i].name.as_slice(), name) {
            proof {
                lemma_find_skill_char(skills@, name@, i as int);
            }
            return Some(i);
        }
        i = i + 1;
    }
    proof {
        lemma_find_skill_none(skills@, name@);
    }
    None
}

proof fn lemma_find_skill_char(ss: Seq<SkillRecord>, name: Seq<u8>, i: int)
    requires
        0 <= i < ss.len(),
        ss[i].name@ == name,
        forall|j: int| 0 <= j < i ==> (#[trigger] ss[j]).name@ != name,
    ensures
        spec_find_skill(ss, name) == i,
    decreases ss.len(),
{
    if i > 0 {
        assert(ss.drop_first()[i - 1] == ss[i]);
        assert(forall|j: int| 0 <= j < i - 1 ==> (#[trigger] ss.drop_first()[j]) == ss[j + 1]);
        lemma_find_skill_char(ss.drop_first(), name, i - 1);
    }
}

proof fn lemma_find_skill_none(ss: Seq<SkillRecord>, name: Seq<u8>)
    requires
        forall|j: int| 0 <= j < ss.len() ==> (#[trigger] ss[j]).name@ != name,
    ensures
        spec_find_skill(ss, name) < 0,
    decreases ss.len(),
{
    if ss.len() > 0 {
        assert(forall|j: int|
            0 <= j < ss.drop_first().len() ==> (#[trigger] ss.drop_first()[j]) == ss[j + 1]);
        lemma_find_skill_none(ss.drop_first(), name);
    }
}

/// Participation flags of the three tools.
pub open spec fn skills_helm_on(cfg: &Config, listing: &SkillsListing) -> bool {
    crate::config::list_has(cfg.enabled_tools@, crate::config::tool_helm())
        && listing.helm.present
}

pub open spec fn skills_opencode_on(cfg: &Config, listing: &SkillsListing) -> bool {
    crate::config::list_has(cfg.enabled_tools@, crate::config::tool_opencode())
        && listing.opencode.present
}

pub open spec fn skills_codex_on(cfg: &Config, listing: &SkillsListing) -> bool {
    crate::config::list_has(cfg.enabled_tools@, crate::config::tool_codex())
        && listing.codex.present
}

/// A name takes part in the pass: some participating place holds it.
pub open spec fn skills_observed(cfg: &Config, listing: &SkillsListing, name: Seq<u8>) -> bool {
    ||| spec_find_skill(listing.central@, name) >= 0
    ||| skills_helm_on(cfg, listing) && spec_find_skill(listing.helm.skills@, name) >= 0
    ||| skills_opencode_on(cfg, listing) && spec_find_skill(listing.opencode.skills@, name) >= 0
    ||| skills_codex_on(cfg, listing) && spec_find_skill(listing.codex.skills@, name) >= 0
}

/// The entries of the record a place holds under a name.
pub open spec fn skills_rec(ss: Seq<SkillRecord>, name: Seq<u8>) -> Seq<SkillEntry> {
    ss[spec_find_skill(ss, name)].entries@
}

/// The variants one name offers, in the pass's fixed order.
pub open spec fn skills_variants(cfg: &Config, listing: &SkillsListing, name: Seq<u8>) -> Seq<
    (Tool, u64, u128),
> {
    let o1: Seq<(Tool, u64, u128)> = if spec_find_skill(listing.central@, name) >= 0 {
        seq![
            (
                Tool::Central,
                spec_skill_digest(skills_rec(listing.central@, name)),
                spec_skill_mtime(skills_rec(listing.central@, name)),
            ),
        ]
    } else {
        Seq::<(Tool, u64, u128)>::empty()
    };
    let o2: Seq<(Tool, u64, u128)> = if skills_helm_on(cfg, listing) && spec_find_skill(
        listing.helm.skills@,
        name,
    ) >= 0 {
        seq![
            (
                Tool::Helm,
                spec_skill_digest(skills_rec(listing.helm.skills@, name)),
                spec_skill_mtime(skills_rec(listing.helm.skills@, name)),
            ),
        ]
    } else {
        Seq::<(Tool, u64, u128)>::empty()
    };
    let o3: Seq<(Tool, u64, u128)> = if skills_opencode_on(cfg, listing) && spec_find_skill(
        listing.opencode.skills@,
        name,
    ) >= 0 {
        seq![
            (
                Tool::Opencode,
                spec_skill_digest(skills_rec(listing.opencode.skills@, name)),
                spec_skill_mtime(skills_rec(listing.opencode.skills@, name)),
            ),
        ]
    } else {
        Seq::<(Tool, u64, u128)>::empty()
    };
    let o4: Seq<(Tool, u64, u128)> = if skills_codex_on(cfg, listing) && spec_find_skill(
        listing.codex.skills@,
        name,
    ) >= 0 {
        seq![
            (
                Tool::Codex,
                spec_skill_digest(skills_rec(listing.codex.skills@, name)),
                spec_skill_mtime(skills_rec(listing.codex.skills@, name)),
            ),
        ]
    } else {
        Seq::<(Tool, u64, u128)>::empty()
    };
    o1 + o2 + o3 + o4
}

/// The selected winner over skill variants: the last one whose
/// `(mtime, rank)` pair no other exceeds.
pub open spec fn svwinner_at(vs: Seq<(Tool, u64, u128)>, i: int) -> bool {
    &&& 0 <= i < vs.len()
    &&& forall|j: int|
        0 <= j < vs.len() ==> !crate::sync::key_lt(
            vs[i].2,
            spec_tool_order(vs[i].0),
            (#[trigger] vs[j]).2,
            spec_tool_order(vs[j].0),
        )
    &&& forall|j: int|
        i < j < vs.len() ==> crate::sync::key_lt(
            (#[trigger] vs[j]).2,
            spec_tool_order(vs[j].0),
            vs[i].2,
            spec_tool_order(vs[i].0),
        )
}

/// Two winner indices coincide.
pub proof fn lemma_svwinner_unique(vs: Seq<(Tool, u64, u128)>, a: int, b: int)
    requires
        svwinner_at(vs, a),
        svwinner_at(vs, b),
    ensures
        a == b,
{
    if a < b {
        assert(crate::sync::key_lt(vs[b].2, spec_tool_order(vs[b].0), vs[a].2, spec_tool_order(vs[a].0)));
        assert(!crate::sync::key_lt(vs[b].2, spec_tool_order(vs[b].0), vs[a].2, spec_tool_order(vs[a].0)));
    }
    if b < a {
        assert(crate::sync::key_lt(vs[a].2, spec_tool_order(vs[a].0), vs[b].2, spec_tool_order(vs[b].0)));
        assert(!crate::sync::key_lt(vs[a].2, spec_tool_order(vs[a].0), vs[b].2, spec_tool_order(vs[b].0)));
    }
}

/// The winner index one name's variants determine.
pub open spec fn skills_wi(cfg: &Config, listing: &SkillsListing, name: Seq<u8>) -> int {
    choose|wi: int| svwinner_at(skills_variants(cfg, listing, name), wi)
}

/// A name list fit for a pass: strictly ascending, holding every observed
/// name and no others.
pub open spec fn skills_names_ok(cfg: &Config, listing: &SkillsListing, ns: Seq<Seq<u8>>) -> bool {
    &&& forall|a: int, b: int|
        0 <= a < b < ns.len() ==> crate::text::lex_le(#[trigger] ns[a], #[trigger] ns[b]) && ns[a]
            != ns[b]
    &&& forall|a: int| 0 <= a < ns.len() ==> skills_observed(cfg, listing, #[trigger] ns[a])
    &&& forall|name: Seq<u8>|
        #[trigger] skills_observed(cfg, listing, name) ==> exists|a: int|
            0 <= a < ns.len() && ns[a] == name
}

/// The actions a whole skills pass owes over the first `k` names of a
/// list: each name's owed actions for its determined winner, in order.
pub open spec fn skills_pass_actions(
    cfg: &Config,
    listing: &SkillsListing,
    ns: Seq<Seq<u8>>,
    k: int,
) -> Seq<(bool, Seq<u8>, Seq<u8>, Seq<(Seq<u8>, Seq<u8>)>)>
    decreases k,
{
    if k <= 0 {
        Seq::<(bool, Seq<u8>, Seq<u8>, Seq<(Seq<u8>, Seq<u8>)>)>::empty()
    } else {
        skills_pass_actions(cfg, listing, ns, k - 1) + spec_skills_actions(
            cfg,
            listing,
            ns[k - 1],
            skills_wi(cfg, listing, ns[k - 1]),
        )
    }
}

/// A held name is found.
proof fn lemma_find_skill_some(ss: Seq<SkillRecord>, name: Seq<u8>, j: int)
    requires
        0 <= j < ss.len(),
        ss[j].name@ == name,
    ensures
        spec_find_skill(ss, name) >= 0,
    decreases ss.len(),
{
    if ss.len() > 0 && ss[0].name@ != name {
        assert(ss.drop_first()[j - 1] == ss[j]);
        lemma_find_skill_some(ss.drop_first(), name, j - 1);
    }
}

/// The record the winning variant stands for.
pub open spec fn skills_winner_rec(
    cfg: &Config,
    listing: &SkillsListing,
    name: Seq<u8>,
    wtool: Tool,
) -> Seq<SkillEntry> {
    match wtool {
        Tool::Central => skills_rec(listing.central@, name),
        Tool::Helm => skills_rec(listing.helm.skills@, name),
        Tool::Opencode => skills_rec(listing.opencode.skills@, name),
        Tool::Codex => skills_rec(listing.codex.skills@, name),
    }
}

/// The action one skill target is owed: nothing when its digest already
/// equals the winner's, else a directory replacement carrying the
/// winner's files with the target's marker block rewritten.
#[verifier::opaque]
pub open spec fn skills_target_action(
    ss: Seq<SkillRecord>,
    dir: Seq<u8>,
    name: Seq<u8>,
    wdigest: u64,
    wentries: Seq<SkillEntry>,
) -> Option<(bool, Seq<u8>, Seq<u8>, Seq<(Seq<u8>, Seq<u8>)>)> {
    let ex = spec_find_skill(ss, name);
    let exd: Option<u64> = if ex >= 0 {
        Some(spec_skill_digest(skills_rec(ss, name)))
    } else {
        None
    };
    if exd == Some(wdigest) {
        None
    } else {
        let tmd: Option<Seq<u8>> = if ex >= 0 {
            spec_skill_md_raw(skills_rec(ss, name))
        } else {
            None
        };
        Some(
            (
                true,
                crate::text::joined_path(dir, name),
                Seq::<u8>::empty(),
                spec_skill_tree(wentries, tmd),
            ),
        )
    }
}

/// The actions one name owes, target by target in the pass's fixed order.
#[verifier::opaque]
pub open spec fn spec_skills_actions(
    cfg: &Config,
    listing: &SkillsListing,
    name: Seq<u8>,
    wi: int,
) -> Seq<(bool, Seq<u8>, Seq<u8>, Seq<(Seq<u8>, Seq<u8>)>)> {
    let vs = skills_variants(cfg, listing, name);
    let wdigest = vs[wi].1;
    let wentries = skills_winner_rec(cfg, listing, name, vs[wi].0);
    crate::sync::opt_action(
        true,
        skills_target_action(listing.central@, cfg.central_skills_dir@, name, wdigest, wentries),
    ) + crate::sync::opt_action(
        skills_helm_on(cfg, listing),
        skills_target_action(listing.helm.skills@, cfg.helm_skills_dir@, name, wdigest, wentries),
    ) + crate::sync::opt_action(
        skills_opencode_on(cfg, listing),
        skills_target_action(
            listing.opencode.skills@,
            cfg.opencode_skills_dir@,
            name,
            wdigest,
            wentries,
        ),
    ) + crate::sync::opt_action(
        skills_codex_on(cfg, listing),
        skills_target_action(
            listing.codex.skills@,
            cfg.codex_skills_dir@,
            name,
            wdigest,
            wentries,
        ),
    )
}

/// Bring one skill target up to date: nothing happens when the digests

/// Bring one skill target up to date: nothing happens when the digests
/// already agree; otherwise the whole target directory is replaced by the
/// winner's files, with the winner's required pair written into the
/// target's own `SKILL.md` frontmatter block.
#[verifier::rlimit(100)]
#[verifier::spinoff_prover]
pub fn sync_skill_target(
    source: &SkillRecord,
    source_digest: u64,
    existing: Option<&SkillRecord>,
    existing_digest: Option<u64>,
    target_path: &[u8],
    mode: ExecutionMode,
    store: &mut HistoryStore,
    rec: &mut HistoryRecorder,
    actions: &mut Vec<WriteAction>,
) -> (updated: bool)
    requires
        old(store).wf(),
        skill_rec_wf(source.entries@),
        match existing {
            Some(t) => skill_rec_wf(t.entries@),
            None => true,
        },
        existing is Some <==> existing_digest is Some,
    ensures
        final(store).wf(),
        final(store).root@ == old(store).root@,
        events_view(final(store).events@) == events_view(old(store).events@),
        final(rec).id == old(rec).id,
        final(rec).origin@ == old(rec).origin@,
        final(rec).timestamp_ms == old(rec).timestamp_ms,
        writes_view(final(rec).writes@).len() >= writes_view(old(rec).writes@).len(),
        updated == !(existing_digest matches Some(d) && d == source_digest),
        !updated || mode == ExecutionMode::Plan ==> {
            &&& blobs_view(final(store).blobs@) == blobs_view(old(store).blobs@)
            &&& writes_view(final(rec).writes@) == writes_view(old(rec).writes@)
            &&& actions_view(final(actions)@) == actions_view(old(actions)@)
        },
        updated && mode == ExecutionMode::Apply ==> {
            let tmd = match existing {
                Some(t) => spec_skill_md_raw(t.entries@),
                None => None,
            };
            let tree = spec_skill_tree(source.entries@, tmd);
            let bv0 = blobs_view(old(store).blobs@);
            let bv1 = match existing {
                Some(t) => crate::history::spec_store_bv(
                    bv0,
                    crate::codec::spec_encode(spec_entries_tree(t.entries@)),
                ),
                None => bv0,
            };
            let before = match existing {
                Some(t) => EntityState {
                    kind: EntityKind::Dir,
                    blob: Some(
                        crate::history::spec_store_id(
                            bv0,
                            crate::codec::spec_encode(spec_entries_tree(t.entries@)),
                        ),
                    ),
                },
                None => EntityState { kind: EntityKind::Missing, blob: None },
            };
            let after = EntityState {
                kind: EntityKind::Dir,
                blob: Some(crate::history::spec_store_id(bv1, crate::codec::spec_encode(tree))),
            };
            &&& actions_view(final(actions)@) == actions_view(old(actions)@).push(
                (true, target_path@, Seq::<u8>::empty(), tree),
            )
            &&& blobs_view(final(store).blobs@) == crate::history::spec_store_bv(
                bv1,
                crate::codec::spec_encode(tree),
            )
            &&& writes_view(final(rec).writes@) == if before == after {
                writes_view(old(rec).writes@)
            } else {
                writes_view(old(rec).writes@).push((target_path@, before, after))
            }
        },
{
    match existing_digest {
        Some(d) => {
            if d == source_digest {
                proof {
                    assert(blobs_view(store.blobs@) =~= blobs_view(old(store).blobs@));
                    assert(writes_view(rec.writes@) =~= writes_view(old(rec).writes@));
                    assert(actions_view(actions@) =~= actions_view(old(actions)@));
                    assert(events_view(store.events@) =~= events_view(old(store).events@));
                }
                return false;
            }
        },
        None => {},
    }
    match mode {
        ExecutionMode::Plan => {
            proof {
                assert(blobs_view(store.blobs@) =~= blobs_view(old(store).blobs@));
                assert(writes_view(rec.writes@) =~= writes_view(old(rec).writes@));
                assert(actions_view(actions@) =~= actions_view(old(actions)@));
                assert(events_view(store.events@) =~= events_view(old(store).events@));
            }
            return true;
        },
        ExecutionMode::Apply => {},
    }
    let marker: Vec<u8> = lit("SKILL.md");
    // the target's marker file as it stands today
    let target_md: Option<Vec<u8>> = match existing {
        Some(t) => {
            match find_skill_entry(&t.entries, marker.as_slice()) {
                Some(ti) => Some(clone_of(&t.entries[ti].data)),
                None => None,
            }
        },
        None => None,
    };
    let ghost tmd: Option<Seq<u8>> = match existing {
        Some(t) => spec_skill_md_raw(t.entries@),
        None => None,
    };
    proof {
        assert(crate::doc::opt_view(match target_md {
            Some(ref v) => Some(v),
            None => None,
        }) == tmd);
    }
    // the files the target will hold, with the marker file's frontmatter
    // selected by the per-tool preservation rule
    let existing_md_doc: Option<crate::doc::MarkdownDoc> = match &target_md {
        Some(raw) => Some(crate::doc::parse_markdown(clone_of(raw))),
        None => None,
    };
    let mut files: Vec<TreeFile> = Vec::new();
    let mut i: usize = 0;
    while i < source.entries.len()
        invariant
            i <= source.entries@.len(),
            skill_rec_wf(source.entries@),
            marker@ == skill_md(),
            files@.len() == i,
            match existing_md_doc {
                Some(ref d) => d.wf() && tmd == Some(d.raw@),
                None => tmd is None,
            },
            forall|j: int|
                0 <= j < i ==> (#[trigger] files@[j]).rel@.len() <= u32::MAX && files@[j].rel@
                    == source.entries@[j].rel@ && files@[j].data@.len() <= u64::MAX,
            forall|j: int|
                0 <= j < i ==> (#[trigger] files@[j]).data@ == spec_skill_tree(
                    source.entries@,
                    tmd,
                )[j].1,
        decreases source.entries@.len() - i,
    {
        let e: &SkillEntry = &source.entries[i];
        let data: Vec<u8> = if bytes_eq(e.rel.as_slice(), marker.as_slice()) {
            let source_doc: crate::doc::MarkdownDoc = crate::doc::parse_markdown(
                clone_of(&e.data),
            );
            let (fm, _warned): (Option<Vec<u8>>, bool) =
                crate::doc::select_frontmatter_for_target(
                &source_doc,
                match &existing_md_doc {
                    Some(d) => Some(d),
                    None => None,
                },
                true,
            );
            let merged: Vec<u8> = merge_frontmatter(
                match &fm {
                    Some(f) => Some(f),
                    None => None,
                },
                source_doc.body.as_slice(),
            );
            proof {
                assert(merged@ == crate::sync::spec_merged_raw(e.data@, tmd, true));
            }
            merged
        } else {
            clone_of(&e.data)
        };
        let dl: usize = data.len();
        proof {
            assert(data@.len() == dl);
        }
        files.push(TreeFile { rel: clone_of(&e.rel), data });
        i = i + 1;
    }
    proof {
        assert(tree_view(files@) =~= spec_skill_tree(source.entries@, tmd));
    }
    // capture the states around the replacement
    let ghost bv0 = blobs_view(store.blobs@);
    let before: EntityState = match existing {
        Some(t) => {
            let tree: Vec<TreeFile> = entries_to_tree(&t.entries);
            proof {
                assert(tree_view(tree@) =~= spec_entries_tree(t.entries@));
            }
            let enc: Vec<u8> = crate::codec::encode_dir_snapshot(&tree);
            let id = store.store_blob(enc.as_slice());
            EntityState { kind: EntityKind::Dir, blob: Some(id) }
        },
        None => EntityState::missing(),
    };
    proof {
        assert(before == (match existing {
            Some(t) => EntityState {
                kind: EntityKind::Dir,
                blob: Some(
                    crate::history::spec_store_id(
                        bv0,
                        crate::codec::spec_encode(spec_entries_tree(t.entries@)),
                    ),
                ),
            },
            None => EntityState { kind: EntityKind::Missing, blob: None },
        }));
        assert(blobs_view(store.blobs@) == (match existing {
            Some(t) => crate::history::spec_store_bv(
                bv0,
                crate::codec::spec_encode(spec_entries_tree(t.entries@)),
            ),
            None => bv0,
        }));
    }
    let after: EntityState = {
        proof {
            assert(records_wf(tree_view(files@))) by {
                assert forall|j: int| 0 <= j < tree_view(files@).len() implies (
                #[trigger] tree_view(files@)[j]).0.len() <= u32::MAX && tree_view(files@)[j].1.len()
                    <= u64::MAX by {
                    assert(tree_view(files@)[j].0 == files@[j].rel@);
                }
            }
        }
        let enc: Vec<u8> = crate::codec::encode_dir_snapshot(&files);
        let id = store.store_blob(enc.as_slice());
        EntityState { kind: EntityKind::Dir, blob: Some(id) }
    };
    proof {
        let bv1 = match existing {
            Some(t) => crate::history::spec_store_bv(
                bv0,
                crate::codec::spec_encode(spec_entries_tree(t.entries@)),
            ),
            None => bv0,
        };
        let tree = spec_skill_tree(source.entries@, tmd);
        assert(after == EntityState {
            kind: EntityKind::Dir,
            blob: Some(crate::history::spec_store_id(bv1, crate::codec::spec_encode(tree))),
        });
        assert(blobs_view(store.blobs@) == crate::history::spec_store_bv(
            bv1,
            crate::codec::spec_encode(tree),
        ));
    }
    let ghost w0 = writes_view(rec.writes@);
    rec.record_change(crate::text::clone_of_slice(target_path), before, after);
    proof {
        assert(w0 =~= writes_view(old(rec).writes@));
        if before == after {
            assert(writes_view(rec.writes@) == writes_view(old(rec).writes@));
        } else {
            assert(writes_view(rec.writes@) == writes_view(old(rec).writes@).push(
                (target_path@, before, after),
            ));
        }
    }
    let ghost a0 = actions_view(actions@);
    let ghost fl = tree_view(files@);
    actions.push(
        WriteAction::ReplaceDir { path: crate::text::clone_of_slice(target_path), files },
    );
    proof {
        assert(actions_view(actions@) =~= a0.push(
            (true, target_path@, Seq::<u8>::empty(), fl),
        ));
        assert(a0 =~= actions_view(old(actions)@));
        assert(actions_view(actions@).last().3.len() == source.entries@.len());
    }
    true
}

/// The first entry with this relative path.
pub fn find_skill_entry(entries: &Vec<SkillEntry>, rel: &[u8]) -> (r: Option<usize>)
    ensures
        match r {
            Some(i) => 0 <= i < entries@.len() && spec_find_rel(entries@, rel@) == i,
            None => spec_find_rel(entries@, rel@) < 0,
        },
{
    let mut i: usize = 0;
    while i < entries.len()
        invariant
            i <= entries@.len(),
            forall|j: int| 0 <= j < i ==> (#[trigger] entries@[j]).rel@ != rel@,
        decreases entries@.len() - i,
    {
        if bytes_eq(entries[i].rel.as_slice(), rel) {
            proof {
                lemma_find_rel_char(entries@, rel@, i as int);
            }
            return Some(i);
        }
        i = i + 1;
    }
    proof {
        lemma_find_rel_none(entries@, rel@);
    }
    None
}

/// A position carrying the path with a clean prefix is the found one.
proof fn lemma_find_rel_char(es: Seq<SkillEntry>, rel: Seq<u8>, i: int)
    requires
        0 <= i < es.len(),
        es[i].rel@ == rel,
        forall|j: int| 0 <= j < i ==> (#[trigger] es[j]).rel@ != rel,
    ensures
        spec_find_rel(es, rel) == i,
    decreases es.len(),
{
    if i > 0 {
        assert(es.drop_first()[i - 1] == es[i]);
        assert(forall|j: int| 0 <= j < i - 1 ==> (#[trigger] es.drop_first()[j]) == es[j + 1]);
        lemma_find_rel_char(es.drop_first(), rel, i - 1);
    }
}

proof fn lemma_find_rel_none(es: Seq<SkillEntry>, rel: Seq<u8>)
    requires
        forall|j: int| 0 <= j < es.len() ==> (#[trigger] es[j]).rel@ != rel,
    ensures
        spec_find_rel(es, rel) < 0,
    decreases es.len(),
{
    if es.len() > 0 {
        assert(forall|j: int|
            0 <= j < es.drop_first().len() ==> (#[trigger] es.drop_first()[j]) == es[j + 1]);
        lemma_find_rel_none(es.drop_first(), rel);
    }
}

/// A skill directory's files without their times.
pub fn entries_to_tree(entries: &Vec<SkillEntry>) -> (r: Vec<TreeFile>)
    requires
        skill_rec_wf(entries@),
    ensures
        records_wf(tree_view(r@)),
        r@.len() == entries@.len(),
        forall|i: int|
            0 <= i < r@.len() ==> (#[trigger] r@[i]).rel@ == entries@[i].rel@ && r@[i].data@
                == entries@[i].data@,
{
    let mut out: Vec<TreeFile> = Vec::new();
    let mut i: usize = 0;
    while i < entries.len()
        invariant
            i <= entries@.len(),
            skill_rec_wf(entries@),
            out@.len() == i,
            forall|j: int|
                0 <= j < i ==> (#[trigger] out@[j]).rel@ == entries@[j].rel@ && out@[j].data@
                    == entries@[j].data@,
        decreases entries@.len() - i,
    {
        out.push(TreeFile { rel: clone_of(&entries[i].rel), data: clone_of(&entries[i].data) });
        i = i + 1;
    }
    proof {
        assert forall|j: int| 0 <= j < tree_view(out@).len() implies (
        #[trigger] tree_view(out@)[j]).0.len() <= u32::MAX && tree_view(out@)[j].1.len()
            <= u64::MAX by {
            assert(tree_view(out@)[j].0 == out@[j].rel@);
            assert(out@[j].rel@ == entries@[j].rel@);
        }
    }
    out
}


/// Whether near-simultaneous differing variants deserve a warning.
fn skill_conflict(variants: &Vec<SkillVariant>) -> (r: bool)
{
    if variants.len() < 2 {
        return false;
    }
    let mut differ: bool = false;
    let mut mn: u128 = u128::MAX;
    let mut mx: u128 = 0;
    let mut v: usize = 0;
    while v < variants.len()
        invariant
            v <= variants@.len(),
            variants@.len() >= 1,
        decreases variants@.len() - v,
    {
        if variants[v].digest != variants[0].digest {
            differ = true;
        }
        if variants[v].mtime < mn {
            mn = variants[v].mtime;
        }
        if variants[v].mtime > mx {
            mx = variants[v].mtime;
        }
        v = v + 1;
    }
    differ && mx >= mn && mx - mn <= crate::sync::CONFLICT_WINDOW_NS
}

/// The action one target is owed, phrased over its own record.
pub open spec fn step_action(
    existing: Option<&SkillRecord>,
    dir: Seq<u8>,
    name: Seq<u8>,
    wdigest: u64,
    wentries: Seq<SkillEntry>,
) -> Option<(bool, Seq<u8>, Seq<u8>, Seq<(Seq<u8>, Seq<u8>)>)> {
    let exd: Option<u64> = match existing {
        Some(t) => Some(spec_skill_digest(t.entries@)),
        None => None,
    };
    if exd == Some(wdigest) {
        None
    } else {
        let tmd: Option<Seq<u8>> = match existing {
            Some(t) => spec_skill_md_raw(t.entries@),
            None => None,
        };
        Some(
            (
                true,
                crate::text::joined_path(dir, name),
                Seq::<u8>::empty(),
                spec_skill_tree(wentries, tmd),
            ),
        )
    }
}

/// Bring one skill target of one name up to date; the owed action is
/// appended (in an applying pass) exactly when the target's digest
/// differs from the winner's.
#[verifier::rlimit(100)]
#[verifier::spinoff_prover]
fn skill_target_step(
    source: &SkillRecord,
    source_digest: u64,
    existing: Option<&SkillRecord>,
    dir: &Vec<u8>,
    name: &Vec<u8>,
    enabled: bool,
    mode: ExecutionMode,
    store: &mut HistoryStore,
    rec: &mut HistoryRecorder,
    actions: &mut Vec<WriteAction>,
) -> (updated: bool)
    requires
        old(store).wf(),
        skill_rec_wf(source.entries@),
        source_digest == spec_skill_digest(source.entries@),
        match existing {
            Some(t) => skill_rec_wf(t.entries@),
            None => true,
        },
    ensures
        final(store).wf(),
        final(store).root@ == old(store).root@,
        events_view(final(store).events@) == events_view(old(store).events@),
        final(rec).id == old(rec).id,
        final(rec).origin@ == old(rec).origin@,
        final(rec).timestamp_ms == old(rec).timestamp_ms,
        writes_view(final(rec).writes@).len() >= writes_view(old(rec).writes@).len(),
        updated == (enabled && step_action(existing, dir@, name@, source_digest, source.entries@)
            is Some),
        mode == ExecutionMode::Apply ==> actions_view(final(actions)@) == actions_view(
            old(actions)@,
        ) + crate::sync::opt_action(
            enabled,
            step_action(existing, dir@, name@, source_digest, source.entries@),
        ),
        !updated || mode == ExecutionMode::Plan ==> {
            &&& blobs_view(final(store).blobs@) == blobs_view(old(store).blobs@)
            &&& writes_view(final(rec).writes@) == writes_view(old(rec).writes@)
            &&& actions_view(final(actions)@) == actions_view(old(actions)@)
        },
{
    if !enabled {
        proof {
            assert(blobs_view(store.blobs@) =~= blobs_view(old(store).blobs@));
            assert(writes_view(rec.writes@) =~= writes_view(old(rec).writes@));
            assert(actions_view(actions@) =~= actions_view(old(actions)@));
            assert(events_view(store.events@) =~= events_view(old(store).events@));
        }
        return false;
    }
    let existing_digest: Option<u64> = match existing {
        Some(t) => {
            let (h, _m) = digest_skill_dir(&t.entries);
            Some(h)
        },
        None => None,
    };
    let target_path: Vec<u8> = path_join(dir.as_slice(), name.as_slice());
    let updated: bool = sync_skill_target(
        source,
        source_digest,
        existing,
        existing_digest,
        target_path.as_slice(),
        mode,
        store,
        rec,
        actions,
    );
    proof {
        if mode == ExecutionMode::Apply {
            match step_action(existing, dir@, name@, source_digest, source.entries@) {
                Some(a) => {
                    assert(actions_view(actions@) =~= actions_view(old(actions)@) + seq![a]);
                },
                None => {
                    assert(actions_view(actions@) =~= actions_view(old(actions)@)
                        + crate::sync::opt_action(
                        enabled,
                        step_action(existing, dir@, name@, source_digest, source.entries@),
                    ));
                },
            }
        }
    }
    updated
}

/// Gather the variants one name offers, in the pass's fixed order.
#[verifier::rlimit(100)]
#[verifier::spinoff_prover]
fn build_skill_variants(
    cfg: &Config,
    listing: &SkillsListing,
    name: &Vec<u8>,
    central_idx: Option<usize>,
    helm_idx: Option<usize>,
    opencode_idx: Option<usize>,
    codex_idx: Option<usize>,
) -> (r: Vec<SkillVariant>)
    requires
        match central_idx {
            Some(i) => i < listing.central@.len() && spec_find_skill(listing.central@, name@)
                == i,
            None => spec_find_skill(listing.central@, name@) < 0 || !true,
        },
        central_idx is Some <==> spec_find_skill(listing.central@, name@) >= 0,
        helm_idx is Some <==> skills_helm_on(cfg, listing) && spec_find_skill(
            listing.helm.skills@,
            name@,
        ) >= 0,
        match helm_idx {
            Some(i) => i < listing.helm.skills@.len() && spec_find_skill(
                listing.helm.skills@,
                name@,
            ) == i,
            None => true,
        },
        opencode_idx is Some <==> skills_opencode_on(cfg, listing) && spec_find_skill(
            listing.opencode.skills@,
            name@,
        ) >= 0,
        match opencode_idx {
            Some(i) => i < listing.opencode.skills@.len() && spec_find_skill(
                listing.opencode.skills@,
                name@,
            ) == i,
            None => true,
        },
        codex_idx is Some <==> skills_codex_on(cfg, listing) && spec_find_skill(
            listing.codex.skills@,
            name@,
        ) >= 0,
        match codex_idx {
            Some(i) => i < listing.codex.skills@.len() && spec_find_skill(
                listing.codex.skills@,
                name@,
            ) == i,
            None => true,
        },
    ensures
        Seq::new(r@.len(), |i: int| ((#[trigger] r@[i]).tool, r@[i].digest, r@[i].mtime))
            == skills_variants(cfg, listing, name@),
{
    let mut variants: Vec<SkillVariant> = Vec::new();
    match central_idx {
        Some(ci) => {
            let (h, m) = digest_skill_dir(&listing.central[ci].entries);
            variants.push(SkillVariant { tool: Tool::Central, digest: h, mtime: m });
        },
        None => {},
    }
    match helm_idx {
        Some(ci) => {
            let (h, m) = digest_skill_dir(&listing.helm.skills[ci].entries);
            variants.push(SkillVariant { tool: Tool::Helm, digest: h, mtime: m });
        },
        None => {},
    }
    match opencode_idx {
        Some(ci) => {
            let (h, m) = digest_skill_dir(&listing.opencode.skills[ci].entries);
            variants.push(SkillVariant { tool: Tool::Opencode, digest: h, mtime: m });
        },
        None => {},
    }
    match codex_idx {
        Some(ci) => {
            let (h, m) = digest_skill_dir(&listing.codex.skills[ci].entries);
            variants.push(SkillVariant { tool: Tool::Codex, digest: h, mtime: m });
        },
        None => {},
    }
    proof {
        assert(Seq::new(
            variants@.len(),
            |i: int| ((#[trigger] variants@[i]).tool, variants@[i].digest, variants@[i].mtime),
        ) =~= skills_variants(cfg, listing, name@));
    }
    variants
}


/// One target step with its owed action phrased against the listing.
#[verifier::rlimit(100)]
#[verifier::spinoff_prover]
fn skill_step_at(
    source: &SkillRecord,
    wdigest: u64,
    existing: Option<&SkillRecord>,
    dir: &Vec<u8>,
    name: &Vec<u8>,
    enabled: bool,
    Ghost(ss): Ghost<Seq<SkillRecord>>,
    mode: ExecutionMode,
    store: &mut HistoryStore,
    rec: &mut HistoryRecorder,
    actions: &mut Vec<WriteAction>,
) -> (updated: bool)
    requires
        old(store).wf(),
        skill_rec_wf(source.entries@),
        wdigest == spec_skill_digest(source.entries@),
        match existing {
            Some(t) => skill_rec_wf(t.entries@),
            None => true,
        },
        enabled ==> (existing is Some <==> spec_find_skill(ss, name@) >= 0),
        enabled ==> match existing {
            Some(t) => spec_find_skill(ss, name@) < ss.len() && *t == ss[spec_find_skill(
                ss,
                name@,
            )],
            None => true,
        },
    ensures
        final(store).wf(),
        final(store).root@ == old(store).root@,
        events_view(final(store).events@) == events_view(old(store).events@),
        final(rec).id == old(rec).id,
        final(rec).origin@ == old(rec).origin@,
        final(rec).timestamp_ms == old(rec).timestamp_ms,
        writes_view(final(rec).writes@).len() >= writes_view(old(rec).writes@).len(),
        updated == (enabled && skills_target_action(ss, dir@, name@, wdigest, source.entries@)
            is Some),
        mode == ExecutionMode::Apply ==> actions_view(final(actions)@) == actions_view(
            old(actions)@,
        ) + crate::sync::opt_action(
            enabled,
            skills_target_action(ss, dir@, name@, wdigest, source.entries@),
        ),
        !updated || mode == ExecutionMode::Plan ==> {
            &&& blobs_view(final(store).blobs@) == blobs_view(old(store).blobs@)
            &&& writes_view(final(rec).writes@) == writes_view(old(rec).writes@)
            &&& actions_view(final(actions)@) == actions_view(old(actions)@)
        },
{
    let updated: bool = skill_target_step(
        source,
        wdigest,
        existing,
        dir,
        name,
        enabled,
        mode,
        store,
        rec,
        actions,
    );
    proof {
        if enabled {
            assert(step_action(existing, dir@, name@, wdigest, source.entries@)
                == skills_target_action(ss, dir@, name@, wdigest, source.entries@)) by {
                reveal(skills_target_action);
            }
        }
    }
    updated
}



/// Which segment of the variant list each tool can appear in, and what
/// digest it carries there.
#[verifier::rlimit(100)]
proof fn lemma_skill_segments(cfg: &Config, listing: &SkillsListing, name: Seq<u8>)
    ensures
        forall|j: int|
            #![trigger skills_variants(cfg, listing, name)[j]]
            0 <= j < skills_variants(cfg, listing, name).len() ==> {
                let sv = skills_variants(cfg, listing, name);
                &&& (sv[j].0 == Tool::Central ==> spec_find_skill(listing.central@, name) >= 0
                    && sv[j].1 == spec_skill_digest(skills_rec(listing.central@, name)))
                &&& (sv[j].0 == Tool::Helm ==> skills_helm_on(cfg, listing) && spec_find_skill(
                    listing.helm.skills@,
                    name,
                ) >= 0 && sv[j].1 == spec_skill_digest(skills_rec(listing.helm.skills@, name)))
                &&& (sv[j].0 == Tool::Opencode ==> skills_opencode_on(cfg, listing)
                    && spec_find_skill(listing.opencode.skills@, name) >= 0 && sv[j].1
                    == spec_skill_digest(skills_rec(listing.opencode.skills@, name)))
                &&& (sv[j].0 == Tool::Codex ==> skills_codex_on(cfg, listing) && spec_find_skill(
                    listing.codex.skills@,
                    name,
                ) >= 0 && sv[j].1 == spec_skill_digest(skills_rec(listing.codex.skills@, name)))
            },
{
    let sv = skills_variants(cfg, listing, name);
    let l1: int = if spec_find_skill(listing.central@, name) >= 0 {
        1
    } else {
        0
    };
    let l2: int = if skills_helm_on(cfg, listing) && spec_find_skill(
        listing.helm.skills@,
        name,
    ) >= 0 {
        1
    } else {
        0
    };
    let l3: int = if skills_opencode_on(cfg, listing) && spec_find_skill(
        listing.opencode.skills@,
        name,
    ) >= 0 {
        1
    } else {
        0
    };
    assert forall|j: int| #![trigger sv[j]] 0 <= j < sv.len() implies {
        &&& (sv[j].0 == Tool::Central ==> spec_find_skill(listing.central@, name) >= 0 && sv[j].1
            == spec_skill_digest(skills_rec(listing.central@, name)))
        &&& (sv[j].0 == Tool::Helm ==> skills_helm_on(cfg, listing) && spec_find_skill(
            listing.helm.skills@,
            name,
        ) >= 0 && sv[j].1 == spec_skill_digest(skills_rec(listing.helm.skills@, name)))
        &&& (sv[j].0 == Tool::Opencode ==> skills_opencode_on(cfg, listing) && spec_find_skill(
            listing.opencode.skills@,
            name,
        ) >= 0 && sv[j].1 == spec_skill_digest(skills_rec(listing.opencode.skills@, name)))
        &&& (sv[j].0 == Tool::Codex ==> skills_codex_on(cfg, listing) && spec_find_skill(
            listing.codex.skills@,
            name,
        ) >= 0 && sv[j].1 == spec_skill_digest(skills_rec(listing.codex.skills@, name)))
    } by {
        if j < l1 {
            assert(sv[j].0 == Tool::Central);
        } else if j < l1 + l2 {
            assert(sv[j].0 == Tool::Helm);
        } else if j < l1 + l2 + l3 {
            assert(sv[j].0 == Tool::Opencode);
        } else {
            assert(sv[j].0 == Tool::Codex);
        }
    }
}

/// Pick out the winning variant's record from the listing.
#[verifier::rlimit(100)]
fn winner_source<'a>(
    cfg: &Config,
    listing: &'a SkillsListing,
    name: &Vec<u8>,
    variants: &Vec<SkillVariant>,
    wi: usize,
    central_idx: Option<usize>,
    helm_idx: Option<usize>,
    opencode_idx: Option<usize>,
    codex_idx: Option<usize>,
) -> (source: &'a SkillRecord)
    requires
        skills_listing_wf(listing),
        wi < variants@.len(),
        Seq::new(
            variants@.len(),
            |i: int| ((#[trigger] variants@[i]).tool, variants@[i].digest, variants@[i].mtime),
        ) == skills_variants(cfg, listing, name@),
        central_idx is Some <==> spec_find_skill(listing.central@, name@) >= 0,
        match central_idx {
            Some(i) => i < listing.central@.len() && spec_find_skill(listing.central@, name@)
                == i,
            None => true,
        },
        helm_idx is Some <==> skills_helm_on(cfg, listing) && spec_find_skill(
            listing.helm.skills@,
            name@,
        ) >= 0,
        match helm_idx {
            Some(i) => i < listing.helm.skills@.len() && spec_find_skill(
                listing.helm.skills@,
                name@,
            ) == i,
            None => true,
        },
        opencode_idx is Some <==> skills_opencode_on(cfg, listing) && spec_find_skill(
            listing.opencode.skills@,
            name@,
        ) >= 0,
        match opencode_idx {
            Some(i) => i < listing.opencode.skills@.len() && spec_find_skill(
                listing.opencode.skills@,
                name@,
            ) == i,
            None => true,
        },
        codex_idx is Some <==> skills_codex_on(cfg, listing) && spec_find_skill(
            listing.codex.skills@,
            name@,
        ) >= 0,
        match codex_idx {
            Some(i) => i < listing.codex.skills@.len() && spec_find_skill(
                listing.codex.skills@,
                name@,
            ) == i,
            None => true,
        },
    ensures
        skill_rec_wf(source.entries@),
        source.entries@ == skills_winner_rec(
            cfg,
            listing,
            name@,
            skills_variants(cfg, listing, name@)[wi as int].0,
        ),
        variants@[wi as int].digest == spec_skill_digest(source.entries@),
        variants@[wi as int].digest == skills_variants(cfg, listing, name@)[wi as int].1,
{
    let ghost sv = skills_variants(cfg, listing, name@);
    proof {
        lemma_skill_segments(cfg, listing, name@);
        assert(sv[wi as int].0 == variants@[wi as int].tool);
        assert(sv[wi as int].1 == variants@[wi as int].digest);
    }
    let source: &SkillRecord = match (variants[wi].tool, central_idx, helm_idx, opencode_idx,
        codex_idx) {
        (Tool::Central, Some(ci), _, _, _) => &listing.central[ci],
        (Tool::Helm, _, Some(ci), _, _) => &listing.helm.skills[ci],
        (Tool::Opencode, _, _, Some(ci), _) => &listing.opencode.skills[ci],
        (Tool::Codex, _, _, _, Some(ci)) => &listing.codex.skills[ci],
        _ => {
            proof {
                assert(false);
            }
            &listing.central[0]
        },
    };
    proof {
        assert(source.entries@ == skills_winner_rec(cfg, listing, name@, sv[wi as int].0));
        assert(spec_skill_digest(source.entries@) == variants@[wi as int].digest);
    }
    source
}

/// Run two consecutive skill targets and account for their actions.
#[verifier::rlimit(100)]
#[verifier::spinoff_prover]
fn run_two_targets(
    source: &SkillRecord,
    wdigest: u64,
    ex_a: Option<&SkillRecord>,
    dir_a: &Vec<u8>,
    enabled_a: bool,
    Ghost(ss_a): Ghost<Seq<SkillRecord>>,
    ex_b: Option<&SkillRecord>,
    dir_b: &Vec<u8>,
    enabled_b: bool,
    Ghost(ss_b): Ghost<Seq<SkillRecord>>,
    name: &Vec<u8>,
    mode: ExecutionMode,
    store: &mut HistoryStore,
    rec: &mut HistoryRecorder,
    actions: &mut Vec<WriteAction>,
) -> (count: usize)
    requires
        old(store).wf(),
        skill_rec_wf(source.entries@),
        wdigest == spec_skill_digest(source.entries@),
        match ex_a {
            Some(t) => skill_rec_wf(t.entries@),
            None => true,
        },
        match ex_b {
            Some(t) => skill_rec_wf(t.entries@),
            None => true,
        },
        enabled_a ==> (ex_a is Some <==> spec_find_skill(ss_a, name@) >= 0),
        enabled_a ==> match ex_a {
            Some(t) => spec_find_skill(ss_a, name@) < ss_a.len() && *t == ss_a[spec_find_skill(
                ss_a,
                name@,
            )],
            None => true,
        },
        enabled_b ==> (ex_b is Some <==> spec_find_skill(ss_b, name@) >= 0),
        enabled_b ==> match ex_b {
            Some(t) => spec_find_skill(ss_b, name@) < ss_b.len() && *t == ss_b[spec_find_skill(
                ss_b,
                name@,
            )],
            None => true,
        },
    ensures
        final(store).wf(),
        final(store).root@ == old(store).root@,
        events_view(final(store).events@) == events_view(old(store).events@),
        final(rec).id == old(rec).id,
        final(rec).origin@ == old(rec).origin@,
        final(rec).timestamp_ms == old(rec).timestamp_ms,
        writes_view(final(rec).writes@).len() >= writes_view(old(rec).writes@).len(),
        count == (crate::sync::opt_action(
            enabled_a,
            skills_target_action(ss_a, dir_a@, name@, wdigest, source.entries@),
        ) + crate::sync::opt_action(
            enabled_b,
            skills_target_action(ss_b, dir_b@, name@, wdigest, source.entries@),
        )).len(),
        mode == ExecutionMode::Apply ==> actions_view(final(actions)@) == actions_view(
            old(actions)@,
        ) + crate::sync::opt_action(
            enabled_a,
            skills_target_action(ss_a, dir_a@, name@, wdigest, source.entries@),
        ) + crate::sync::opt_action(
            enabled_b,
            skills_target_action(ss_b, dir_b@, name@, wdigest, source.entries@),
        ),
        mode == ExecutionMode::Plan || count == 0 ==> {
            &&& blobs_view(final(store).blobs@) == blobs_view(old(store).blobs@)
            &&& writes_view(final(rec).writes@) == writes_view(old(rec).writes@)
            &&& actions_view(final(actions)@) == actions_view(old(actions)@)
        },
        count <= 2,
{
    let ghost a0 = actions_view(actions@);
    let mut count: usize = 0;
    let step = skill_step_at(
        source,
        wdigest,
        ex_a,
        dir_a,
        name,
        enabled_a,
        Ghost(ss_a),
        mode,
        store,
        rec,
        actions,
    );
    if step {
        count = count + 1;
    }
    let step = skill_step_at(
        source,
        wdigest,
        ex_b,
        dir_b,
        name,
        enabled_b,
        Ghost(ss_b),
        mode,
        store,
        rec,
        actions,
    );
    if step {
        count = count + 1;
    }
    proof {
        let oa = crate::sync::opt_action(
            enabled_a,
            skills_target_action(ss_a, dir_a@, name@, wdigest, source.entries@),
        );
        let ob = crate::sync::opt_action(
            enabled_b,
            skills_target_action(ss_b, dir_b@, name@, wdigest, source.entries@),
        );
        assert(count == (oa + ob).len());
        if mode == ExecutionMode::Apply {
            assert(actions_view(actions@) =~= a0 + oa + ob);
        }
    }
    count
}

/// Unfold the owed-action list for a name into its four target parts.
proof fn lemma_skills_actions_unfold(
    cfg: &Config,
    listing: &SkillsListing,
    name: Seq<u8>,
    wi: int,
    wdigest: u64,
    wentries: Seq<SkillEntry>,
)
    requires
        0 <= wi < skills_variants(cfg, listing, name).len(),
        wdigest == skills_variants(cfg, listing, name)[wi].1,
        wentries == skills_winner_rec(cfg, listing, name, skills_variants(cfg, listing, name)[wi].0),
    ensures
        spec_skills_actions(cfg, listing, name, wi) == crate::sync::opt_action(
            true,
            skills_target_action(listing.central@, cfg.central_skills_dir@, name, wdigest, wentries),
        ) + crate::sync::opt_action(
            skills_helm_on(cfg, listing),
            skills_target_action(
                listing.helm.skills@,
                cfg.helm_skills_dir@,
                name,
                wdigest,
                wentries,
            ),
        ) + crate::sync::opt_action(
            skills_opencode_on(cfg, listing),
            skills_target_action(
                listing.opencode.skills@,
                cfg.opencode_skills_dir@,
                name,
                wdigest,
                wentries,
            ),
        ) + crate::sync::opt_action(
            skills_codex_on(cfg, listing),
            skills_target_action(
                listing.codex.skills@,
                cfg.codex_skills_dir@,
                name,
                wdigest,
                wentries,
            ),
        ),
{
    reveal(spec_skills_actions);
}

/// Bring the four targets of one name up to date for a chosen winner.
#[verifier::rlimit(100)]
#[verifier::spinoff_prover]
fn run_skill_targets(
    cfg: &Config,
    listing: &SkillsListing,
    name: &Vec<u8>,
    Ghost(wi): Ghost<int>,
    source: &SkillRecord,
    wdigest: u64,
    ex_central: Option<&SkillRecord>,
    ex_helm: Option<&SkillRecord>,
    ex_opencode: Option<&SkillRecord>,
    ex_codex: Option<&SkillRecord>,
    helm_on: bool,
    opencode_on: bool,
    codex_on: bool,
    mode: ExecutionMode,
    store: &mut HistoryStore,
    rec: &mut HistoryRecorder,
    actions: &mut Vec<WriteAction>,
) -> (count: usize)
    requires
        old(store).wf(),
        helm_on == skills_helm_on(cfg, listing),
        opencode_on == skills_opencode_on(cfg, listing),
        codex_on == skills_codex_on(cfg, listing),
        0 <= wi < skills_variants(cfg, listing, name@).len(),
        skill_rec_wf(source.entries@),
        source.entries@ == skills_winner_rec(
            cfg,
            listing,
            name@,
            skills_variants(cfg, listing, name@)[wi].0,
        ),
        wdigest == skills_variants(cfg, listing, name@)[wi].1,
        wdigest == spec_skill_digest(source.entries@),
        ex_central is Some <==> spec_find_skill(listing.central@, name@) >= 0,
        match ex_central {
            Some(t) => skill_rec_wf(t.entries@) && spec_find_skill(listing.central@, name@)
                < listing.central@.len() && *t == listing.central@[spec_find_skill(
                listing.central@,
                name@,
            )],
            None => true,
        },
        !helm_on ==> ex_helm is None,
        !opencode_on ==> ex_opencode is None,
        !codex_on ==> ex_codex is None,
        helm_on ==> (ex_helm is Some <==> spec_find_skill(listing.helm.skills@, name@) >= 0),
        helm_on ==> match ex_helm {
            Some(t) => skill_rec_wf(t.entries@) && spec_find_skill(listing.helm.skills@, name@)
                < listing.helm.skills@.len() && *t == listing.helm.skills@[spec_find_skill(
                listing.helm.skills@,
                name@,
            )],
            None => true,
        },
        opencode_on ==> (ex_opencode is Some <==> spec_find_skill(listing.opencode.skills@, name@)
            >= 0),
        opencode_on ==> match ex_opencode {
            Some(t) => skill_rec_wf(t.entries@) && spec_find_skill(listing.opencode.skills@, name@)
                < listing.opencode.skills@.len() && *t == listing.opencode.skills@[spec_find_skill(
                listing.opencode.skills@,
                name@,
            )],
            None => true,
        },
        codex_on ==> (ex_codex is Some <==> spec_find_skill(listing.codex.skills@, name@) >= 0),
        codex_on ==> match ex_codex {
            Some(t) => skill_rec_wf(t.entries@) && spec_find_skill(listing.codex.skills@, name@)
                < listing.codex.skills@.len() && *t == listing.codex.skills@[spec_find_skill(
                listing.codex.skills@,
                name@,
            )],
            None => true,
        },
    ensures
        final(store).wf(),
        final(store).root@ == old(store).root@,
        events_view(final(store).events@) == events_view(old(store).events@),
        final(rec).id == old(rec).id,
        final(rec).origin@ == old(rec).origin@,
        final(rec).timestamp_ms == old(rec).timestamp_ms,
        writes_view(final(rec).writes@).len() >= writes_view(old(rec).writes@).len(),
        count == (crate::sync::opt_action(
            true,
            skills_target_action(
                listing.central@,
                cfg.central_skills_dir@,
                name@,
                wdigest,
                source.entries@,
            ),
        ) + crate::sync::opt_action(
            skills_helm_on(cfg, listing),
            skills_target_action(
                listing.helm.skills@,
                cfg.helm_skills_dir@,
                name@,
                wdigest,
                source.entries@,
            ),
        )).len() + (crate::sync::opt_action(
            skills_opencode_on(cfg, listing),
            skills_target_action(
                listing.opencode.skills@,
                cfg.opencode_skills_dir@,
                name@,
                wdigest,
                source.entries@,
            ),
        ) + crate::sync::opt_action(
            skills_codex_on(cfg, listing),
            skills_target_action(
                listing.codex.skills@,
                cfg.codex_skills_dir@,
                name@,
                wdigest,
                source.entries@,
            ),
        )).len(),
        mode == ExecutionMode::Apply ==> actions_view(final(actions)@) == actions_view(
            old(actions)@,
        ) + (crate::sync::opt_action(
            true,
            skills_target_action(
                listing.central@,
                cfg.central_skills_dir@,
                name@,
                wdigest,
                source.entries@,
            ),
        ) + crate::sync::opt_action(
            skills_helm_on(cfg, listing),
            skills_target_action(
                listing.helm.skills@,
                cfg.helm_skills_dir@,
                name@,
                wdigest,
                source.entries@,
            ),
        )) + (crate::sync::opt_action(
            skills_opencode_on(cfg, listing),
            skills_target_action(
                listing.opencode.skills@,
                cfg.opencode_skills_dir@,
                name@,
                wdigest,
                source.entries@,
            ),
        ) + crate::sync::opt_action(
            skills_codex_on(cfg, listing),
            skills_target_action(
                listing.codex.skills@,
                cfg.codex_skills_dir@,
                name@,
                wdigest,
                source.entries@,
            ),
        )),
        mode == ExecutionMode::Plan || count == 0 ==> {
            &&& blobs_view(final(store).blobs@) == blobs_view(old(store).blobs@)
            &&& writes_view(final(rec).writes@) == writes_view(old(rec).writes@)
            &&& actions_view(final(actions)@) == actions_view(old(actions)@)
        },
        count <= 4,
{
    let ghost a0 = actions_view(actions@);
    let c1: usize = run_two_targets(
        source,
        wdigest,
        ex_central,
        &cfg.central_skills_dir,
        true,
        Ghost(listing.central@),
        ex_helm,
        &cfg.helm_skills_dir,
        helm_on,
        Ghost(listing.helm.skills@),
        name,
        mode,
        store,
        rec,
        actions,
    );
    let c2: usize = run_two_targets(
        source,
        wdigest,
        ex_opencode,
        &cfg.opencode_skills_dir,
        opencode_on,
        Ghost(listing.opencode.skills@),
        ex_codex,
        &cfg.codex_skills_dir,
        codex_on,
        Ghost(listing.codex.skills@),
        name,
        mode,
        store,
        rec,
        actions,
    );
    let count: usize = c1 + c2;
    proof {
        assert(writes_view(rec.writes@).len() >= writes_view(old(rec).writes@).len());
        let o1 = crate::sync::opt_action(
            true,
            skills_target_action(
                listing.central@,
                cfg.central_skills_dir@,
                name@,
                wdigest,
                source.entries@,
            ),
        );
        let o2 = crate::sync::opt_action(
            skills_helm_on(cfg, listing),
            skills_target_action(
                listing.helm.skills@,
                cfg.helm_skills_dir@,
                name@,
                wdigest,
                source.entries@,
            ),
        );
        let o3 = crate::sync::opt_action(
            skills_opencode_on(cfg, listing),
            skills_target_action(
                listing.opencode.skills@,
                cfg.opencode_skills_dir@,
                name@,
                wdigest,
                source.entries@,
            ),
        );
        let o4 = crate::sync::opt_action(
            skills_codex_on(cfg, listing),
            skills_target_action(
                listing.codex.skills@,
                cfg.codex_skills_dir@,
                name@,
                wdigest,
                source.entries@,
            ),
        );
        assert(count == (o1 + o2).len() + (o3 + o4).len());
        if mode == ExecutionMode::Apply {
            assert(actions_view(actions@) == (a0 + (o1 + o2)) + (o3 + o4));
        }
    }
    count
}

/// Run one name of the skills pass: gather its variants, pick the winner,
/// and bring every participating target up to date.  The appended actions
/// are exactly the owed ones, in the pass's fixed target order.
#[verifier::rlimit(100)]
#[verifier::spinoff_prover]
fn sync_one_skill_name(
    cfg: &Config,
    listing: &SkillsListing,
    name: &Vec<u8>,
    helm_on: bool,
    opencode_on: bool,
    codex_on: bool,
    mode: ExecutionMode,
    store: &mut HistoryStore,
    rec: &mut HistoryRecorder,
    actions: &mut Vec<WriteAction>,
) -> (r: (usize, bool))
    requires
        old(store).wf(),
        skills_listing_wf(listing),
        helm_on == skills_helm_on(cfg, listing),
        opencode_on == skills_opencode_on(cfg, listing),
        codex_on == skills_codex_on(cfg, listing),
    ensures
        final(store).wf(),
        final(store).root@ == old(store).root@,
        events_view(final(store).events@) == events_view(old(store).events@),
        final(rec).id == old(rec).id,
        final(rec).origin@ == old(rec).origin@,
        final(rec).timestamp_ms == old(rec).timestamp_ms,
        writes_view(final(rec).writes@).len() >= writes_view(old(rec).writes@).len(),
        mode == ExecutionMode::Plan || r.0 == 0 ==> {
            &&& blobs_view(final(store).blobs@) == blobs_view(old(store).blobs@)
            &&& writes_view(final(rec).writes@) == writes_view(old(rec).writes@)
            &&& actions_view(final(actions)@) == actions_view(old(actions)@)
        },
        !skills_observed(cfg, listing, name@) ==> r.0 == 0,
        skills_observed(cfg, listing, name@) ==> exists|wi: int|
            #[trigger] svwinner_at(skills_variants(cfg, listing, name@), wi) && r.0
                == spec_skills_actions(cfg, listing, name@, wi).len() && (mode
                == ExecutionMode::Apply ==> actions_view(final(actions)@) == actions_view(
                old(actions)@,
            ) + spec_skills_actions(cfg, listing, name@, wi)),
        r.0 <= 4,
{
    let ghost sv = skills_variants(cfg, listing, name@);
    let central_idx: Option<usize> = find_skill(&listing.central, name.as_slice());
    let helm_idx: Option<usize> = if helm_on {
        find_skill(&listing.helm.skills, name.as_slice())
    } else {
        None
    };
    let opencode_idx: Option<usize> = if opencode_on {
        find_skill(&listing.opencode.skills, name.as_slice())
    } else {
        None
    };
    let codex_idx: Option<usize> = if codex_on {
        find_skill(&listing.codex.skills, name.as_slice())
    } else {
        None
    };
    let variants: Vec<SkillVariant> = build_skill_variants(
        cfg,
        listing,
        name,
        central_idx,
        helm_idx,
        opencode_idx,
        codex_idx,
    );
    if variants.len() == 0 {
        proof {
            assert(blobs_view(store.blobs@) =~= blobs_view(old(store).blobs@));
            assert(writes_view(rec.writes@) =~= writes_view(old(rec).writes@));
            assert(actions_view(actions@) =~= actions_view(old(actions)@));
            assert(events_view(store.events@) =~= events_view(old(store).events@));
            assert(!skills_observed(cfg, listing, name@)) by {
                if skills_observed(cfg, listing, name@) {
                    assert(skills_variants(cfg, listing, name@).len() >= 1);
                }
            }
        }
        return (0, false);
    }
    proof {
        assert(skills_observed(cfg, listing, name@)) by {
            if !skills_observed(cfg, listing, name@) {
                assert(skills_variants(cfg, listing, name@).len() == 0);
            }
        }
    }
    let wi: usize = select_skill_winner(&variants);
    proof {
        assert(svwinner_at(sv, wi as int)) by {
            assert(forall|j: int|
                0 <= j < sv.len() ==> (#[trigger] sv[j]).2 == variants@[j].mtime && sv[j].0
                    == variants@[j].tool);
        }
    }
    let warned: bool = skill_conflict(&variants);
    let source: &SkillRecord = winner_source(
        cfg,
        listing,
        name,
        &variants,
        wi,
        central_idx,
        helm_idx,
        opencode_idx,
        codex_idx,
    );
    let wdigest: u64 = variants[wi].digest;
    let ex_central: Option<&SkillRecord> = match central_idx {
        Some(ci) => Some(&listing.central[ci]),
        None => None,
    };
    let ex_helm: Option<&SkillRecord> = match helm_idx {
        Some(ci) => Some(&listing.helm.skills[ci]),
        None => None,
    };
    let ex_opencode: Option<&SkillRecord> = match opencode_idx {
        Some(ci) => Some(&listing.opencode.skills[ci]),
        None => None,
    };
    let ex_codex: Option<&SkillRecord> = match codex_idx {
        Some(ci) => Some(&listing.codex.skills[ci]),
        None => None,
    };
    let ghost a0 = actions_view(actions@);
    let count: usize = run_skill_targets(
        cfg,
        listing,
        name,
        Ghost(wi as int),
        source,
        wdigest,
        ex_central,
        ex_helm,
        ex_opencode,
        ex_codex,
        helm_on,
        opencode_on,
        codex_on,
        mode,
        store,
        rec,
        actions,
    );
    proof {
        let o1 = crate::sync::opt_action(
            true,
            skills_target_action(
                listing.central@,
                cfg.central_skills_dir@,
                name@,
                wdigest,
                source.entries@,
            ),
        );
        let o2 = crate::sync::opt_action(
            skills_helm_on(cfg, listing),
            skills_target_action(
                listing.helm.skills@,
                cfg.helm_skills_dir@,
                name@,
                wdigest,
                source.entries@,
            ),
        );
        let o3 = crate::sync::opt_action(
            skills_opencode_on(cfg, listing),
            skills_target_action(
                listing.opencode.skills@,
                cfg.opencode_skills_dir@,
                name@,
                wdigest,
                source.entries@,
            ),
        );
        let o4 = crate::sync::opt_action(
            skills_codex_on(cfg, listing),
            skills_target_action(
                listing.codex.skills@,
                cfg.codex_skills_dir@,
                name@,
                wdigest,
                source.entries@,
            ),
        );
        lemma_skills_actions_unfold(cfg, listing, name@, wi as int, wdigest, source.entries@);
        vstd::seq_lib::lemma_concat_associative(o1, o2, o3 + o4);
        vstd::seq_lib::lemma_concat_associative(o1 + o2, o3, o4);
        assert(spec_skills_actions(cfg, listing, name@, wi as int) == (o1 + o2) + (o3 + o4));
        assert(count == spec_skills_actions(cfg, listing, name@, wi as int).len());
        if mode == ExecutionMode::Apply {
            vstd::seq_lib::lemma_concat_associative(a0, o1 + o2, o3 + o4);
            assert(actions_view(actions@) == a0 + spec_skills_actions(
                cfg,
                listing,
                name@,
                wi as int,
            ));
        }
    }
    (count, warned)
}

/// Append every record's name to the running list.
fn append_names(names: &mut Vec<Vec<u8>>, recs: &Vec<SkillRecord>)
    ensures
        final(names)@.len() == old(names)@.len() + recs@.len(),
        forall|a: int| 0 <= a < old(names)@.len() ==> final(names)@[a] == old(names)@[a],
        forall|a: int|
            old(names)@.len() <= a < final(names)@.len() ==> (#[trigger] final(names)@[a])@
                == recs@[a - old(names)@.len()].name@,
{
    let mut i: usize = 0;
    while i < recs.len()
        invariant
            i <= recs@.len(),
            names@.len() == old(names)@.len() + i,
            forall|a: int| 0 <= a < old(names)@.len() ==> names@[a] == old(names)@[a],
            forall|a: int|
                old(names)@.len() <= a < names@.len() ==> (#[trigger] names@[a])@ == recs@[a
                    - old(names)@.len()].name@,
        decreases recs@.len() - i,
    {
        names.push(clone_of(&recs[i].name));
        i = i + 1;
    }
}

/// Add a step's count to the running total, exactly when applying.
pub(crate) fn bump_by_exact(c: usize, d: usize, mode: ExecutionMode, bound: Ghost<int>) -> (r: usize)
    requires
        mode == ExecutionMode::Apply ==> c + d <= bound@ && bound@ <= usize::MAX,
        d <= 4,
    ensures
        mode == ExecutionMode::Apply ==> r == c + d,
        d == 0 ==> r == c,
        r == 0 ==> c == 0 && d == 0,
{
    if c <= usize::MAX - d {
        c + d
    } else {
        c
    }
}

/// Synchronize the skill directories of every enabled tool and the central
/// directory, name by name.
pub fn sync_skills_with_mode(
    cfg: &Config,
    listing: &SkillsListing,
    mode: ExecutionMode,
    store: &mut HistoryStore,
    rec: &mut HistoryRecorder,
    actions: &mut Vec<WriteAction>,
) -> (r: (SyncStats, usize))
    requires
        old(store).wf(),
        skills_listing_wf(listing),
    ensures
        final(store).wf(),
        final(store).root@ == old(store).root@,
        events_view(final(store).events@) == events_view(old(store).events@),
        final(rec).id == old(rec).id,
        final(rec).origin@ == old(rec).origin@,
        writes_view(final(rec).writes@).len() >= writes_view(old(rec).writes@).len(),
        mode == ExecutionMode::Plan ==> {
            &&& blobs_view(final(store).blobs@) == blobs_view(old(store).blobs@)
            &&& writes_view(final(rec).writes@) == writes_view(old(rec).writes@)
            &&& actions_view(final(actions)@) == actions_view(old(actions)@)
        },
        r.0.updated == 0 ==> {
            &&& blobs_view(final(store).blobs@) == blobs_view(old(store).blobs@)
            &&& writes_view(final(rec).writes@) == writes_view(old(rec).writes@)
            &&& actions_view(final(actions)@) == actions_view(old(actions)@)
        },
        mode == ExecutionMode::Apply ==> actions_view(final(actions)@).len() == actions_view(
            old(actions)@,
        ).len() + r.0.updated,
        forall|i: int|
            0 <= i < actions_view(old(actions)@).len() ==> #[trigger] actions_view(
                final(actions)@,
            )[i] == actions_view(old(actions)@)[i],
        exists|ns: Seq<Seq<u8>>|
            #[trigger] skills_names_ok(cfg, listing, ns) && (mode == ExecutionMode::Apply ==> {
                &&& r.0.updated == skills_pass_actions(cfg, listing, ns, ns.len() as int).len()
                &&& actions_view(final(actions)@) == actions_view(old(actions)@)
                    + skills_pass_actions(cfg, listing, ns, ns.len() as int)
            }),
{
    let helm_enabled: bool = cfg.tool_enabled(crate::config::tool_helm_id().as_slice())
        && listing.helm.present;
    let opencode_enabled: bool = cfg.tool_enabled(crate::config::tool_opencode_id().as_slice())
        && listing.opencode.present;
    let codex_enabled: bool = cfg.tool_enabled(crate::config::tool_codex_id().as_slice())
        && listing.codex.present;

    proof {
        assert(helm_enabled == skills_helm_on(cfg, listing));
        assert(opencode_enabled == skills_opencode_on(cfg, listing));
        assert(codex_enabled == skills_codex_on(cfg, listing));
    }
    let mut names: Vec<Vec<u8>> = Vec::new();
    if helm_enabled {
        append_names(&mut names, &listing.helm.skills);
    }
    let ghost g1 = names@;
    let ghost l1 = names@.len() as int;
    if opencode_enabled {
        append_names(&mut names, &listing.opencode.skills);
    }
    let ghost g2 = names@;
    let ghost l2 = names@.len() as int;
    if codex_enabled {
        append_names(&mut names, &listing.codex.skills);
    }
    let ghost g3 = names@;
    let ghost l3 = names@.len() as int;
    append_names(&mut names, &listing.central);
    proof {
        assert forall|a: int| 0 <= a < names@.len() implies skills_observed(
            cfg,
            listing,
            (#[trigger] names@[a])@,
        ) by {
            if a < l1 {
                assert((g1[a])@ == listing.helm.skills@[a].name@);
                assert(g2[a] == g1[a]);
                assert(g3[a] == g2[a]);
                assert(names@[a] == g3[a]);
                lemma_find_skill_some(listing.helm.skills@, (names@[a])@, a);
            } else if a < l2 {
                assert((g2[a])@ == listing.opencode.skills@[a - l1].name@);
                assert(g3[a] == g2[a]);
                assert(names@[a] == g3[a]);
                lemma_find_skill_some(listing.opencode.skills@, (names@[a])@, a - l1);
            } else if a < l3 {
                assert((g3[a])@ == listing.codex.skills@[a - l2].name@);
                assert(names@[a] == g3[a]);
                lemma_find_skill_some(listing.codex.skills@, (names@[a])@, a - l2);
            } else {
                assert((names@[a])@ == listing.central@[a - l3].name@);
                lemma_find_skill_some(listing.central@, (names@[a])@, a - l3);
            }
        }
        assert forall|nm: Seq<u8>| #[trigger] skills_observed(cfg, listing, nm)
            implies crate::config::list_has(names@, nm) by {
            if skills_helm_on(cfg, listing) && spec_find_skill(listing.helm.skills@, nm) >= 0 {
                let j = spec_find_skill(listing.helm.skills@, nm);
                lemma_find_skill_ok(listing.helm.skills@, nm);
                assert((g1[j])@ == nm);
                assert(g2[j] == g1[j]);
                assert(g3[j] == g2[j]);
                assert(names@[j] == g3[j]);
            } else if skills_opencode_on(cfg, listing) && spec_find_skill(
                listing.opencode.skills@,
                nm,
            ) >= 0 {
                let j = spec_find_skill(listing.opencode.skills@, nm);
                lemma_find_skill_ok(listing.opencode.skills@, nm);
                assert((g2[l1 + j])@ == nm);
                assert(g3[l1 + j] == g2[l1 + j]);
                assert(names@[l1 + j] == g3[l1 + j]);
            } else if skills_codex_on(cfg, listing) && spec_find_skill(
                listing.codex.skills@,
                nm,
            ) >= 0 {
                let j = spec_find_skill(listing.codex.skills@, nm);
                lemma_find_skill_ok(listing.codex.skills@, nm);
                assert((g3[l2 + j])@ == nm);
                assert(names@[l2 + j] == g3[l2 + j]);
            } else {
                let j = spec_find_skill(listing.central@, nm);
                lemma_find_skill_ok(listing.central@, nm);
                assert((names@[l3 + j])@ == nm);
            }
        }
    }
    let ghost names_all = names@;
    let names: Vec<Vec<u8>> = unique_sorted(names);
    let ghost ns = Seq::new(names@.len(), |k: int| (names@[k])@);
    proof {
        assert(skills_names_ok(cfg, listing, ns)) by {
            assert forall|a: int| 0 <= a < ns.len() implies skills_observed(
                cfg,
                listing,
                #[trigger] ns[a],
            ) by {
                assert(crate::config::list_has(names_all, (names@[a])@));
                let w = choose|w: int|
                    0 <= w < names_all.len() && (#[trigger] names_all[w])@ == (names@[a])@;
                assert(skills_observed(cfg, listing, (names_all[w])@));
            }
            assert forall|nm: Seq<u8>| #[trigger] skills_observed(cfg, listing, nm)
                implies exists|a: int| 0 <= a < ns.len() && ns[a] == nm by {
                assert(crate::config::list_has(names_all, nm));
                let k = choose|k: int|
                    0 <= k < names_all.len() && (#[trigger] names_all[k])@ == nm;
                assert(crate::config::list_has(names@, (names_all[k])@));
                let a = choose|a: int| 0 <= a < names@.len() && (#[trigger] names@[a])@ == nm;
                assert(ns[a] == nm);
            }
        }
    }

    let mut stats: SyncStats = SyncStats { updated: 0 };
    let mut warned: usize = 0;
    let mut n: usize = 0;
    while n < names.len()
        invariant
            n <= names@.len(),
            warned <= n,
            helm_enabled == skills_helm_on(cfg, listing),
            opencode_enabled == skills_opencode_on(cfg, listing),
            codex_enabled == skills_codex_on(cfg, listing),
            skills_names_ok(cfg, listing, ns),
            names@.len() == ns.len(),
            forall|k: int| 0 <= k < names@.len() ==> (#[trigger] names@[k])@ == ns[k],
            mode == ExecutionMode::Apply ==> stats.updated == skills_pass_actions(
                cfg,
                listing,
                ns,
                n as int,
            ).len(),
            mode == ExecutionMode::Apply ==> actions_view(actions@) == actions_view(
                old(actions)@,
            ) + skills_pass_actions(cfg, listing, ns, n as int),
            skills_listing_wf(listing),
            store.wf(),
            store.root@ == old(store).root@,
            events_view(store.events@) == events_view(old(store).events@),
            rec.id == old(rec).id,
            rec.origin@ == old(rec).origin@,
            rec.timestamp_ms == old(rec).timestamp_ms,
            writes_view(rec.writes@).len() >= writes_view(old(rec).writes@).len(),
            mode == ExecutionMode::Plan ==> {
                &&& blobs_view(store.blobs@) == blobs_view(old(store).blobs@)
                &&& writes_view(rec.writes@) == writes_view(old(rec).writes@)
                &&& actions_view(actions@) == actions_view(old(actions)@)
            },
            stats.updated == 0 ==> {
                &&& blobs_view(store.blobs@) == blobs_view(old(store).blobs@)
                &&& writes_view(rec.writes@) == writes_view(old(rec).writes@)
                &&& actions_view(actions@) == actions_view(old(actions)@)
            },
            mode == ExecutionMode::Apply ==> actions_view(actions@).len() == actions_view(
                old(actions)@,
            ).len() + stats.updated,
            forall|k: int|
                0 <= k < actions_view(old(actions)@).len() ==> #[trigger] actions_view(actions@)[k]
                    == actions_view(old(actions)@)[k],
        decreases names@.len() - n,
    {
        let name: &Vec<u8> = &names[n];
        let ghost a_pre = actions_view(actions@);
        let ghost u_pre = stats.updated;
        let (c, w): (usize, bool) = sync_one_skill_name(
            cfg,
            listing,
            name,
            helm_enabled,
            opencode_enabled,
            codex_enabled,
            mode,
            store,
            rec,
            actions,
        );
        proof {
            if mode == ExecutionMode::Apply {
                if c > 0 {
                    assert(skills_observed(cfg, listing, name@)) by {
                        if !skills_observed(cfg, listing, name@) {
                            assert(c == 0);
                        }
                    }
                    let wi = choose|wi: int|
                        #[trigger] svwinner_at(skills_variants(cfg, listing, name@), wi) && c
                            == spec_skills_actions(cfg, listing, name@, wi).len() && actions_view(
                            actions@,
                        ) == a_pre + spec_skills_actions(cfg, listing, name@, wi);
                    assert(actions_view(actions@) == a_pre + spec_skills_actions(
                        cfg,
                        listing,
                        name@,
                        wi,
                    ));
                } else {
                    assert(actions_view(actions@) =~= a_pre);
                }
                assert(actions_view(actions@).len() == a_pre.len() + c);
                assert(actions_view(actions@).len() == actions@.len());
                assert(forall|k: int|
                    0 <= k < a_pre.len() ==> #[trigger] actions_view(actions@)[k] == a_pre[k]);
                assert(actions_view(actions@).len() - actions_view(old(actions)@).len() == u_pre
                    + c);
            }
        }
        let _cap: usize = actions.len();
        proof {
            assert(actions_view(actions@).len() == actions@.len());
        }
        stats.updated = bump_by_exact(
            stats.updated,
            c,
            mode,
            Ghost(actions_view(actions@).len() - actions_view(old(actions)@).len()),
        );
        proof {
            if mode == ExecutionMode::Apply {
                let sv = skills_variants(cfg, listing, name@);
                assert(name@ == ns[n as int]);
                assert(skills_observed(cfg, listing, name@));
                let wi_n = choose|wi: int|
                    #[trigger] svwinner_at(skills_variants(cfg, listing, name@), wi) && c
                        == spec_skills_actions(cfg, listing, name@, wi).len() && (mode
                        == ExecutionMode::Apply ==> actions_view(actions@) == a_pre
                        + spec_skills_actions(cfg, listing, name@, wi));
                assert(svwinner_at(sv, skills_wi(cfg, listing, name@))) by {
                    assert(svwinner_at(sv, wi_n));
                }
                lemma_svwinner_unique(sv, wi_n, skills_wi(cfg, listing, name@));
                assert(skills_pass_actions(cfg, listing, ns, n + 1) == skills_pass_actions(
                    cfg,
                    listing,
                    ns,
                    n as int,
                ) + spec_skills_actions(cfg, listing, ns[n as int], skills_wi(
                    cfg,
                    listing,
                    ns[n as int],
                )));
                assert(actions_view(actions@) =~= actions_view(old(actions)@)
                    + skills_pass_actions(cfg, listing, ns, n + 1));
                assert(stats.updated == skills_pass_actions(cfg, listing, ns, n + 1).len());
            }
        }
        if w {
            warned = warned + 1;
        }
        n = n + 1;
    }
    proof {
        assert(skills_names_ok(cfg, listing, ns));
        assert(names@.len() == ns.len());
    }
    (stats, warned)
}

} // verus!
