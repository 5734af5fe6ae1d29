//! The shared machinery of the category synchronizers: variants, winner
//! selection, conflict detection, and the single-target update step that
//! routes every write through the history recorder.

pub mod agents;
pub mod commands;
pub mod rules;
pub mod skills;

use vstd::prelude::*;

verus! {

use vstd::string::StringSliceAdditionalSpecFns;
use crate::codec::TreeFile;
use crate::doc::{
    MarkdownDoc, existing_fm_view, spec_select_fm, spec_merge, select_frontmatter_for_target,
    merge_frontmatter, parse_markdown,
};
use crate::history::{
    HistoryStore, HistoryRecorder, EntityState, blobs_view, events_view, writes_view,
    blob_lookup,
};
use crate::text::{bytes_eq, clone_of, clone_of_slice};

/// How much of a pass is logged; the engine computes the same way either
/// way, and callers print from the returned actions.
#[derive(Debug, Clone, Copy, PartialEq, Eq, Structural)]
pub enum LogMode {
    Quiet,
    Actions,
}

/// Whether a pass writes, or only reports what it would write.
#[derive(Debug, Clone, Copy, PartialEq, Eq, Structural)]
pub enum ExecutionMode {
    Apply,
    Plan,
}

/// How many targets one category updated.
#[derive(Debug, Clone, Copy)]
pub struct SyncStats {
    pub updated: usize,
}

impl SyncStats {
    /// Nothing was updated.
    pub fn is_empty(&self) -> (r: bool)
        ensures
            r == (self.updated == 0),
    {
        self.updated == 0
    }
}

impl Default for SyncStats {
    /// Zero updates.
    fn default() -> (r: SyncStats)
        ensures
            r.updated == 0,
    {
        SyncStats { updated: 0 }
    }
}

/// The per-category counts of one pass.
#[derive(Debug, Clone, Copy)]
pub struct SyncReport {
    pub commands: SyncStats,
    pub skills: SyncStats,
    pub agents: SyncStats,
    pub rules: SyncStats,
}

impl SyncReport {
    /// No category updated anything.
    pub fn is_empty(&self) -> (r: bool)
        ensures
            r == (self.commands.updated == 0 && self.skills.updated == 0 && self.agents.updated
                == 0 && self.rules.updated == 0),
    {
        self.commands.updated == 0 && self.skills.updated == 0 && self.agents.updated == 0
            && self.rules.updated == 0
    }
}

impl Default for SyncReport {
    /// An empty report.
    fn default() -> (r: SyncReport)
        ensures
            r.commands.updated == 0,
            r.skills.updated == 0,
            r.agents.updated == 0,
            r.rules.updated == 0,
    {
        SyncReport {
            commands: SyncStats { updated: 0 },
            skills: SyncStats { updated: 0 },
            agents: SyncStats { updated: 0 },
            rules: SyncStats { updated: 0 },
        }
    }
}

/// One write the pass wants performed on disk.
pub enum WriteAction {
    /// Replace (or create) a file with these bytes.
    WriteFile { path: Vec<u8>, content: Vec<u8> },
    /// Replace (or create) a directory so it holds exactly these files.
    ReplaceDir { path: Vec<u8>, files: Vec<TreeFile> },
}

/// The view of one action.
pub open spec fn action_view(a: &WriteAction) -> (bool, Seq<u8>, Seq<u8>, Seq<(Seq<u8>, Seq<u8>)>) {
    match a {
        WriteAction::WriteFile { path, content } => (
            false,
            path@,
            content@,
            Seq::<(Seq<u8>, Seq<u8>)>::empty(),
        ),
        WriteAction::ReplaceDir { path, files } => (
            true,
            path@,
            Seq::<u8>::empty(),
            crate::codec::tree_view(files@),
        ),
    }
}

/// The views of an action list.
pub open spec fn actions_view(s: Seq<WriteAction>) -> Seq<
    (bool, Seq<u8>, Seq<u8>, Seq<(Seq<u8>, Seq<u8>)>),
> {
    Seq::new(s.len(), |i: int| action_view(&s[i]))
}

/// The fixed identities of the places a variant can come from.
#[derive(Debug, Clone, Copy, PartialEq, Eq, Structural)]
pub enum Tool {
    Central,
    Helm,
    Codex,
    Opencode,
}

/// The tie-break rank of a tool when modification times are equal.
pub open spec fn spec_tool_order(t: Tool) -> u8 {
    match t {
        Tool::Central => 0,
        Tool::Opencode => 1,
        Tool::Codex => 2,
        Tool::Helm => 3,
    }
}

/// The tie-break rank of a tool.
pub fn tool_order(t: Tool) -> (r: u8)
    ensures
        r == spec_tool_order(t),
{
    match t {
        Tool::Central => 0,
        Tool::Opencode => 1,
        Tool::Codex => 2,
        Tool::Helm => 3,
    }
}

/// One observed copy of a logical artifact.
pub struct MarkdownVariant {
    pub tool: Tool,
    pub path: Vec<u8>,
    pub doc: MarkdownDoc,
    pub mtime: u128,
}

/// Strict order on `(mtime, rank)` pairs: mtime first, rank as tie-break.
pub open spec fn key_lt(am: u128, ar: u8, bm: u128, br: u8) -> bool {
    am < bm || (am == bm && ar < br)
}

/// The selected winner: the last variant whose `(mtime, rank)` pair no
/// other variant exceeds.
pub open spec fn winner_at(vs: Seq<MarkdownVariant>, i: int) -> bool {
    &&& 0 <= i < vs.len()
    &&& forall|j: int|
        0 <= j < vs.len() ==> !key_lt(
            vs[i].mtime,
            spec_tool_order(vs[i].tool),
            (#[trigger] vs[j]).mtime,
            spec_tool_order(vs[j].tool),
        )
    &&& forall|j: int|
        i < j < vs.len() ==> key_lt(
            (#[trigger] vs[j]).mtime,
            spec_tool_order(vs[j].tool),
            vs[i].mtime,
            spec_tool_order(vs[i].tool),
        )
}

/// Pick the winner: greatest `(mtime, rank)`, the later variant on a full
/// tie.
pub fn select_markdown_winner(variants: &Vec<MarkdownVariant>) -> (r: usize)
    requires
        variants@.len() > 0,
    ensures
        winner_at(variants@, r as int),
{
    let mut best: usize = 0;
    let mut i: usize = 1;
    while i < variants.len()
        invariant
            variants@.len() > 0,
            best < i <= variants@.len(),
            forall|j: int|
                0 <= j < i ==> !key_lt(
                    variants@[best as int].mtime,
                    spec_tool_order(variants@[best as int].tool),
                    (#[trigger] variants@[j]).mtime,
                    spec_tool_order(variants@[j].tool),
                ),
            forall|j: int|
                best < j < i ==> key_lt(
                    (#[trigger] variants@[j]).mtime,
                    spec_tool_order(variants@[j].tool),
                    variants@[best as int].mtime,
                    spec_tool_order(variants@[best as int].tool),
                ),
        decreases variants@.len() - i,
    {
        let bm: u128 = variants[best].mtime;
        let br: u8 = tool_order(variants[best].tool);
        let cm: u128 = variants[i].mtime;
        let cr: u8 = tool_order(variants[i].tool);
        if !(cm < bm || (cm == bm && cr < br)) {
            best = i;
        }
        i = i + 1;
    }
    best
}

/// The conflict window: edits this close together in different tools with
/// different bodies draw a warning.
pub const CONFLICT_WINDOW_NS: u128 = 2_000_000_000;

/// The greatest modification time among the variants.
pub open spec fn max_mtime(vs: Seq<MarkdownVariant>) -> u128
    decreases vs.len(),
{
    if vs.len() == 0 {
        0
    } else {
        let r = max_mtime(vs.drop_last());
        if vs.last().mtime > r {
            vs.last().mtime
        } else {
            r
        }
    }
}

/// The least modification time among the variants.
pub open spec fn min_mtime(vs: Seq<MarkdownVariant>) -> u128
    decreases vs.len(),
{
    if vs.len() == 0 {
        u128::MAX
    } else {
        let r = min_mtime(vs.drop_last());
        if vs.last().mtime < r {
            vs.last().mtime
        } else {
            r
        }
    }
}

/// Two variants disagree about the body.
pub open spec fn bodies_differ(vs: Seq<MarkdownVariant>) -> bool {
    exists|i: int, j: int|
        0 <= i < vs.len() && 0 <= j < vs.len() && (#[trigger] vs[i]).doc.body_hash != (
        #[trigger] vs[j]).doc.body_hash
}

/// Whether a near-simultaneous multi-tool edit deserves a warning: at
/// least two variants, differing bodies, and all edits within the window.
pub fn should_warn_conflict(variants: &Vec<MarkdownVariant>) -> (r: bool)
    ensures
        r == (variants@.len() >= 2 && bodies_differ(variants@) && max_mtime(variants@) - min_mtime(
            variants@,
        ) <= CONFLICT_WINDOW_NS),
{
    if variants.len() < 2 {
        return false;
    }
    let mut mn: u128 = u128::MAX;
    let mut mx: u128 = 0;
    let mut differ: bool = false;
    let first_hash: u64 = variants[0].doc.body_hash;
    let mut i: usize = 0;
    proof {
        assert(variants@.take(0) =~= Seq::<MarkdownVariant>::empty());
    }
    while i < variants.len()
        invariant
            i <= variants@.len(),
            variants@.len() >= 2,
            first_hash == variants@[0].doc.body_hash,
            mn == min_mtime(variants@.take(i as int)),
            mx == max_mtime(variants@.take(i as int)),
            differ == exists|j: int|
                0 <= j < i && (#[trigger] variants@[j]).doc.body_hash != first_hash,
        decreases variants@.len() - i,
    {
        proof {
            assert(variants@.take(i + 1).drop_last() =~= variants@.take(i as int));
            assert(variants@.take(i + 1).last() == variants@[i as int]);
        }
        let m: u128 = variants[i].mtime;
        if m < mn {
            mn = m;
        }
        if m > mx {
            mx = m;
        }
        if variants[i].doc.body_hash != first_hash {
            differ = true;
        }
        i = i + 1;
    }
    proof {
        assert(variants@.take(variants@.len() as int) =~= variants@);
        if differ {
            let j = choose|j: int|
                0 <= j < variants@.len() && (#[trigger] variants@[j]).doc.body_hash != first_hash;
            assert(variants@[0].doc.body_hash != variants@[j].doc.body_hash);
        }
        if bodies_differ(variants@) && !differ {
            let (a, b) = choose|a: int, b: int|
                0 <= a < variants@.len() && 0 <= b < variants@.len() && (
                #[trigger] variants@[a]).doc.body_hash != (#[trigger] variants@[b]).doc.body_hash;
            assert(variants@[a].doc.body_hash == first_hash);
            assert(variants@[b].doc.body_hash == first_hash);
            assert(false);
        }
    }
    differ && mx - mn <= CONFLICT_WINDOW_NS
}

/// The exact bytes a target receives from a source under the frontmatter
/// policy.
pub open spec fn spec_merged(
    source: &MarkdownDoc,
    existing: Option<&MarkdownDoc>,
    preserve: bool,
) -> Seq<u8> {
    spec_merge(
        spec_select_fm(source.fm_view(), existing_fm_view(existing), preserve),
        source.body@,
    )
}

/// Bring one markdown target up to date with a source.  Nothing happens
/// when the target already holds exactly the merged bytes; a planning pass
/// changes nothing at all; an applying pass appends the write action and
/// records the change.
pub fn update_markdown_target(
    source: &MarkdownDoc,
    existing: Option<&MarkdownDoc>,
    target_path: &[u8],
    preserve_frontmatter: bool,
    mode: ExecutionMode,
    store: &mut HistoryStore,
    rec: &mut HistoryRecorder,
    actions: &mut Vec<WriteAction>,
) -> (updated: bool)
    requires
        old(store).wf(),
    ensures
        final(store).wf(),
        final(store).root@ == old(store).root@,
        events_view(final(store).events@) == events_view(old(store).events@),
        final(rec).id == old(rec).id,
        final(rec).origin@ == old(rec).origin@,
        final(rec).timestamp_ms == old(rec).timestamp_ms,
        updated == !(match existing {
            Some(d) => d.raw@ == spec_merged(source, existing, preserve_frontmatter),
            None => false,
        }),
        !updated || mode == ExecutionMode::Plan ==> {
            &&& blobs_view(final(store).blobs@) == blobs_view(old(store).blobs@)
            &&& writes_view(final(rec).writes@) == writes_view(old(rec).writes@)
            &&& actions_view(final(actions)@) == actions_view(old(actions)@)
        },
        updated && mode == ExecutionMode::Apply ==> {
            let merged = spec_merged(source, existing, preserve_frontmatter);
            let bv0 = blobs_view(old(store).blobs@);
            let bv1 = match existing {
                Some(d) => crate::history::spec_store_bv(bv0, d.raw@),
                None => bv0,
            };
            let before = match existing {
                Some(d) => EntityState {
                    kind: crate::history::EntityKind::File,
                    blob: Some(crate::history::spec_store_id(bv0, d.raw@)),
                },
                None => EntityState { kind: crate::history::EntityKind::Missing, blob: None },
            };
            let after = EntityState {
                kind: crate::history::EntityKind::File,
                blob: Some(crate::history::spec_store_id(bv1, merged)),
            };
            &&& actions_view(final(actions)@) == actions_view(old(actions)@).push(
                (false, target_path@, merged, Seq::<(Seq<u8>, Seq<u8>)>::empty()),
            )
            &&& blobs_view(final(store).blobs@) == crate::history::spec_store_bv(bv1, merged)
            &&& writes_view(final(rec).writes@) == writes_view(old(rec).writes@).push(
                (target_path@, before, after),
            )
        },
{
    let (frontmatter, _warned): (Option<Vec<u8>>, bool) = select_frontmatter_for_target(
        source,
        existing,
        preserve_frontmatter,
    );
    let merged: Vec<u8> = merge_frontmatter(
        match &frontmatter {
            Some(f) => Some(f),
            None => None,
        },
        source.body.as_slice(),
    );
    proof {
        assert(merged@ == spec_merged(source, existing, preserve_frontmatter));
    }
    match existing {
        Some(existing_doc) => {
            if bytes_eq(existing_doc.raw.as_slice(), merged.as_slice()) {
                proof {
                    assert(blobs_view(store.blobs@) =~= blobs_view(old(store).blobs@));
                    assert(writes_view(rec.writes@) =~= writes_view(old(rec).writes@));
                    assert(actions_view(actions@) =~= actions_view(old(actions)@));
                    assert(events_view(store.events@) =~= events_view(old(store).events@));
                }
                return false;
            }
        },
        None => {},
    }
    match mode {
        ExecutionMode::Plan => {
            proof {
                assert(blobs_view(store.blobs@) =~= blobs_view(old(store).blobs@));
                assert(writes_view(rec.writes@) =~= writes_view(old(rec).writes@));
                assert(actions_view(actions@) =~= actions_view(old(actions)@));
                assert(events_view(store.events@) =~= events_view(old(store).events@));
            }
            return true;
        },
        ExecutionMode::Apply => {},
    }
    let before: EntityState = match existing {
        Some(existing_doc) => store.snapshot_file_bytes(existing_doc.raw.as_slice()),
        None => EntityState::missing(),
    };
    let ghost bv1 = blobs_view(store.blobs@);
    let after: EntityState = store.snapshot_file_bytes(merged.as_slice());
    proof {
        match existing {
            Some(existing_doc) => {
                let b1 = before.blob.unwrap();
                let b2 = after.blob.unwrap();
                assert(blob_lookup(bv1, b1) == Some(existing_doc.raw@));
                crate::history::lemma_store_preserves(bv1, merged@, b1);
                // distinct payloads live under distinct addresses
                if b1 == b2 {
                    assert(blob_lookup(blobs_view(store.blobs@), b1) == Some(existing_doc.raw@));
                    assert(blob_lookup(blobs_view(store.blobs@), b2) == Some(merged@));
                    assert(false);
                }
            },
            None => {},
        }
        assert(before != after);
    }
    let ghost rec0 = writes_view(rec.writes@);
    rec.record_change(clone_of_slice(target_path), before, after);
    let ghost a0 = actions_view(actions@);
    actions.push(WriteAction::WriteFile { path: clone_of_slice(target_path), content: merged });
    proof {
        assert(actions_view(actions@) =~= a0.push(
            (
                false,
                target_path@,
                spec_merged(source, existing, preserve_frontmatter),
                Seq::<(Seq<u8>, Seq<u8>)>::empty(),
            ),
        ));
        assert(a0 =~= actions_view(old(actions)@));
    }
    true
}

/// Replace a file's raw bytes when they differ from the winner's, through
/// the same recording path.
pub fn write_raw_if_changed(
    target_path: &[u8],
    contents: &[u8],
    existing: Option<&Vec<u8>>,
    mode: ExecutionMode,
    store: &mut HistoryStore,
    rec: &mut HistoryRecorder,
    actions: &mut Vec<WriteAction>,
) -> (changed: bool)
    requires
        old(store).wf(),
    ensures
        final(store).wf(),
        final(store).root@ == old(store).root@,
        events_view(final(store).events@) == events_view(old(store).events@),
        final(rec).id == old(rec).id,
        final(rec).origin@ == old(rec).origin@,
        final(rec).timestamp_ms == old(rec).timestamp_ms,
        changed == !(match existing {
            Some(e) => e@ == contents@,
            None => false,
        }),
        !changed || mode == ExecutionMode::Plan ==> {
            &&& blobs_view(final(store).blobs@) == blobs_view(old(store).blobs@)
            &&& writes_view(final(rec).writes@) == writes_view(old(rec).writes@)
            &&& actions_view(final(actions)@) == actions_view(old(actions)@)
        },
        changed && mode == ExecutionMode::Apply ==> {
            let bv0 = blobs_view(old(store).blobs@);
            let bv1 = match existing {
                Some(e) => crate::history::spec_store_bv(bv0, e@),
                None => bv0,
            };
            let before = match existing {
                Some(e) => EntityState {
                    kind: crate::history::EntityKind::File,
                    blob: Some(crate::history::spec_store_id(bv0, e@)),
                },
                None => EntityState { kind: crate::history::EntityKind::Missing, blob: None },
            };
            let after = EntityState {
                kind: crate::history::EntityKind::File,
                blob: Some(crate::history::spec_store_id(bv1, contents@)),
            };
            &&& actions_view(final(actions)@) == actions_view(old(actions)@).push(
                (false, target_path@, contents@, Seq::<(Seq<u8>, Seq<u8>)>::empty()),
            )
            &&& blobs_view(final(store).blobs@) == crate::history::spec_store_bv(bv1, contents@)
            &&& writes_view(final(rec).writes@) == writes_view(old(rec).writes@).push(
                (target_path@, before, after),
            )
        },
{
    match existing {
        Some(e) => {
            if bytes_eq(e.as_slice(), contents) {
                proof {
                    assert(blobs_view(store.blobs@) =~= blobs_view(old(store).blobs@));
                    assert(writes_view(rec.writes@) =~= writes_view(old(rec).writes@));
                    assert(actions_view(actions@) =~= actions_view(old(actions)@));
                    assert(events_view(store.events@) =~= events_view(old(store).events@));
                }
                return false;
            }
        },
        None => {},
    }
    match mode {
        ExecutionMode::Plan => {
            proof {
                assert(blobs_view(store.blobs@) =~= blobs_view(old(store).blobs@));
                assert(writes_view(rec.writes@) =~= writes_view(old(rec).writes@));
                assert(actions_view(actions@) =~= actions_view(old(actions)@));
                assert(events_view(store.events@) =~= events_view(old(store).events@));
            }
            return true;
        },
        ExecutionMode::Apply => {},
    }
    let before: EntityState = match existing {
        Some(e) => store.snapshot_file_bytes(e.as_slice()),
        None => EntityState::missing(),
    };
    let ghost bv1 = blobs_view(store.blobs@);
    let after: EntityState = store.snapshot_file_bytes(contents);
    proof {
        match existing {
            Some(e) => {
                let b1 = before.blob.unwrap();
                let b2 = after.blob.unwrap();
                assert(blob_lookup(bv1, b1) == Some(e@));
                crate::history::lemma_store_preserves(bv1, contents@, b1);
                if b1 == b2 {
                    assert(blob_lookup(blobs_view(store.blobs@), b1) == Some(e@));
                    assert(blob_lookup(blobs_view(store.blobs@), b2) == Some(contents@));
                    assert(false);
                }
            },
            None => {},
        }
        assert(before != after);
    }
    rec.record_change(clone_of_slice(target_path), before, after);
    let ghost a0 = actions_view(actions@);
    actions.push(
        WriteAction::WriteFile {
            path: clone_of_slice(target_path),
            content: clone_of_slice(contents),
        },
    );
    proof {
        assert(actions_view(actions@) =~= a0.push(
            (false, target_path@, contents@, Seq::<(Seq<u8>, Seq<u8>)>::empty()),
        ));
        assert(a0 =~= actions_view(old(actions)@));
    }
    true
}


/// One file observed in a tool's directory.
pub struct FileRecord {
    pub name: Vec<u8>,
    pub content: Vec<u8>,
    pub mtime: u128,
}

/// A single observed file without a name of its own.
pub struct FileState {
    pub content: Vec<u8>,
    pub mtime: u128,
}

/// A tool directory as observed on disk: whether it exists at all, and the
/// visible files inside it.
pub struct DirListing {
    pub present: bool,
    pub files: Vec<FileRecord>,
}

/// Parse one listed file into a variant.
pub fn read_markdown_variant(tool: Tool, path: Vec<u8>, content: &Vec<u8>, mtime: u128) -> (r:
    MarkdownVariant)
    ensures
        r.tool == tool,
        r.path@ == path@,
        r.doc.wf(),
        r.doc.raw@ == content@,
        r.mtime == mtime,
{
    let doc: MarkdownDoc = parse_markdown(clone_of(content));
    MarkdownVariant { tool, path, doc, mtime }
}


/// Sort byte strings and drop duplicates; the result holds exactly the
/// distinct members of the input, in order.
pub fn unique_sorted(names: Vec<Vec<u8>>) -> (r: Vec<Vec<u8>>)
    ensures
        forall|i: int, j: int|
            0 <= i < j < r@.len() ==> crate::text::lex_le((#[trigger] r@[i])@, (#[trigger] r@[j])@),
        forall|i: int, j: int| 0 <= i < j < r@.len() ==> (#[trigger] r@[i])@ != (#[trigger] r@[j])@,
        forall|i: int|
            0 <= i < r@.len() ==> crate::config::list_has(names@, (#[trigger] r@[i])@),
        forall|k: int|
            0 <= k < names@.len() ==> crate::config::list_has(r@, (#[trigger] names@[k])@),
{
    let ghost names0 = Seq::new(names@.len(), |k: int| names@[k]@);
    let sorted: Vec<Vec<u8>> = crate::config::sort_names(names);
    let mut out: Vec<Vec<u8>> = Vec::new();
    let mut m: usize = 0;
    while m < sorted.len()
        invariant
            m <= sorted@.len(),
            forall|i2: int, j2: int|
                0 <= i2 < j2 < sorted@.len() ==> crate::text::lex_le(
                    (#[trigger] sorted@[i2])@,
                    (#[trigger] sorted@[j2])@,
                ),
            forall|i2: int, j2: int|
                0 <= i2 < j2 < out@.len() ==> crate::text::lex_le(
                    (#[trigger] out@[i2])@,
                    (#[trigger] out@[j2])@,
                ),
            forall|i2: int, j2: int|
                0 <= i2 < j2 < out@.len() ==> (#[trigger] out@[i2])@ != (#[trigger] out@[j2])@,
            forall|i2: int|
                0 <= i2 < out@.len() ==> exists|k: int|
                    0 <= k < sorted@.len() && (#[trigger] out@[i2])@ == (sorted@[k])@,
            forall|k: int| 0 <= k < m ==> crate::config::list_has(out@, (#[trigger] sorted@[k])@),
            m > 0 ==> out@.len() > 0 && (out@[out@.len() - 1])@ == (sorted@[m - 1])@,
            out@.len() > 0 ==> m > 0,
        decreases sorted@.len() - m,
    {
        let ghost out0 = out@;
        let take: bool = if out.len() == 0 {
            true
        } else {
            !bytes_eq(out[out.len() - 1].as_slice(), sorted[m].as_slice())
        };
        if take {
            proof {
                if out@.len() > 0 {
                    assert(crate::text::lex_le(out@[out@.len() - 1]@, sorted@[m as int]@));
                    assert forall|i2: int| 0 <= i2 < out@.len() implies crate::text::lex_le(
                        (#[trigger] out@[i2])@,
                        sorted@[m as int]@,
                    ) && (out@[i2])@ != sorted@[m as int]@ by {
                        if i2 < out@.len() - 1 {
                            crate::text::lemma_lex_le_trans(
                                out@[i2]@,
                                out@[out@.len() - 1]@,
                                sorted@[m as int]@,
                            );
                        }
                        if (out@[i2])@ == sorted@[m as int]@ {
                            crate::text::lemma_lex_le_total(out@[i2]@, out@[out@.len() - 1]@);
                            assert(out@[i2]@ == out@[out@.len() - 1]@);
                            assert(false);
                        }
                    }
                }
            }
            out.push(clone_of(&sorted[m]));
        }
        proof {
            assert forall|k: int| 0 <= k < m + 1 implies crate::config::list_has(
                out@,
                (#[trigger] sorted@[k])@,
            ) by {
                if k < m {
                    let ghost sk = sorted@[k];
                    let w = choose|w: int| 0 <= w < out0.len() && (#[trigger] out0[w])@ == sk@;
                    assert((out@[w])@ == sorted@[k]@);
                } else {
                    assert((out@[out@.len() - 1])@ == sorted@[m as int]@);
                }
            }
            assert forall|i2: int| 0 <= i2 < out@.len() implies exists|k: int|
                0 <= k < sorted@.len() && (#[trigger] out@[i2])@ == (sorted@[k])@ by {
                if i2 < out0.len() {
                    let k = choose|k: int|
                        0 <= k < sorted@.len() && (#[trigger] out0[i2])@ == (sorted@[k])@;
                    assert((out@[i2])@ == (sorted@[k])@);
                } else {
                    assert((out@[i2])@ == (sorted@[m as int])@);
                }
            }
        }
        m = m + 1;
    }
    proof {
        assert forall|i2: int| 0 <= i2 < out@.len() implies crate::config::list_has(
            names@,
            (#[trigger] out@[i2])@,
        ) by {
            let k0 = choose|k0: int|
                0 <= k0 < sorted@.len() && ((out@[i2])@ == (#[trigger] sorted@[k0])@);
            crate::config::lemma_names_multiset_membership(sorted@, names0, k0);
            let k1 = choose|k1: int|
                0 <= k1 < names0.len() && names0[k1] == (#[trigger] sorted@[k0])@;
            assert((names@[k1])@ == (out@[i2])@);
        }
        assert forall|k: int| 0 <= k < names@.len() implies crate::config::list_has(
            out@,
            (#[trigger] names@[k])@,
        ) by {
            crate::config::lemma_names_multiset_membership_rev(sorted@, names0, k);
            let k2 = choose|k2: int|
                0 <= k2 < sorted@.len() && (#[trigger] sorted@[k2])@ == names0[k];
            assert(crate::config::list_has(out@, sorted@[k2]@));
            assert(names0[k] == (names@[k])@);
        }
    }
    out
}


/// Everything one pass observes on disk.
pub struct SyncInput {
    pub commands: crate::sync::commands::CommandsListing,
    pub skills: crate::sync::skills::SkillsListing,
    pub agents: crate::sync::agents::AgentsListing,
    pub rules: crate::sync::rules::RulesListing,
}

/// What one pass decided: the per-category counts, the event the history
/// recorded (if anything changed), the writes to perform, and how many
/// conflict warnings were raised.
pub struct SyncOutcome {
    pub report: SyncReport,
    pub history_event_id: Option<crate::history::EventId>,
    pub actions: Vec<WriteAction>,
    pub warnings: usize,
}

/// Run all four category synchronizers over one observation of the disk,
/// batching every change into a single history event.  A planning pass
/// computes the same counts but records nothing and asks for no writes.
pub fn sync_all_with_mode(
    cfg: &crate::config::Config,
    input: &SyncInput,
    mode: ExecutionMode,
    origin: Vec<u8>,
    now_ms: u64,
    event_id: crate::history::EventId,
    store: &mut HistoryStore,
) -> (r: SyncOutcome)
    requires
        old(store).wf(),
        crate::sync::skills::skills_listing_wf(&input.skills),
    ensures
        final(store).wf(),
        final(store).root@ == old(store).root@,
        mode == ExecutionMode::Plan ==> {
            &&& blobs_view(final(store).blobs@) == blobs_view(old(store).blobs@)
            &&& events_view(final(store).events@) == events_view(old(store).events@)
            &&& r.history_event_id is None
            &&& r.actions@.len() == 0
        },
        mode == ExecutionMode::Apply ==> actions_view(r.actions@).len() == r.report.commands.updated
            + r.report.skills.updated + r.report.agents.updated + r.report.rules.updated,
        ({
            let codex_on = crate::config::list_has(cfg.enabled_tools@, crate::config::tool_codex())
                && input.rules.codex_parent_exists;
            r.report.rules.updated == crate::sync::rules::spec_rules_updated(
                codex_on,
                crate::sync::rules::file_view(&input.rules.codex_file),
                crate::sync::rules::file_view(&input.rules.central_file),
            )
        }),
        crate::sync::agents::agents_variants(cfg, &input.agents).len() == 0
            ==> r.report.agents.updated == 0,
        crate::sync::agents::agents_variants(cfg, &input.agents).len() > 0 ==> exists|wi: int|
            #[trigger] vwinner_at(crate::sync::agents::agents_variants(cfg, &input.agents), wi)
                && r.report.agents.updated == crate::sync::agents::spec_agents_actions(
                cfg,
                &input.agents,
                wi,
            ).len(),
        r.report.commands.updated == 0 && r.report.skills.updated == 0 && r.report.agents.updated
            == 0 && r.report.rules.updated == 0 ==> {
            &&& blobs_view(final(store).blobs@) == blobs_view(old(store).blobs@)
            &&& events_view(final(store).events@) == events_view(old(store).events@)
            &&& r.history_event_id is None
            &&& r.actions@.len() == 0
        },
        mode == ExecutionMode::Apply && r.report.commands.updated + r.report.agents.updated
            + r.report.rules.updated > 0 ==> r.history_event_id is Some,
        exists|ns: Seq<Seq<u8>>|
            #[trigger] crate::sync::commands::cmds_names_ok(cfg, &input.commands, ns) && (mode
                == ExecutionMode::Apply ==> r.report.commands.updated
                == crate::sync::commands::cmds_pass_actions(
                cfg,
                &input.commands,
                ns,
                ns.len() as int,
            ).len()),
        exists|ns: Seq<Seq<u8>>|
            #[trigger] crate::sync::skills::skills_names_ok(cfg, &input.skills, ns) && (mode
                == ExecutionMode::Apply ==> r.report.skills.updated
                == crate::sync::skills::skills_pass_actions(
                cfg,
                &input.skills,
                ns,
                ns.len() as int,
            ).len()),
        match r.history_event_id {
            Some(x) => {
                &&& x == event_id
                &&& events_view(final(store).events@).len() == events_view(
                    old(store).events@,
                ).len() + 1
                &&& events_view(final(store).events@).last().0 == event_id
                &&& events_view(final(store).events@).last().2 == origin@
                &&& forall|i: int|
                    0 <= i < events_view(old(store).events@).len() ==> #[trigger] events_view(
                        final(store).events@,
                    )[i] == events_view(old(store).events@)[i]
            },
            None => events_view(final(store).events@) == events_view(old(store).events@),
        },
{
    let mut actions: Vec<WriteAction> = Vec::new();
    let mut recorder: HistoryRecorder = HistoryRecorder::new(origin, now_ms, event_id);
    let mut warnings: usize = 0;
    proof {
        assert(actions_view(actions@) =~= Seq::<
            (bool, Seq<u8>, Seq<u8>, Seq<(Seq<u8>, Seq<u8>)>),
        >::empty());
    }
    let (commands, cw) = crate::sync::commands::sync_commands_with_mode(
        cfg,
        &input.commands,
        mode,
        store,
        &mut recorder,
        &mut actions,
    );
    let ghost w1 = writes_view(recorder.writes@).len();
    let (skills, sw) = crate::sync::skills::sync_skills_with_mode(
        cfg,
        &input.skills,
        mode,
        store,
        &mut recorder,
        &mut actions,
    );
    let ghost w2 = writes_view(recorder.writes@).len();
    let (agents, aw) = crate::sync::agents::sync_agents_with_mode(
        cfg,
        &input.agents,
        mode,
        store,
        &mut recorder,
        &mut actions,
    );
    let ghost w3 = writes_view(recorder.writes@).len();
    let (rules, rw) = crate::sync::rules::sync_rules_with_mode(
        cfg,
        &input.rules,
        mode,
        store,
        &mut recorder,
        &mut actions,
    );
    warnings = bump_by(warnings, cw);
    warnings = bump_by(warnings, sw);
    if aw {
        warnings = bump_by(warnings, 1);
    }
    if rw {
        warnings = bump_by(warnings, 1);
    }
    let report: SyncReport = SyncReport { commands, skills, agents, rules };
    proof {
        if mode == ExecutionMode::Plan {
            assert(writes_view(recorder.writes@).len() == 0);
            assert(recorder.writes@.len() == 0);
            assert(actions_view(actions@).len() == 0);
            assert(actions@.len() == 0);
        }
        if commands.updated == 0 && skills.updated == 0 && agents.updated == 0 && rules.updated
            == 0 {
            assert(writes_view(recorder.writes@).len() == 0);
            assert(recorder.writes@.len() == 0);
            assert(actions_view(actions@).len() == 0);
            assert(actions@.len() == 0);
        }
        if mode == ExecutionMode::Apply {
            assert(w1 == commands.updated);
            assert(w2 >= w1);
            assert(writes_view(recorder.writes@).len() == w3 + rules.updated);
            assert(w3 == w2 + agents.updated);
            if commands.updated + agents.updated + rules.updated > 0 {
                assert(writes_view(recorder.writes@).len() > 0);
                assert(recorder.writes@.len() > 0);
            }
        }
    }
    let history_event_id: Option<crate::history::EventId> = recorder.finish(store);
    SyncOutcome { report, history_event_id, actions, warnings }
}

/// Saturating addition for warning counts.
fn bump_by(c: usize, d: usize) -> (r: usize)
    ensures
        r >= c,
{
    if c <= usize::MAX - d {
        c + d
    } else {
        c
    }
}

/// Run one applying pass under the standard origin label.
pub fn sync_all(
    cfg: &crate::config::Config,
    input: &SyncInput,
    now_ms: u64,
    event_id: crate::history::EventId,
    store: &mut HistoryStore,
) -> (r: SyncReport)
    requires
        old(store).wf(),
        crate::sync::skills::skills_listing_wf(&input.skills),
    ensures
        final(store).wf(),
        final(store).root@ == old(store).root@,
        ({
            let codex_on = crate::config::list_has(cfg.enabled_tools@, crate::config::tool_codex())
                && input.rules.codex_parent_exists;
            r.rules.updated == crate::sync::rules::spec_rules_updated(
                codex_on,
                crate::sync::rules::file_view(&input.rules.codex_file),
                crate::sync::rules::file_view(&input.rules.central_file),
            )
        }),
        crate::sync::agents::agents_variants(cfg, &input.agents).len() == 0 ==> r.agents.updated
            == 0,
        crate::sync::agents::agents_variants(cfg, &input.agents).len() > 0 ==> exists|wi: int|
            #[trigger] vwinner_at(crate::sync::agents::agents_variants(cfg, &input.agents), wi)
                && r.agents.updated == crate::sync::agents::spec_agents_actions(
                cfg,
                &input.agents,
                wi,
            ).len(),
        r.commands.updated == 0 && r.skills.updated == 0 && r.agents.updated == 0
            && r.rules.updated == 0 ==> {
            &&& blobs_view(final(store).blobs@) == blobs_view(old(store).blobs@)
            &&& events_view(final(store).events@) == events_view(old(store).events@)
        },
        events_view(final(store).events@).len() <= events_view(old(store).events@).len() + 1,
        forall|i: int|
            0 <= i < events_view(old(store).events@).len() ==> #[trigger] events_view(
                final(store).events@,
            )[i] == events_view(old(store).events@)[i],
        events_view(final(store).events@).len() == events_view(old(store).events@).len() + 1
            ==> events_view(final(store).events@).last().2 == "sync".spec_bytes(),
        exists|ns: Seq<Seq<u8>>|
            #[trigger] crate::sync::commands::cmds_names_ok(cfg, &input.commands, ns)
                && r.commands.updated == crate::sync::commands::cmds_pass_actions(
                cfg,
                &input.commands,
                ns,
                ns.len() as int,
            ).len(),
        exists|ns: Seq<Seq<u8>>|
            #[trigger] crate::sync::skills::skills_names_ok(cfg, &input.skills, ns)
                && r.skills.updated == crate::sync::skills::skills_pass_actions(
                cfg,
                &input.skills,
                ns,
                ns.len() as int,
            ).len(),
        r.commands.updated + r.agents.updated + r.rules.updated > 0 ==> events_view(
            final(store).events@,
        ).len() == events_view(old(store).events@).len() + 1,
{
    let outcome: SyncOutcome = sync_all_with_mode(
        cfg,
        input,
        ExecutionMode::Apply,
        crate::text::lit("sync"),
        now_ms,
        event_id,
        store,
    );
    outcome.report
}


/// The `(mtime, rank)` keys of a variant list.
pub open spec fn variant_keys(vs: Seq<MarkdownVariant>) -> Seq<(u128, u8)> {
    Seq::new(vs.len(), |i: int| (vs[i].mtime, spec_tool_order(vs[i].tool)))
}

/// Winner determinism: selection is a pure function of the `(mtime, rank)`
/// pairs.  When the pairs are pairwise distinct, any two enumeration
/// orders of the same variants select the same pair, and with it the same
/// variant.
pub proof fn lemma_winner_determinism(
    vs1: Seq<MarkdownVariant>,
    vs2: Seq<MarkdownVariant>,
    i1: int,
    i2: int,
)
    requires
        variant_keys(vs1).to_multiset() == variant_keys(vs2).to_multiset(),
        forall|a: int, b: int|
            0 <= a < b < vs1.len() ==> #[trigger] variant_keys(vs1)[a] != #[trigger] variant_keys(
                vs1,
            )[b],
        winner_at(vs1, i1),
        winner_at(vs2, i2),
    ensures
        variant_keys(vs1)[i1] == variant_keys(vs2)[i2],
{
    broadcast use vstd::seq_lib::group_to_multiset_ensures;

    let k1 = variant_keys(vs1);
    let k2 = variant_keys(vs2);
    assert(k1[i1] == (vs1[i1].mtime, spec_tool_order(vs1[i1].tool)));
    assert(k2[i2] == (vs2[i2].mtime, spec_tool_order(vs2[i2].tool)));
    // each winner's key sits in the other list
    assert(k1.contains(k1[i1]));
    assert(k1.to_multiset().count(k1[i1]) > 0);
    assert(k2.to_multiset().count(k1[i1]) > 0);
    assert(k2.contains(k1[i1]));
    let j2 = choose|j: int| 0 <= j < k2.len() && k2[j] == k1[i1];
    assert(k2.contains(k2[i2]));
    assert(k2.to_multiset().count(k2[i2]) > 0);
    assert(k1.to_multiset().count(k2[i2]) > 0);
    assert(k1.contains(k2[i2]));
    let j1 = choose|j: int| 0 <= j < k1.len() && k1[j] == k2[i2];
    // neither key exceeds the other
    assert(!key_lt(vs2[i2].mtime, spec_tool_order(vs2[i2].tool), vs2[j2].mtime, spec_tool_order(
        vs2[j2].tool,
    )));
    assert(!key_lt(vs1[i1].mtime, spec_tool_order(vs1[i1].tool), vs1[j1].mtime, spec_tool_order(
        vs1[j1].tool,
    )));
    assert(k2[j2] == (vs2[j2].mtime, spec_tool_order(vs2[j2].tool)));
    assert(k1[j1] == (vs1[j1].mtime, spec_tool_order(vs1[j1].tool)));
    assert(k1[i1] == k2[i2]);
}


/// A view-level variant: its source, path, raw bytes and modification
/// time.
pub open spec fn variant_view(v: &MarkdownVariant) -> (Tool, Seq<u8>, Seq<u8>, u128) {
    (v.tool, v.path@, v.doc.raw@, v.mtime)
}

/// The views of a variant list.
pub open spec fn variants_view(vs: Seq<MarkdownVariant>) -> Seq<(Tool, Seq<u8>, Seq<u8>, u128)> {
    Seq::new(vs.len(), |i: int| variant_view(&vs[i]))
}

/// The selected winner over view-level variants: the last one whose
/// `(mtime, rank)` pair no other exceeds.
pub open spec fn vwinner_at(vs: Seq<(Tool, Seq<u8>, Seq<u8>, u128)>, i: int) -> bool {
    &&& 0 <= i < vs.len()
    &&& forall|j: int|
        0 <= j < vs.len() ==> !key_lt(
            vs[i].3,
            spec_tool_order(vs[i].0),
            (#[trigger] vs[j]).3,
            spec_tool_order(vs[j].0),
        )
    &&& forall|j: int|
        i < j < vs.len() ==> key_lt(
            (#[trigger] vs[j]).3,
            spec_tool_order(vs[j].0),
            vs[i].3,
            spec_tool_order(vs[i].0),
        )
}

/// The first view-level variant observed at a path, or a negative value.
pub open spec fn vfind_path(vs: Seq<(Tool, Seq<u8>, Seq<u8>, u128)>, path: Seq<u8>) -> int
    decreases vs.len(),
{
    if vs.len() == 0 {
        -1
    } else if vs.first().1 == path {
        0
    } else {
        let r = vfind_path(vs.drop_first(), path);
        if r < 0 {
            -1
        } else {
            r + 1
        }
    }
}

/// The bytes a target receives, computed from raw documents: the source is
/// split, the frontmatter policy applied against the target's split block,
/// and the source's body appended.
pub open spec fn spec_merged_raw(src_raw: Seq<u8>, ex_raw: Option<Seq<u8>>, preserve: bool) -> Seq<
    u8,
> {
    spec_merge(
        spec_select_fm(
            crate::doc::split_fm(src_raw),
            match ex_raw {
                Some(r) => Some(crate::doc::split_fm(r)),
                None => None,
            },
            preserve,
        ),
        crate::doc::split_body(src_raw),
    )
}

/// The action one markdown target is owed, given the variants and the
/// winner: nothing when the target already holds the merged bytes, else a
/// file write carrying exactly those bytes.
pub open spec fn spec_target_action(
    vs: Seq<(Tool, Seq<u8>, Seq<u8>, u128)>,
    wi: int,
    path: Seq<u8>,
) -> Option<(bool, Seq<u8>, Seq<u8>, Seq<(Seq<u8>, Seq<u8>)>)> {
    let ex = vfind_path(vs, path);
    let ex_raw: Option<Seq<u8>> = if ex >= 0 {
        Some(vs[ex].2)
    } else {
        None
    };
    let m = spec_merged_raw(vs[wi].2, ex_raw, true);
    if ex >= 0 && vs[ex].2 == m {
        None
    } else {
        Some((false, path, m, Seq::<(Seq<u8>, Seq<u8>)>::empty()))
    }
}

/// A singleton or nothing, as a sequence.
pub open spec fn opt_action(
    on: bool,
    a: Option<(bool, Seq<u8>, Seq<u8>, Seq<(Seq<u8>, Seq<u8>)>)>,
) -> Seq<(bool, Seq<u8>, Seq<u8>, Seq<(Seq<u8>, Seq<u8>)>)> {
    if on {
        match a {
            Some(a) => seq![a],
            None => Seq::<(bool, Seq<u8>, Seq<u8>, Seq<(Seq<u8>, Seq<u8>)>)>::empty(),
        }
    } else {
        Seq::<(bool, Seq<u8>, Seq<u8>, Seq<(Seq<u8>, Seq<u8>)>)>::empty()
    }
}

/// Bring one markdown target up to date against the chosen winner: the
/// owed action is appended (in an
/// applying pass) exactly when the target's bytes differ from the winner's
/// merged bytes.
#[verifier::rlimit(100)]
#[verifier::spinoff_prover]
pub(crate) fn sync_markdown_target_at(
    variants: &Vec<MarkdownVariant>,
    wi: usize,
    target_path: &[u8],
    mode: ExecutionMode,
    store: &mut HistoryStore,
    rec: &mut HistoryRecorder,
    actions: &mut Vec<WriteAction>,
) -> (updated: bool)
    requires
        old(store).wf(),
        wi < variants@.len(),
        forall|k: int| 0 <= k < variants@.len() ==> (#[trigger] variants@[k]).doc.wf(),
    ensures
        final(store).wf(),
        final(store).root@ == old(store).root@,
        events_view(final(store).events@) == events_view(old(store).events@),
        final(rec).id == old(rec).id,
        final(rec).origin@ == old(rec).origin@,
        final(rec).timestamp_ms == old(rec).timestamp_ms,
        mode == ExecutionMode::Plan ==> {
            &&& blobs_view(final(store).blobs@) == blobs_view(old(store).blobs@)
            &&& writes_view(final(rec).writes@) == writes_view(old(rec).writes@)
            &&& actions_view(final(actions)@) == actions_view(old(actions)@)
        },
        updated == (spec_target_action(variants_view(variants@), wi as int, target_path@) is Some),
        mode == ExecutionMode::Apply ==> actions_view(final(actions)@) == actions_view(
            old(actions)@,
        ) + opt_action(
            true,
            spec_target_action(variants_view(variants@), wi as int, target_path@),
        ),
        mode == ExecutionMode::Apply ==> writes_view(final(rec).writes@).len() == writes_view(
            old(rec).writes@,
        ).len() + opt_action(
            true,
            spec_target_action(variants_view(variants@), wi as int, target_path@),
        ).len(),
        !updated ==> {
            &&& blobs_view(final(store).blobs@) == blobs_view(old(store).blobs@)
            &&& writes_view(final(rec).writes@) == writes_view(old(rec).writes@)
            &&& actions_view(final(actions)@) == actions_view(old(actions)@)
        },
{
    let ghost av = variants_view(variants@);
    let ex: Option<usize> = find_variant_by_path(variants, target_path);
    proof {
        lemma_vfind_ok(av, target_path@);
        match ex {
            Some(i) => {
                assert(av[i as int].1 == target_path@);
                assert(vfind_path(av, target_path@) == i) by {
                    let vf = vfind_path(av, target_path@);
                    if vf < 0 {
                        assert(av[i as int].1 != target_path@);
                    } else {
                        if vf < i {
                            assert(variants@[vf].path@ != target_path@);
                            assert(av[vf].1 == target_path@);
                        }
                        if (i as int) < vf {
                            assert(av[i as int].1 != target_path@);
                        }
                    }
                }
            },
            None => {
                assert(vfind_path(av, target_path@) < 0) by {
                    let vf = vfind_path(av, target_path@);
                    if vf >= 0 {
                        assert(variants@[vf].path@ != target_path@);
                        assert(av[vf].1 == target_path@);
                    }
                }
            },
        }
    }
    let updated: bool = update_markdown_target(
        &variants[wi].doc,
        match ex {
            Some(j) => Some(&variants[j].doc),
            None => None,
        },
        target_path,
        true,
        mode,
        store,
        rec,
        actions,
    );
    proof {
        let ex_raw: Option<Seq<u8>> = match ex {
            Some(j) => Some(av[j as int].2),
            None => None,
        };
        // the document-level and raw-level merged bytes agree because every
        // variant's document is well formed
        assert(spec_merged(
            &variants@[wi as int].doc,
            match ex {
                Some(j) => Some(&variants@[j as int].doc),
                None => None,
            },
            true,
        ) == spec_merged_raw(av[wi as int].2, ex_raw, true));
        assert(updated == (spec_target_action(av, wi as int, target_path@) is Some));
        if mode == ExecutionMode::Apply {
            match spec_target_action(av, wi as int, target_path@) {
                Some(a) => {
                    assert(actions_view(actions@) =~= actions_view(old(actions)@) + seq![a]);
                },
                None => {
                    assert(actions_view(actions@) =~= actions_view(old(actions)@) + opt_action(
                        true,
                        spec_target_action(av, wi as int, target_path@),
                    ));
                },
            }
        }
    }
    updated
}

/// The first variant observed at exactly this path.
pub(crate) fn find_variant_by_path(variants: &Vec<MarkdownVariant>, path: &[u8]) -> (r: Option<usize>)
    ensures
        match r {
            Some(i) => 0 <= i < variants@.len() && variants@[i as int].path@ == path@ && forall|
                j: int,
            |
                0 <= j < i ==> (#[trigger] variants@[j]).path@ != path@,
            None => forall|j: int|
                0 <= j < variants@.len() ==> (#[trigger] variants@[j]).path@ != path@,
        },
{
    let mut i: usize = 0;
    while i < variants.len()
        invariant
            i <= variants@.len(),
            forall|j: int| 0 <= j < i ==> (#[trigger] variants@[j]).path@ != path@,
        decreases variants@.len() - i,
    {
        if bytes_eq(variants[i].path.as_slice(), path) {
            return Some(i);
        }
        i = i + 1;
    }
    None
}


/// Two view-level winner indices coincide.
pub proof fn lemma_vwinner_unique(vs: Seq<(Tool, Seq<u8>, Seq<u8>, u128)>, a: int, b: int)
    requires
        vwinner_at(vs, a),
        vwinner_at(vs, b),
    ensures
        a == b,
{
    if a < b {
        assert(key_lt(vs[b].3, spec_tool_order(vs[b].0), vs[a].3, spec_tool_order(vs[a].0)));
        assert(!key_lt(vs[b].3, spec_tool_order(vs[b].0), vs[a].3, spec_tool_order(vs[a].0)));
    }
    if b < a {
        assert(key_lt(vs[a].3, spec_tool_order(vs[a].0), vs[b].3, spec_tool_order(vs[b].0)));
        assert(!key_lt(vs[a].3, spec_tool_order(vs[a].0), vs[b].3, spec_tool_order(vs[b].0)));
    }
}

/// The found index really carries the path and nothing earlier does.
pub proof fn lemma_vfind_ok(vs: Seq<(Tool, Seq<u8>, Seq<u8>, u128)>, path: Seq<u8>)
    ensures
        vfind_path(vs, path) >= 0 ==> vfind_path(vs, path) < vs.len() && vs[vfind_path(
            vs,
            path,
        )].1 == path,
        vfind_path(vs, path) >= 0 ==> forall|j: int|
            0 <= j < vfind_path(vs, path) ==> (#[trigger] vs[j]).1 != path,
        vfind_path(vs, path) < 0 ==> forall|j: int| 0 <= j < vs.len() ==> (#[trigger] vs[j]).1 != path,
    decreases vs.len(),
{
    if vs.len() > 0 && vs.first().1 != path {
        lemma_vfind_ok(vs.drop_first(), path);
        assert(forall|j: int| 1 <= j < vs.len() ==> (#[trigger] vs[j]) == vs.drop_first()[j - 1]);
    }
}
} // verus!
