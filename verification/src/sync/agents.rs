//! The agents synchronizer: two known per-tool single files plus their
//! central copies, last-write-wins with per-tool frontmatter preserved.

use vstd::prelude::*;

verus! {

use vstd::string::StringSliceAdditionalSpecFns;
use crate::config::Config;
use crate::history::{HistoryStore, HistoryRecorder, blobs_view, events_view, writes_view};
use crate::sync::{
    SyncStats, ExecutionMode, MarkdownVariant, Tool, WriteAction, actions_view, variants_view,
    vwinner_at, vfind_path, spec_target_action, opt_action, lemma_vfind_ok,
    select_markdown_winner, should_warn_conflict, update_markdown_target, read_markdown_variant,
    sync_markdown_target_at, FileState,
};
use crate::text::{clone_of, lit, path_join, bytes_eq};

/// What the agents category sees on disk.
pub struct AgentsListing {
    /// The parent directory of the codex agents file exists.
    pub codex_parent_exists: bool,
    pub codex_file: Option<FileState>,
    /// The parent directory of the opencode agents file exists.
    pub opencode_parent_exists: bool,
    pub opencode_file: Option<FileState>,
    pub central_codex: Option<FileState>,
    pub central_opencode: Option<FileState>,
}

/// Whether the codex agents file takes part in the pass.
pub open spec fn agents_codex_on(cfg: &Config, listing: &AgentsListing) -> bool {
    crate::config::list_has(cfg.enabled_tools@, crate::config::tool_codex())
        && listing.codex_parent_exists
}

/// Whether the opencode agents file takes part in the pass.
pub open spec fn agents_opencode_on(cfg: &Config, listing: &AgentsListing) -> bool {
    crate::config::list_has(cfg.enabled_tools@, crate::config::tool_opencode())
        && listing.opencode_parent_exists
}

/// The central copy paths.
pub open spec fn agents_central_codex_path(cfg: &Config) -> Seq<u8> {
    crate::text::joined_path(cfg.central_agents_dir@, "codex/AGENTS.md".spec_bytes())
}

pub open spec fn agents_central_opencode_path(cfg: &Config) -> Seq<u8> {
    crate::text::joined_path(cfg.central_agents_dir@, "opencode/AGENTS.md".spec_bytes())
}

/// The variants an agents pass observes, in its fixed order: the enabled
/// tool files, then the central copies.
pub open spec fn agents_variants(cfg: &Config, listing: &AgentsListing) -> Seq<
    (Tool, Seq<u8>, Seq<u8>, u128),
> {
    let o1: Seq<(Tool, Seq<u8>, Seq<u8>, u128)> = match listing.codex_file {
        Some(ref f) if agents_codex_on(cfg, listing) => seq![
            (Tool::Codex, cfg.codex_agents_file@, f.content@, f.mtime),
        ],
        _ => Seq::<(Tool, Seq<u8>, Seq<u8>, u128)>::empty(),
    };
    let o2: Seq<(Tool, Seq<u8>, Seq<u8>, u128)> = match listing.opencode_file {
        Some(ref f) if agents_opencode_on(cfg, listing) => seq![
            (Tool::Opencode, cfg.opencode_agents_file@, f.content@, f.mtime),
        ],
        _ => Seq::<(Tool, Seq<u8>, Seq<u8>, u128)>::empty(),
    };
    let o3: Seq<(Tool, Seq<u8>, Seq<u8>, u128)> = match listing.central_codex {
        Some(ref f) => seq![
            (Tool::Central, agents_central_codex_path(cfg), f.content@, f.mtime),
        ],
        _ => Seq::<(Tool, Seq<u8>, Seq<u8>, u128)>::empty(),
    };
    let o4: Seq<(Tool, Seq<u8>, Seq<u8>, u128)> = match listing.central_opencode {
        Some(ref f) => seq![
            (Tool::Central, agents_central_opencode_path(cfg), f.content@, f.mtime),
        ],
        _ => Seq::<(Tool, Seq<u8>, Seq<u8>, u128)>::empty(),
    };
    o1 + o2 + o3 + o4
}

/// The actions an agents pass owes, target by target in its fixed order,
/// for a given winner.
pub open spec fn spec_agents_actions(cfg: &Config, listing: &AgentsListing, wi: int) -> Seq<
    (bool, Seq<u8>, Seq<u8>, Seq<(Seq<u8>, Seq<u8>)>),
> {
    let vs = agents_variants(cfg, listing);
    opt_action(agents_codex_on(cfg, listing), spec_target_action(vs, wi, cfg.codex_agents_file@))
        + opt_action(
        agents_opencode_on(cfg, listing),
        spec_target_action(vs, wi, cfg.opencode_agents_file@),
    ) + opt_action(true, spec_target_action(vs, wi, agents_central_codex_path(cfg))) + opt_action(
        true,
        spec_target_action(vs, wi, agents_central_opencode_path(cfg)),
    )
}

/// Synchronize the agents files: pick the newest variant and propagate it
/// to every enabled target and to the central copies, preserving each
/// target's own frontmatter keys.  The returned count and the appended
/// actions are exactly the targets whose bytes differ from the winner's
/// merged bytes; a planning pass computes the same count without touching
/// anything.
#[verifier::rlimit(100)]
#[verifier::spinoff_prover]
pub fn sync_agents_with_mode(
    cfg: &Config,
    listing: &AgentsListing,
    mode: ExecutionMode,
    store: &mut HistoryStore,
    rec: &mut HistoryRecorder,
    actions: &mut Vec<WriteAction>,
) -> (r: (SyncStats, bool))
    requires
        old(store).wf(),
    ensures
        final(store).wf(),
        final(store).root@ == old(store).root@,
        events_view(final(store).events@) == events_view(old(store).events@),
        final(rec).id == old(rec).id,
        final(rec).origin@ == old(rec).origin@,
        mode == ExecutionMode::Plan ==> {
            &&& blobs_view(final(store).blobs@) == blobs_view(old(store).blobs@)
            &&& writes_view(final(rec).writes@) == writes_view(old(rec).writes@)
            &&& actions_view(final(actions)@) == actions_view(old(actions)@)
        },
        agents_variants(cfg, listing).len() == 0 ==> {
            &&& r.0.updated == 0
            &&& actions_view(final(actions)@) == actions_view(old(actions)@)
            &&& blobs_view(final(store).blobs@) == blobs_view(old(store).blobs@)
            &&& writes_view(final(rec).writes@) == writes_view(old(rec).writes@)
        },
        mode == ExecutionMode::Apply ==> writes_view(final(rec).writes@).len() == writes_view(
            old(rec).writes@,
        ).len() + r.0.updated,
        agents_variants(cfg, listing).len() > 0 ==> exists|wi: int|
            #[trigger] vwinner_at(agents_variants(cfg, listing), wi) && r.0.updated
                == spec_agents_actions(cfg, listing, wi).len() && (mode == ExecutionMode::Apply
                ==> actions_view(final(actions)@) == actions_view(old(actions)@)
                + spec_agents_actions(cfg, listing, wi)),
        r.0.updated == 0 ==> {
            &&& blobs_view(final(store).blobs@) == blobs_view(old(store).blobs@)
            &&& writes_view(final(rec).writes@) == writes_view(old(rec).writes@)
            &&& actions_view(final(actions)@) == actions_view(old(actions)@)
        },
{
    let ghost av = agents_variants(cfg, listing);
    let codex_enabled: bool = cfg.tool_enabled(crate::config::tool_codex_id().as_slice())
        && listing.codex_parent_exists;
    let opencode_enabled: bool = cfg.tool_enabled(crate::config::tool_opencode_id().as_slice())
        && listing.opencode_parent_exists;

    let central_codex_path: Vec<u8> = path_join(
        cfg.central_agents_dir.as_slice(),
        lit("codex/AGENTS.md").as_slice(),
    );
    let central_opencode_path: Vec<u8> = path_join(
        cfg.central_agents_dir.as_slice(),
        lit("opencode/AGENTS.md").as_slice(),
    );

    let variants: Vec<MarkdownVariant> = build_agents_variants(
        cfg,
        listing,
        codex_enabled,
        opencode_enabled,
        &central_codex_path,
        &central_opencode_path,
    );

    let mut stats: SyncStats = SyncStats { updated: 0 };
    if variants.len() == 0 {
        proof {
            assert(blobs_view(store.blobs@) =~= blobs_view(old(store).blobs@));
            assert(writes_view(rec.writes@) =~= writes_view(old(rec).writes@));
            assert(actions_view(actions@) =~= actions_view(old(actions)@));
            assert(events_view(store.events@) =~= events_view(old(store).events@));
        }
        return (stats, false);
    }
    let wi: usize = select_markdown_winner(&variants);
    let warned: bool = should_warn_conflict(&variants);
    proof {
        assert(vwinner_at(av, wi as int)) by {
            assert(forall|j: int|
                0 <= j < av.len() ==> (#[trigger] av[j]).3 == variants@[j].mtime && av[j].0
                    == variants@[j].tool);
        }
    }

    let ghost a0 = actions_view(actions@);
    let ghost mut done: Seq<(bool, Seq<u8>, Seq<u8>, Seq<(Seq<u8>, Seq<u8>)>)> = Seq::<
        (bool, Seq<u8>, Seq<u8>, Seq<(Seq<u8>, Seq<u8>)>),
    >::empty();
    if codex_enabled {
        let step = sync_markdown_target_at(
            &variants,
            wi,
            cfg.codex_agents_file.as_slice(),
            mode,
            store,
            rec,
            actions,
        );
        if step {
            stats.updated = stats.updated + 1;
        }
        proof {
            done = opt_action(true, spec_target_action(av, wi as int, cfg.codex_agents_file@));
        }
    }
    proof {
        assert(done =~= opt_action(
            agents_codex_on(cfg, listing),
            spec_target_action(av, wi as int, cfg.codex_agents_file@),
        ));
        assert(mode == ExecutionMode::Apply ==> actions_view(actions@) =~= a0 + done);
        assert(stats.updated == done.len());
        assert(mode == ExecutionMode::Apply ==> writes_view(rec.writes@).len() == writes_view(
            old(rec).writes@,
        ).len() + done.len());
    }
    if opencode_enabled {
        let step = sync_markdown_target_at(
            &variants,
            wi,
            cfg.opencode_agents_file.as_slice(),
            mode,
            store,
            rec,
            actions,
        );
        if step {
            stats.updated = stats.updated + 1;
        }
        proof {
            done = done + opt_action(
                true,
                spec_target_action(av, wi as int, cfg.opencode_agents_file@),
            );
        }
    }
    proof {
        assert(done =~= opt_action(
            agents_codex_on(cfg, listing),
            spec_target_action(av, wi as int, cfg.codex_agents_file@),
        ) + opt_action(
            agents_opencode_on(cfg, listing),
            spec_target_action(av, wi as int, cfg.opencode_agents_file@),
        ));
        assert(mode == ExecutionMode::Apply ==> actions_view(actions@) =~= a0 + done);
        assert(stats.updated == done.len());
    }
    let step = sync_markdown_target_at(
        &variants,
        wi,
        central_codex_path.as_slice(),
        mode,
        store,
        rec,
        actions,
    );
    if step {
        stats.updated = stats.updated + 1;
    }
    proof {
        done = done + opt_action(
            true,
            spec_target_action(av, wi as int, agents_central_codex_path(cfg)),
        );
        assert(mode == ExecutionMode::Apply ==> actions_view(actions@) =~= a0 + done);
        assert(stats.updated == done.len());
        assert(mode == ExecutionMode::Apply ==> writes_view(rec.writes@).len() == writes_view(
            old(rec).writes@,
        ).len() + done.len());
    }
    let step = sync_markdown_target_at(
        &variants,
        wi,
        central_opencode_path.as_slice(),
        mode,
        store,
        rec,
        actions,
    );
    if step {
        stats.updated = stats.updated + 1;
    }
    proof {
        done = done + opt_action(
            true,
            spec_target_action(av, wi as int, agents_central_opencode_path(cfg)),
        );
        assert(mode == ExecutionMode::Apply ==> actions_view(actions@) =~= a0 + done);
        assert(stats.updated == done.len());
        assert(mode == ExecutionMode::Apply ==> writes_view(rec.writes@).len() == writes_view(
            old(rec).writes@,
        ).len() + done.len());
        assert(done =~= spec_agents_actions(cfg, listing, wi as int));
        if stats.updated == 0 {
            assert(blobs_view(store.blobs@) == blobs_view(old(store).blobs@));
            assert(writes_view(rec.writes@) == writes_view(old(rec).writes@));
            assert(actions_view(actions@) == actions_view(old(actions)@));
        }
    }
    (stats, warned)
}

/// Gather the observed agent variants in the pass's fixed order.
fn build_agents_variants(
    cfg: &Config,
    listing: &AgentsListing,
    codex_enabled: bool,
    opencode_enabled: bool,
    central_codex_path: &Vec<u8>,
    central_opencode_path: &Vec<u8>,
) -> (r: Vec<MarkdownVariant>)
    requires
        codex_enabled == agents_codex_on(cfg, listing),
        opencode_enabled == agents_opencode_on(cfg, listing),
        central_codex_path@ == agents_central_codex_path(cfg),
        central_opencode_path@ == agents_central_opencode_path(cfg),
    ensures
        variants_view(r@) == agents_variants(cfg, listing),
        forall|k: int| 0 <= k < r@.len() ==> (#[trigger] r@[k]).doc.wf(),
{
    let mut variants: Vec<MarkdownVariant> = Vec::new();
    if codex_enabled {
        match &listing.codex_file {
            Some(f) => {
                variants.push(
                    read_markdown_variant(
                        Tool::Codex,
                        clone_of(&cfg.codex_agents_file),
                        &f.content,
                        f.mtime,
                    ),
                );
            },
            None => {},
        }
    }
    if opencode_enabled {
        match &listing.opencode_file {
            Some(f) => {
                variants.push(
                    read_markdown_variant(
                        Tool::Opencode,
                        clone_of(&cfg.opencode_agents_file),
                        &f.content,
                        f.mtime,
                    ),
                );
            },
            None => {},
        }
    }
    match &listing.central_codex {
        Some(f) => {
            variants.push(
                read_markdown_variant(Tool::Central, clone_of(central_codex_path), &f.content, f.mtime),
            );
        },
        None => {},
    }
    match &listing.central_opencode {
        Some(f) => {
            variants.push(
                read_markdown_variant(
                    Tool::Central,
                    clone_of(central_opencode_path),
                    &f.content,
                    f.mtime,
                ),
            );
        },
        None => {},
    }
    proof {
        assert(variants_view(variants@) =~= agents_variants(cfg, listing));
    }
    variants
}

} // verus!
