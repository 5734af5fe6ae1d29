//! What the filesystem watcher observes: the paths one configuration asks
//! to watch, and the origin label a burst of change notifications maps to.

use vstd::prelude::*;

verus! {

use vstd::string::StringSliceAdditionalSpecFns;
use crate::config::{Config, tool_helm, tool_codex, tool_cursor, tool_opencode, list_has};
use crate::text::{
    SLASH, append_slice, bytes_eq, clone_of, is_prefix_of, lit, parent_path, path_parent,
    starts_with, subrange_vec,
};

/// How a path should be watched.
#[derive(Debug, Clone, Copy, PartialEq, Eq, Structural)]
pub enum WatchMode {
    Recursive,
    NonRecursive,
}

/// The candidate watch roots of a configuration, in order: the central
/// groups, then each enabled tool's groups.
pub fn watch_candidates(cfg: &Config) -> (r: Vec<(Vec<u8>, WatchMode)>)
    ensures
        r@.len() >= 4,
        r@[0].0@ == cfg.central_dir@ && r@[0].1 == WatchMode::NonRecursive,
        r@[1].0@ == cfg.central_skills_dir@ && r@[1].1 == WatchMode::Recursive,
        r@[2].0@ == cfg.central_agents_dir@ && r@[2].1 == WatchMode::Recursive,
        r@[3].0@ == cfg.central_rules_dir@ && r@[3].1 == WatchMode::Recursive,
{
    let mut out: Vec<(Vec<u8>, WatchMode)> = Vec::new();
    out.push((clone_of(&cfg.central_dir), WatchMode::NonRecursive));
    out.push((clone_of(&cfg.central_skills_dir), WatchMode::Recursive));
    out.push((clone_of(&cfg.central_agents_dir), WatchMode::Recursive));
    out.push((clone_of(&cfg.central_rules_dir), WatchMode::Recursive));
    if cfg.tool_enabled(crate::config::tool_helm_id().as_slice()) {
        out.push((clone_of(&cfg.helm_dir), WatchMode::NonRecursive));
        out.push((clone_of(&cfg.helm_skills_dir), WatchMode::Recursive));
    }
    if cfg.tool_enabled(crate::config::tool_codex_id().as_slice()) {
        out.push((clone_of(&cfg.codex_dir), WatchMode::NonRecursive));
        out.push((clone_of(&cfg.codex_skills_dir), WatchMode::Recursive));
        match path_parent(cfg.codex_agents_file.as_slice()) {
            Some(p) => {
                out.push((p, WatchMode::NonRecursive));
            },
            None => {},
        }
        match path_parent(cfg.codex_rules_file.as_slice()) {
            Some(p) => {
                out.push((p, WatchMode::NonRecursive));
            },
            None => {},
        }
    }
    if cfg.tool_enabled(crate::config::tool_cursor_id().as_slice()) {
        out.push((clone_of(&cfg.cursor_dir), WatchMode::NonRecursive));
    }
    if cfg.tool_enabled(crate::config::tool_opencode_id().as_slice()) {
        out.push((clone_of(&cfg.opencode_commands_dir), WatchMode::NonRecursive));
        out.push((clone_of(&cfg.opencode_skills_dir), WatchMode::Recursive));
        match path_parent(cfg.opencode_agents_file.as_slice()) {
            Some(p) => {
                out.push((p, WatchMode::NonRecursive));
            },
            None => {},
        }
    }
    out
}

/// The watch list: every candidate root that exists on disk, where
/// `existing` lists the paths that exist.
pub fn build_watch_list(cfg: &Config, existing: &Vec<Vec<u8>>) -> (r: Vec<(Vec<u8>, WatchMode)>)
    ensures
        forall|i: int| 0 <= i < r@.len() ==> list_has(existing@, (#[trigger] r@[i]).0@),
{
    let candidates: Vec<(Vec<u8>, WatchMode)> = watch_candidates(cfg);
    let mut out: Vec<(Vec<u8>, WatchMode)> = Vec::new();
    let mut i: usize = 0;
    while i < candidates.len()
        invariant
            i <= candidates@.len(),
            forall|k: int| 0 <= k < out@.len() ==> list_has(existing@, (#[trigger] out@[k]).0@),
        decreases candidates@.len() - i,
    {
        let mut e: usize = 0;
        let mut found: bool = false;
        while e < existing.len()
            invariant
                e <= existing@.len(),
                i < candidates@.len(),
                found ==> list_has(existing@, candidates@[i as int].0@),
            decreases existing@.len() - e,
        {
            if bytes_eq(existing[e].as_slice(), candidates[i].0.as_slice()) {
                found = true;
            }
            e = e + 1;
        }
        if found {
            let mode: WatchMode = candidates[i].1;
            out.push((clone_of(&candidates[i].0), mode));
        }
        i = i + 1;
    }
    out
}

/// The origin label one root gives a changed path under it: the label
/// alone for the root itself, or the label and the path inside the root.
pub open spec fn spec_format_origin(path: Seq<u8>, root: Seq<u8>, label: Seq<u8>) -> Option<
    Seq<u8>,
> {
    if path == root {
        Some("watch:".spec_bytes() + label)
    } else if is_prefix_of(root + seq![SLASH], path) {
        let rel = strip_slashes(path.skip(root.len() as int));
        if rel.len() == 0 {
            Some("watch:".spec_bytes() + label)
        } else {
            Some("watch:".spec_bytes() + label + ":".spec_bytes() + rel)
        }
    } else {
        None
    }
}

/// `s` without its leading separators.
pub open spec fn strip_slashes(s: Seq<u8>) -> Seq<u8>
    decreases s.len(),
{
    if s.len() > 0 && s[0] == SLASH {
        strip_slashes(s.skip(1))
    } else {
        s
    }
}

/// Label a path against one root.
pub fn format_origin(path: &[u8], root: &[u8], label: &str) -> (r: Option<Vec<u8>>)
    ensures
        match r {
            Some(o) => spec_format_origin(path@, root@, label.spec_bytes()) == Some(o@),
            None => spec_format_origin(path@, root@, label.spec_bytes()) is None,
        },
{
    let mut prefix: Vec<u8> = crate::text::clone_of_slice(root);
    prefix.push(SLASH);
    if bytes_eq(path, root) {
        let mut o: Vec<u8> = lit("watch:");
        append_slice(&mut o, lit(label).as_slice());
        proof {
            assert(o@ =~= "watch:".spec_bytes() + label.spec_bytes());
        }
        return Some(o);
    }
    if !starts_with(path, prefix.as_slice()) {
        proof {
            assert(prefix@ =~= root@ + seq![SLASH]);
        }
        return None;
    }
    proof {
        assert(prefix@ =~= root@ + seq![SLASH]);
    }
    let mut s: usize = root.len();
    proof {
        assert(path@.skip(root@.len() as int).skip(0) =~= path@.skip(root@.len() as int));
    }
    while s < path.len() && path[s] == SLASH
        invariant
            root@.len() <= s <= path@.len(),
            strip_slashes(path@.skip(root@.len() as int)) == strip_slashes(path@.skip(s as int)),
        decreases path@.len() - s,
    {
        proof {
            assert(path@.skip(s as int).skip(1) =~= path@.skip(s + 1));
        }
        s = s + 1;
    }
    proof {
        assert(strip_slashes(path@.skip(s as int)) == path@.skip(s as int));
    }
    let rel: Vec<u8> = subrange_vec(path, s, path.len());
    proof {
        assert(rel@ =~= path@.skip(s as int));
    }
    let mut o: Vec<u8> = lit("watch:");
    append_slice(&mut o, lit(label).as_slice());
    if rel.len() == 0 {
        proof {
            assert(o@ =~= "watch:".spec_bytes() + label.spec_bytes());
        }
        return Some(o);
    }
    append_slice(&mut o, lit(":").as_slice());
    append_slice(&mut o, rel.as_slice());
    proof {
        assert(o@ =~= "watch:".spec_bytes() + label.spec_bytes() + ":".spec_bytes() + rel@);
    }
    Some(o)
}


/// The origin label one changed path classifies to: the directory roots
/// in a fixed order, then the two single-file roots.
pub open spec fn spec_classify_origin(cfg: &Config, path: Seq<u8>) -> Option<Seq<u8>> {
    match spec_format_origin(path, cfg.central_dir@, "central".spec_bytes()) {
        Some(o) => Some(o),
        None => match spec_format_origin(path, cfg.central_skills_dir@, "central_skills".spec_bytes()) {
            Some(o) => Some(o),
            None => match spec_format_origin(path, cfg.central_agents_dir@, "central_agents".spec_bytes()) {
                Some(o) => Some(o),
                None => match spec_format_origin(path, cfg.central_rules_dir@, "central_rules".spec_bytes()) {
                    Some(o) => Some(o),
                    None => match spec_format_origin(path, cfg.helm_dir@, "helm".spec_bytes()) {
                        Some(o) => Some(o),
                        None => match spec_format_origin(path, cfg.helm_skills_dir@, "helm_skills".spec_bytes()) {
                            Some(o) => Some(o),
                            None => match spec_format_origin(path, cfg.codex_dir@, "codex".spec_bytes()) {
                                Some(o) => Some(o),
                                None => match spec_format_origin(path, cfg.codex_skills_dir@, "codex_skills".spec_bytes()) {
                                    Some(o) => Some(o),
                                    None => match spec_format_origin(path, cfg.opencode_commands_dir@, "opencode".spec_bytes()) {
                                        Some(o) => Some(o),
                                        None => match spec_format_origin(path, cfg.opencode_skills_dir@, "opencode_skills".spec_bytes()) {
                                            Some(o) => Some(o),
                                            None => match spec_format_origin(path, cfg.cursor_dir@, "cursor".spec_bytes()) {
                                                Some(o) => Some(o),
                                                None => spec_classify_files(cfg, path),
                                            },
                                        },
                                    },
                                },
                            },
                        },
                    },
                },
            },
        },
    }
}

/// The tail of the cascade: the opencode agents parent, then the two
/// single files and their parents.
pub open spec fn spec_classify_files(cfg: &Config, path: Seq<u8>) -> Option<Seq<u8>> {
    let step1: Option<Seq<u8>> = match parent_path(cfg.opencode_agents_file@) {
        Some(p) => spec_format_origin(path, p, "opencode_agents".spec_bytes()),
        None => None,
    };
    match step1 {
        Some(o) => Some(o),
        None => {
            if path == cfg.codex_agents_file@ {
                Some("watch:".spec_bytes() + "codex_agents".spec_bytes())
            } else {
                let step2: Option<Seq<u8>> = match parent_path(cfg.codex_agents_file@) {
                    Some(p) => spec_format_origin(path, p, "codex_agents".spec_bytes()),
                    None => None,
                };
                match step2 {
                    Some(o) => Some(o),
                    None => {
                        if path == cfg.codex_rules_file@ {
                            Some("watch:".spec_bytes() + "codex_rules".spec_bytes())
                        } else {
                            match parent_path(cfg.codex_rules_file@) {
                                Some(p) => spec_format_origin(path, p, "codex_rules".spec_bytes()),
                                None => None,
                            }
                        }
                    },
                }
            }
        },
    }
}

/// Classify one changed path into an origin label, trying the directory
/// roots in a fixed order and the two single-file roots last.
pub fn classify_origin(cfg: &Config, path: &[u8]) -> (r: Option<Vec<u8>>)
    ensures
        match r {
            Some(o) => spec_classify_origin(cfg, path@) == Some(o@),
            None => spec_classify_origin(cfg, path@) is None,
        },
{
    match format_origin(path, cfg.central_dir.as_slice(), "central") {
        Some(o) => {
            return Some(o);
        },
        None => {},
    }
    match format_origin(path, cfg.central_skills_dir.as_slice(), "central_skills") {
        Some(o) => {
            return Some(o);
        },
        None => {},
    }
    match format_origin(path, cfg.central_agents_dir.as_slice(), "central_agents") {
        Some(o) => {
            return Some(o);
        },
        None => {},
    }
    match format_origin(path, cfg.central_rules_dir.as_slice(), "central_rules") {
        Some(o) => {
            return Some(o);
        },
        None => {},
    }
    match format_origin(path, cfg.helm_dir.as_slice(), "helm") {
        Some(o) => {
            return Some(o);
        },
        None => {},
    }
    match format_origin(path, cfg.helm_skills_dir.as_slice(), "helm_skills") {
        Some(o) => {
            return Some(o);
        },
        None => {},
    }
    match format_origin(path, cfg.codex_dir.as_slice(), "codex") {
        Some(o) => {
            return Some(o);
        },
        None => {},
    }
    match format_origin(path, cfg.codex_skills_dir.as_slice(), "codex_skills") {
        Some(o) => {
            return Some(o);
        },
        None => {},
    }
    match format_origin(path, cfg.opencode_commands_dir.as_slice(), "opencode") {
        Some(o) => {
            return Some(o);
        },
        None => {},
    }
    match format_origin(path, cfg.opencode_skills_dir.as_slice(), "opencode_skills") {
        Some(o) => {
            return Some(o);
        },
        None => {},
    }
    match format_origin(path, cfg.cursor_dir.as_slice(), "cursor") {
        Some(o) => {
            return Some(o);
        },
        None => {},
    }
    match path_parent(cfg.opencode_agents_file.as_slice()) {
        Some(p) => {
            match format_origin(path, p.as_slice(), "opencode_agents") {
                Some(o) => {
                    return Some(o);
                },
                None => {},
            }
        },
        None => {},
    }
    if bytes_eq(path, cfg.codex_agents_file.as_slice()) {
        let mut o: Vec<u8> = lit("watch:");
        append_slice(&mut o, lit("codex_agents").as_slice());
        proof {
            assert(o@ =~= "watch:".spec_bytes() + "codex_agents".spec_bytes());
        }
        return Some(o);
    }
    match path_parent(cfg.codex_agents_file.as_slice()) {
        Some(p) => {
            match format_origin(path, p.as_slice(), "codex_agents") {
                Some(o) => {
                    return Some(o);
                },
                None => {},
            }
        },
        None => {},
    }
    if bytes_eq(path, cfg.codex_rules_file.as_slice()) {
        let mut o: Vec<u8> = lit("watch:");
        append_slice(&mut o, lit("codex_rules").as_slice());
        proof {
            assert(o@ =~= "watch:".spec_bytes() + "codex_rules".spec_bytes());
        }
        return Some(o);
    }
    match path_parent(cfg.codex_rules_file.as_slice()) {
        Some(p) => {
            match format_origin(path, p.as_slice(), "codex_rules") {
                Some(o) => {
                    return Some(o);
                },
                None => {},
            }
        },
        None => {},
    }
    None
}

/// The origin label of a burst of changed paths: the label of the first
/// path that classifies, or the plain watch label.
pub open spec fn spec_watch_origin(cfg: &Config, paths: Seq<Seq<u8>>) -> Seq<u8>
    decreases paths.len(),
{
    if paths.len() == 0 {
        "watch".spec_bytes()
    } else {
        match spec_classify_origin(cfg, paths.first()) {
            Some(o) => o,
            None => spec_watch_origin(cfg, paths.drop_first()),
        }
    }
}

/// The origin label of a burst of changed paths.
pub fn watch_origin(cfg: &Config, paths: &Vec<Vec<u8>>) -> (r: Vec<u8>)
    ensures
        r@ == spec_watch_origin(cfg, Seq::new(paths@.len(), |k: int| paths@[k]@)),
{
    let ghost pv = Seq::new(paths@.len(), |k: int| paths@[k]@);
    let mut i: usize = 0;
    proof {
        assert(pv.skip(0) =~= pv);
    }
    while i < paths.len()
        invariant
            i <= paths@.len(),
            pv == Seq::new(paths@.len(), |k: int| paths@[k]@),
            spec_watch_origin(cfg, pv) == spec_watch_origin(cfg, pv.skip(i as int)),
        decreases paths@.len() - i,
    {
        proof {
            assert(pv.skip(i as int).first() == pv[i as int]);
            assert(pv.skip(i as int).drop_first() =~= pv.skip(i + 1));
        }
        match classify_origin(cfg, paths[i].as_slice()) {
            Some(o) => {
                return o;
            },
            None => {},
        }
        i = i + 1;
    }
    lit("watch")
}

} // verus!
