//! The closed set of supported tools and their expected paths.

use vstd::prelude::*;

verus! {

use vstd::string::StringSliceAdditionalSpecFns;
use crate::config::{Config, tool_helm, tool_codex, tool_cursor, tool_opencode, list_has};
use crate::text::{bytes_eq, clone_of, lit, append_slice};

/// One supported tool: its identifier, its human label, and which path
/// groups it participates in.
pub struct ToolDefinition {
    pub id: Vec<u8>,
    pub label: Vec<u8>,
    pub has_commands: bool,
    pub has_skills: bool,
    pub has_agents: bool,
    pub has_rules: bool,
}

/// The fixed tool table.
pub fn tool_definitions() -> (r: Vec<ToolDefinition>)
    ensures
        r@.len() == 4,
        r@[0].id@ == tool_helm() && r@[0].has_commands && r@[0].has_skills && !r@[0].has_agents
            && !r@[0].has_rules,
        r@[1].id@ == tool_codex() && r@[1].has_commands && r@[1].has_skills && r@[1].has_agents
            && r@[1].has_rules,
        r@[2].id@ == tool_cursor() && r@[2].has_commands && !r@[2].has_skills && !r@[2].has_agents
            && !r@[2].has_rules,
        r@[3].id@ == tool_opencode() && r@[3].has_commands && r@[3].has_skills && r@[3].has_agents
            && !r@[3].has_rules,
        r@[0].label@ == "Helm".spec_bytes(),
        r@[1].label@ == "Codex CLI".spec_bytes(),
        r@[2].label@ == "Cursor".spec_bytes(),
        r@[3].label@ == "OpenCode".spec_bytes(),
{
    let mut out: Vec<ToolDefinition> = Vec::new();
    out.push(
        ToolDefinition {
            id: crate::config::tool_helm_id(),
            label: lit("Helm"),
            has_commands: true,
            has_skills: true,
            has_agents: false,
            has_rules: false,
        },
    );
    out.push(
        ToolDefinition {
            id: crate::config::tool_codex_id(),
            label: lit("Codex CLI"),
            has_commands: true,
            has_skills: true,
            has_agents: true,
            has_rules: true,
        },
    );
    out.push(
        ToolDefinition {
            id: crate::config::tool_cursor_id(),
            label: lit("Cursor"),
            has_commands: true,
            has_skills: false,
            has_agents: false,
            has_rules: false,
        },
    );
    out.push(
        ToolDefinition {
            id: crate::config::tool_opencode_id(),
            label: lit("OpenCode"),
            has_commands: true,
            has_skills: true,
            has_agents: true,
            has_rules: false,
        },
    );
    out
}

/// The paths a tool is expected at: commands, skills, agents, rules, in
/// that order, where the tool has each.
pub open spec fn spec_tool_paths(cfg: &Config, tool: Seq<u8>) -> Option<Seq<Seq<u8>>> {
    if tool == tool_helm() {
        Some(seq![cfg.helm_dir@, cfg.helm_skills_dir@])
    } else if tool == tool_codex() {
        Some(
            seq![cfg.codex_dir@, cfg.codex_skills_dir@, cfg.codex_agents_file@, cfg.codex_rules_file@],
        )
    } else if tool == tool_cursor() {
        Some(seq![cfg.cursor_dir@])
    } else if tool == tool_opencode() {
        Some(
            seq![cfg.opencode_commands_dir@, cfg.opencode_skills_dir@, cfg.opencode_agents_file@],
        )
    } else {
        None
    }
}

/// The expected paths of a tool.
pub fn tool_paths(cfg: &Config, tool: &[u8]) -> (r: Option<Vec<Vec<u8>>>)
    ensures
        match r {
            Some(ps) => spec_tool_paths(cfg, tool@) == Some(
                Seq::new(ps@.len(), |i: int| ps@[i]@),
            ),
            None => spec_tool_paths(cfg, tool@) is None,
        },
{
    let helm: Vec<u8> = crate::config::tool_helm_id();
    let codex: Vec<u8> = crate::config::tool_codex_id();
    let cursor: Vec<u8> = crate::config::tool_cursor_id();
    let opencode: Vec<u8> = crate::config::tool_opencode_id();
    let mut out: Vec<Vec<u8>> = Vec::new();
    if bytes_eq(tool, helm.as_slice()) {
        out.push(clone_of(&cfg.helm_dir));
        out.push(clone_of(&cfg.helm_skills_dir));
        proof {
            assert(Seq::new(out@.len(), |i: int| out@[i]@) =~= seq![
                cfg.helm_dir@,
                cfg.helm_skills_dir@,
            ]);
        }
        Some(out)
    } else if bytes_eq(tool, codex.as_slice()) {
        out.push(clone_of(&cfg.codex_dir));
        out.push(clone_of(&cfg.codex_skills_dir));
        out.push(clone_of(&cfg.codex_agents_file));
        out.push(clone_of(&cfg.codex_rules_file));
        proof {
            assert(Seq::new(out@.len(), |i: int| out@[i]@) =~= seq![
                cfg.codex_dir@,
                cfg.codex_skills_dir@,
                cfg.codex_agents_file@,
                cfg.codex_rules_file@,
            ]);
        }
        Some(out)
    } else if bytes_eq(tool, cursor.as_slice()) {
        out.push(clone_of(&cfg.cursor_dir));
        proof {
            assert(Seq::new(out@.len(), |i: int| out@[i]@) =~= seq![cfg.cursor_dir@]);
        }
        Some(out)
    } else if bytes_eq(tool, opencode.as_slice()) {
        out.push(clone_of(&cfg.opencode_commands_dir));
        out.push(clone_of(&cfg.opencode_skills_dir));
        out.push(clone_of(&cfg.opencode_agents_file));
        proof {
            assert(Seq::new(out@.len(), |i: int| out@[i]@) =~= seq![
                cfg.opencode_commands_dir@,
                cfg.opencode_skills_dir@,
                cfg.opencode_agents_file@,
            ]);
        }
        Some(out)
    } else {
        None
    }
}

/// The expected paths of a list, joined with a separator for display.
pub open spec fn spec_join_list(paths: Seq<Seq<u8>>) -> Seq<u8>
    decreases paths.len(),
{
    if paths.len() == 0 {
        Seq::<u8>::empty()
    } else if paths.len() == 1 {
        paths.first()
    } else {
        paths.first() + ", ".spec_bytes() + spec_join_list(paths.drop_first())
    }
}

/// A display line for a tool: its label and the places it is expected at.
pub fn tool_expected_paths(cfg: &Config, tool: &[u8]) -> (r: Option<Vec<u8>>)
    ensures
        match r {
            Some(line) => match spec_tool_paths(cfg, tool@) {
                Some(ps) => exists|label: Seq<u8>|
                    line@ == #[trigger] (label + " (expected at ".spec_bytes() + spec_join_list(ps)
                        + ")".spec_bytes()),
                None => false,
            },
            None => spec_tool_paths(cfg, tool@) is None,
        },
{
    let defs: Vec<ToolDefinition> = tool_definitions();
    let mut label: Option<Vec<u8>> = None;
    let mut d: usize = 0;
    while d < defs.len()
        invariant
            d <= defs@.len(),
        decreases defs@.len() - d,
    {
        if label.is_none() && bytes_eq(defs[d].id.as_slice(), tool) {
            label = Some(clone_of(&defs[d].label));
        }
        d = d + 1;
    }
    let paths: Vec<Vec<u8>> = match tool_paths(cfg, tool) {
        Some(ps) => ps,
        None => {
            return None;
        },
    };
    let label: Vec<u8> = match label {
        Some(l) => l,
        None => Vec::new(),
    };
    let mut joined: Vec<u8> = Vec::new();
    let mut i: usize = 0;
    let ghost psv = Seq::new(paths@.len(), |k: int| paths@[k]@);
    proof {
        assert(psv.skip(0) =~= psv);
        assert(joined@ + spec_join_list(psv.skip(0)) =~= spec_join_list(psv));
    }
    while i < paths.len()
        invariant
            i <= paths@.len(),
            psv == Seq::new(paths@.len(), |k: int| paths@[k]@),
            spec_tool_paths(cfg, tool@) == Some(psv),
            spec_join_list(psv) == joined@ + spec_join_list(psv.skip(i as int)),
        decreases paths@.len() - i,
    {
        proof {
            assert(psv.skip(i as int).first() == psv[i as int]);
            assert(psv.skip(i as int).drop_first() =~= psv.skip(i + 1));
        }
        let ghost j0 = joined@;
        append_slice(&mut joined, paths[i].as_slice());
        if i + 1 < paths.len() {
            append_slice(&mut joined, lit(", ").as_slice());
        }
        proof {
            if i + 1 < paths@.len() {
                assert(joined@ =~= j0 + (psv[i as int] + ", ".spec_bytes()));
                assert(j0 + (psv[i as int] + ", ".spec_bytes()) + spec_join_list(psv.skip(i + 1))
                    =~= j0 + (psv[i as int] + ", ".spec_bytes() + spec_join_list(psv.skip(i + 1))));
            } else {
                assert(psv.skip(i as int).len() == 1);
                assert(spec_join_list(psv.skip(i as int)) == psv[i as int]);
                assert(joined@ =~= j0 + psv[i as int]);
                assert(psv.skip(i + 1).len() == 0);
                assert(joined@ + spec_join_list(psv.skip(i + 1)) =~= joined@);
            }
        }
        i = i + 1;
    }
    proof {
        assert(psv.skip(i as int).len() == 0);
        assert(joined@ + spec_join_list(psv.skip(i as int)) =~= joined@);
        if psv.len() == 0 {
            assert(spec_join_list(psv) == Seq::<u8>::empty());
        }
    }
    let ghost labelv = label@;
    let mut line: Vec<u8> = label;
    append_slice(&mut line, lit(" (expected at ").as_slice());
    append_slice(&mut line, joined.as_slice());
    append_slice(&mut line, lit(")").as_slice());
    proof {
        assert(joined@ == spec_join_list(psv));
        let ghost pp = spec_tool_paths(cfg, tool@).unwrap();
        assert(pp == psv);
        assert(line@ == labelv + " (expected at ".spec_bytes() + spec_join_list(pp)
            + ")".spec_bytes());
    }
    Some(line)
}

/// Whether a tool is present: one of its expected paths exists, where
/// `existing` lists the paths that exist on disk.
pub fn tool_detected(cfg: &Config, tool: &[u8], existing: &Vec<Vec<u8>>) -> (r: bool)
    ensures
        match spec_tool_paths(cfg, tool@) {
            Some(ps) => r == exists|i: int|
                0 <= i < ps.len() && list_has(existing@, #[trigger] ps[i]),
            None => r == false,
        },
{
    let paths: Vec<Vec<u8>> = match tool_paths(cfg, tool) {
        Some(ps) => ps,
        None => {
            return false;
        },
    };
    let ghost psv = Seq::new(paths@.len(), |k: int| paths@[k]@);
    let mut i: usize = 0;
    while i < paths.len()
        invariant
            i <= paths@.len(),
            psv == Seq::new(paths@.len(), |k: int| paths@[k]@),
            spec_tool_paths(cfg, tool@) == Some(psv),
            forall|j: int| 0 <= j < i ==> !list_has(existing@, #[trigger] psv[j]),
        decreases paths@.len() - i,
    {
        let mut e: usize = 0;
        let mut found: bool = false;
        while e < existing.len()
            invariant
                e <= existing@.len(),
                i < paths@.len(),
                psv == Seq::new(paths@.len(), |k: int| paths@[k]@),
                found == exists|w: int|
                    0 <= w < e && (#[trigger] existing@[w])@ == paths@[i as int]@,
            decreases existing@.len() - e,
        {
            if bytes_eq(existing[e].as_slice(), paths[i].as_slice()) {
                found = true;
            }
            e = e + 1;
        }
        if found {
            proof {
                let ghost pp = spec_tool_paths(cfg, tool@).unwrap();
                assert(pp == psv);
                assert(list_has(existing@, pp[i as int]));
            }
            return true;
        }
        proof {
            if list_has(existing@, psv[i as int]) {
                let w = choose|w: int|
                    0 <= w < existing@.len() && (#[trigger] existing@[w])@ == psv[i as int];
                assert(false);
            }
        }
        i = i + 1;
    }
    proof {
        let ghost pp = spec_tool_paths(cfg, tool@).unwrap();
        assert(pp == psv);
        assert forall|j: int| 0 <= j < pp.len() implies !list_has(existing@, #[trigger] pp[j]) by {
            assert(!list_has(existing@, psv[j]));
        }
    }
    false
}

} // verus!
