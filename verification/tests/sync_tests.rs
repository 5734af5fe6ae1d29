use relay::config::Config;
use relay::doc::split_frontmatter;
use relay::history::{EventId, HistoryRecorder, HistoryStore};
use relay::sync::agents::{sync_agents_with_mode, AgentsListing};
use relay::sync::commands::{sync_commands_with_mode, CommandsListing};
use relay::sync::rules::{sync_rules_with_mode, RulesListing};
use relay::sync::skills::{
    sync_skills_with_mode, SkillEntry, SkillRecord, SkillsDirListing, SkillsListing,
};
use relay::sync::{
    should_warn_conflict, read_markdown_variant, write_raw_if_changed, DirListing, ExecutionMode,
    FileRecord, FileState, SyncInput, Tool, WriteAction, sync_all_with_mode,
};
use relay::sync::skills::{digest_skill_dir, sync_skill_target};
use relay::sync::select_markdown_winner;

const G: u128 = 1_000_000_000;
const NOW: u128 = 1_700_000_000 * G;

fn b(s: &str) -> Vec<u8> {
    s.as_bytes().to_vec()
}

fn contains(hay: &[u8], needle: &str) -> bool {
    let n = needle.as_bytes();
    if n.is_empty() {
        return true;
    }
    hay.windows(n.len()).any(|w| w == n)
}

fn doc(name: &str, body: &str) -> Vec<u8> {
    b(&format!(
        "---\nname: {name}\ndescription: {name} description\n---\n{body}"
    ))
}

fn make_config() -> Config {
    Config {
        enabled_tools: vec![b("helm"), b("codex"), b("cursor"), b("opencode")],
        verified_versions: Vec::new(),
        central_dir: b("/t/central"),
        central_skills_dir: b("/t/central_skills"),
        central_agents_dir: b("/t/central_agents"),
        central_rules_dir: b("/t/central_rules"),
        helm_dir: b("/t/helm_commands"),
        helm_skills_dir: b("/t/helm_skills"),
        cursor_dir: b("/t/cursor"),
        opencode_commands_dir: b("/t/opencode_commands"),
        opencode_skills_dir: b("/t/opencode_skills"),
        opencode_agents_file: b("/t/opencode_agents/AGENTS.md"),
        codex_dir: b("/t/codex_prompts"),
        codex_skills_dir: b("/t/codex_skills"),
        codex_rules_file: b("/t/codex_rules/default.rules"),
        codex_agents_file: b("/t/codex_agents/AGENTS.md"),
    }
}

fn fresh_store(cfg: &Config) -> HistoryStore {
    HistoryStore::from_config(cfg).unwrap()
}

fn fresh_recorder() -> HistoryRecorder {
    HistoryRecorder::new(b("sync"), 0, EventId { nanos: 1, pid: 1 })
}

fn file_write<'a>(actions: &'a [WriteAction], path: &str) -> Option<&'a Vec<u8>> {
    for a in actions {
        if let WriteAction::WriteFile { path: p, content } = a {
            if p.as_slice() == path.as_bytes() {
                return Some(content);
            }
        }
    }
    None
}

fn body_of(raw: &[u8]) -> Vec<u8> {
    split_frontmatter(raw).1
}

fn fm_of(raw: &[u8]) -> Vec<u8> {
    split_frontmatter(raw).0.unwrap_or_default()
}

fn empty_dir() -> DirListing {
    DirListing { present: true, files: Vec::new() }
}

fn empty_agents() -> AgentsListing {
    AgentsListing {
        codex_parent_exists: true,
        codex_file: None,
        opencode_parent_exists: true,
        opencode_file: None,
        central_codex: None,
        central_opencode: None,
    }
}

#[test]
fn sync_agents_last_write_wins() {
    let cfg = make_config();
    let mut listing = empty_agents();
    listing.codex_file = Some(FileState { content: doc("codex", "Codex agent"), mtime: NOW });
    listing.opencode_file = Some(FileState {
        content: doc("opencode", "OpenCode agent"),
        mtime: 2_100_000_200 * G,
    });
    let mut store = fresh_store(&cfg);
    let mut rec = fresh_recorder();
    let mut actions = Vec::new();
    sync_agents_with_mode(&cfg, &listing, ExecutionMode::Apply, &mut store, &mut rec, &mut actions);

    let codex = file_write(&actions, "/t/codex_agents/AGENTS.md").unwrap();
    assert_eq!(body_of(codex), b("OpenCode agent"));
    assert!(contains(&fm_of(codex), "name: opencode"));
}

#[test]
fn sync_agents_updates_opencode_when_codex_wins() {
    let cfg = make_config();
    let mut listing = empty_agents();
    listing.codex_file = Some(FileState {
        content: doc("codex", "Codex agent"),
        mtime: 2_200_000_200 * G,
    });
    listing.opencode_file = Some(FileState {
        content: doc("opencode", "OpenCode agent"),
        mtime: NOW,
    });
    let mut store = fresh_store(&cfg);
    let mut rec = fresh_recorder();
    let mut actions = Vec::new();
    sync_agents_with_mode(&cfg, &listing, ExecutionMode::Apply, &mut store, &mut rec, &mut actions);

    let opencode = file_write(&actions, "/t/opencode_agents/AGENTS.md").unwrap();
    assert_eq!(body_of(opencode), b("Codex agent"));
}

#[test]
fn sync_agents_central_wins_and_syncs_required_frontmatter() {
    let cfg = make_config();
    let mut listing = empty_agents();
    listing.codex_file = Some(FileState { content: doc("codex", "Old"), mtime: NOW });
    listing.opencode_file = Some(FileState { content: doc("opencode", "Old"), mtime: NOW });
    listing.central_codex = Some(FileState {
        content: doc("central", "New"),
        mtime: 2_400_000_100 * G,
    });
    let mut store = fresh_store(&cfg);
    let mut rec = fresh_recorder();
    let mut actions = Vec::new();
    sync_agents_with_mode(&cfg, &listing, ExecutionMode::Apply, &mut store, &mut rec, &mut actions);

    let codex = file_write(&actions, "/t/codex_agents/AGENTS.md").unwrap();
    assert_eq!(body_of(codex), b("New"));
    assert!(contains(&fm_of(codex), "name: central"));
    let opencode = file_write(&actions, "/t/opencode_agents/AGENTS.md").unwrap();
    assert_eq!(body_of(opencode), b("New"));
    assert!(contains(&fm_of(opencode), "name: central"));
}

#[test]
fn sync_agents_second_pass_is_empty() {
    let cfg = make_config();
    let mut listing = empty_agents();
    listing.codex_file = Some(FileState { content: doc("codex", "Codex agent"), mtime: NOW });
    listing.opencode_file = Some(FileState {
        content: doc("opencode", "OpenCode agent"),
        mtime: 2_100_000_200 * G,
    });
    let mut store = fresh_store(&cfg);
    let mut rec = fresh_recorder();
    let mut actions = Vec::new();
    let (first, _) = sync_agents_with_mode(
        &cfg,
        &listing,
        ExecutionMode::Apply,
        &mut store,
        &mut rec,
        &mut actions,
    );
    assert!(first.updated > 0);

    // every target now holds exactly what the pass wrote
    let mut second = empty_agents();
    second.codex_file = Some(FileState {
        content: file_write(&actions, "/t/codex_agents/AGENTS.md").unwrap().clone(),
        mtime: NOW + 7,
    });
    second.opencode_file = Some(FileState {
        content: doc("opencode", "OpenCode agent"),
        mtime: 2_100_000_200 * G,
    });
    second.central_codex = Some(FileState {
        content: file_write(&actions, "/t/central_agents/codex/AGENTS.md").unwrap().clone(),
        mtime: NOW + 9,
    });
    second.central_opencode = Some(FileState {
        content: file_write(&actions, "/t/central_agents/opencode/AGENTS.md").unwrap().clone(),
        mtime: NOW + 11,
    });
    let mut actions2 = Vec::new();
    let mut rec2 = fresh_recorder();
    let (again, _) = sync_agents_with_mode(
        &cfg,
        &second,
        ExecutionMode::Apply,
        &mut store,
        &mut rec2,
        &mut actions2,
    );
    assert_eq!(again.updated, 0);
    assert!(actions2.is_empty());
    assert!(rec2.finish(&mut store).is_none());
}

#[test]
fn sync_commands_opencode_wins() {
    let cfg = make_config();
    let listing = CommandsListing {
        helm: DirListing {
            present: true,
            files: vec![FileRecord { name: b("build.md"), content: doc("helm", "Old"), mtime: NOW }],
        },
        opencode: DirListing {
            present: true,
            files: vec![FileRecord {
                name: b("build.md"),
                content: doc("opencode", "New"),
                mtime: 2_000_000_200 * G,
            }],
        },
        codex: empty_dir(),
        central: Vec::new(),
    };
    let mut store = fresh_store(&cfg);
    let mut rec = fresh_recorder();
    let mut actions = Vec::new();
    sync_commands_with_mode(&cfg, &listing, ExecutionMode::Apply, &mut store, &mut rec, &mut actions);

    let helm = file_write(&actions, "/t/helm_commands/build.md").unwrap();
    assert_eq!(body_of(helm), b("New"));
    // the winner's required fields are written into the target's block
    assert!(contains(&fm_of(helm), "name: opencode"));
    let codex = file_write(&actions, "/t/codex_prompts/build.md").unwrap();
    assert_eq!(body_of(codex), b("New"));
}

#[test]
fn sync_commands_central_wins_and_preserves_tool_frontmatter() {
    let cfg = make_config();
    let listing = CommandsListing {
        helm: DirListing {
            present: true,
            files: vec![FileRecord { name: b("review.md"), content: doc("helm", "Old"), mtime: NOW }],
        },
        opencode: empty_dir(),
        codex: DirListing {
            present: true,
            files: vec![FileRecord { name: b("review.md"), content: doc("codex", "Old"), mtime: NOW }],
        },
        central: vec![FileRecord {
            name: b("review.md"),
            content: doc("central", "New"),
            mtime: 2_200_000_300 * G,
        }],
    };
    let mut store = fresh_store(&cfg);
    let mut rec = fresh_recorder();
    let mut actions = Vec::new();
    sync_commands_with_mode(&cfg, &listing, ExecutionMode::Apply, &mut store, &mut rec, &mut actions);

    let helm = file_write(&actions, "/t/helm_commands/review.md").unwrap();
    assert_eq!(body_of(helm), b("New"));
    // the winner's required fields are written into each target's block,
    // while every other key a target carries is kept
    assert!(contains(&fm_of(helm), "name: central"));
    let codex = file_write(&actions, "/t/codex_prompts/review.md").unwrap();
    assert_eq!(body_of(codex), b("New"));
    assert!(contains(&fm_of(codex), "name: central"));
    // the winner itself is already up to date
    assert!(file_write(&actions, "/t/central/review.md").is_none());
}

#[test]
fn sync_commands_supports_codex_prompt_prefix() {
    let cfg = make_config();
    let listing = CommandsListing {
        helm: empty_dir(),
        opencode: empty_dir(),
        codex: DirListing {
            present: true,
            files: vec![FileRecord {
                name: b("prompt:legacy.md"),
                content: b("Legacy body"),
                mtime: NOW,
            }],
        },
        central: Vec::new(),
    };
    let mut store = fresh_store(&cfg);
    let mut rec = fresh_recorder();
    let mut actions = Vec::new();
    sync_commands_with_mode(&cfg, &listing, ExecutionMode::Apply, &mut store, &mut rec, &mut actions);

    for path in [
        "/t/codex_prompts/legacy.md",
        "/t/helm_commands/legacy.md",
        "/t/central/legacy.md",
    ] {
        assert_eq!(file_write(&actions, path).unwrap(), &b("Legacy body"));
    }
}

#[test]
fn sync_commands_scenario_propagates_newest_body() {
    let cfg = make_config();
    let listing = CommandsListing {
        helm: DirListing {
            present: true,
            files: vec![FileRecord {
                name: b("review.md"),
                content: doc("helm", "Old body"),
                mtime: NOW,
            }],
        },
        opencode: DirListing {
            present: true,
            files: vec![FileRecord {
                name: b("review.md"),
                content: doc("opencode", "Fresh body"),
                mtime: NOW + 10 * G,
            }],
        },
        codex: empty_dir(),
        central: Vec::new(),
    };
    let mut store = fresh_store(&cfg);
    let mut rec = fresh_recorder();
    let mut actions = Vec::new();
    let (stats, _) = sync_commands_with_mode(
        &cfg,
        &listing,
        ExecutionMode::Apply,
        &mut store,
        &mut rec,
        &mut actions,
    );
    assert!(stats.updated >= 2);
    let helm = file_write(&actions, "/t/helm_commands/review.md").unwrap();
    assert_eq!(body_of(helm), b("Fresh body"));
    let central = file_write(&actions, "/t/central/review.md").unwrap();
    assert_eq!(body_of(central), b("Fresh body"));
}

#[test]
fn sync_commands_plan_mode_counts_without_writing() {
    let cfg = make_config();
    let listing = CommandsListing {
        helm: DirListing {
            present: true,
            files: vec![FileRecord { name: b("a.md"), content: b("hello"), mtime: NOW }],
        },
        opencode: empty_dir(),
        codex: empty_dir(),
        central: Vec::new(),
    };
    let mut store = fresh_store(&cfg);
    let blobs_before = store.blobs.len();
    let mut rec = fresh_recorder();
    let mut actions = Vec::new();
    let (stats, _) = sync_commands_with_mode(
        &cfg,
        &listing,
        ExecutionMode::Plan,
        &mut store,
        &mut rec,
        &mut actions,
    );
    assert!(stats.updated > 0);
    assert!(actions.is_empty());
    assert_eq!(store.blobs.len(), blobs_before);
    assert!(rec.writes.is_empty());
}

#[test]
fn sync_rules_mirrors_codex_rules() {
    let cfg = make_config();
    let listing = RulesListing {
        codex_parent_exists: true,
        codex_file: Some(FileState { content: b("rule(\"x\")"), mtime: NOW }),
        central_file: None,
    };
    let mut store = fresh_store(&cfg);
    let mut rec = fresh_recorder();
    let mut actions = Vec::new();
    sync_rules_with_mode(&cfg, &listing, ExecutionMode::Apply, &mut store, &mut rec, &mut actions);
    let central = file_write(&actions, "/t/central_rules/codex/default.rules").unwrap();
    assert_eq!(central, &b("rule(\"x\")"));
}

#[test]
fn sync_rules_central_wins() {
    let cfg = make_config();
    let listing = RulesListing {
        codex_parent_exists: true,
        codex_file: Some(FileState { content: b("rule(\"old\")"), mtime: NOW }),
        central_file: Some(FileState { content: b("rule(\"new\")"), mtime: 2_500_000_100 * G }),
    };
    let mut store = fresh_store(&cfg);
    let mut rec = fresh_recorder();
    let mut actions = Vec::new();
    sync_rules_with_mode(&cfg, &listing, ExecutionMode::Apply, &mut store, &mut rec, &mut actions);
    let codex = file_write(&actions, "/t/codex_rules/default.rules").unwrap();
    assert_eq!(codex, &b("rule(\"new\")"));
}

fn skill(name: &str, skill_doc: &[u8], mtime: u128) -> SkillRecord {
    SkillRecord {
        name: b(name),
        entries: vec![SkillEntry { rel: b("SKILL.md"), data: skill_doc.to_vec(), mtime }],
    }
}

#[test]
fn sync_skills_handles_existing_central_dir() {
    let cfg = make_config();
    let listing = SkillsListing {
        helm: SkillsDirListing {
            present: true,
            skills: vec![skill("plan", &doc("helm", "Body"), NOW)],
        },
        opencode: SkillsDirListing { present: true, skills: Vec::new() },
        codex: SkillsDirListing { present: true, skills: Vec::new() },
        central: vec![skill("plan", &doc("central", "Old"), NOW - G)],
    };
    let mut store = fresh_store(&cfg);
    let mut rec = fresh_recorder();
    let mut actions = Vec::new();
    sync_skills_with_mode(&cfg, &listing, ExecutionMode::Apply, &mut store, &mut rec, &mut actions);
}

#[test]
fn sync_skills_replaces_target_and_keeps_its_frontmatter() {
    let cfg = make_config();
    let mut winner = skill("plan", &doc("codex", "Codex skill body"), 2_000_000_100 * G);
    winner.entries.push(SkillEntry { rel: b("scripts/run.sh"), data: b("echo hi"), mtime: NOW });
    let listing = SkillsListing {
        helm: SkillsDirListing {
            present: true,
            skills: vec![skill("plan", &doc("helm", "Helm skill body"), NOW)],
        },
        opencode: SkillsDirListing { present: true, skills: Vec::new() },
        codex: SkillsDirListing { present: true, skills: vec![winner] },
        central: Vec::new(),
    };
    let mut store = fresh_store(&cfg);
    let mut rec = fresh_recorder();
    let mut actions = Vec::new();
    sync_skills_with_mode(&cfg, &listing, ExecutionMode::Apply, &mut store, &mut rec, &mut actions);

    let mut found = false;
    for a in &actions {
        if let WriteAction::ReplaceDir { path, files } = a {
            if path.as_slice() == b"/t/helm_skills/plan" {
                found = true;
                let md = files.iter().find(|f| f.rel.as_slice() == b"SKILL.md").unwrap();
                assert_eq!(body_of(&md.data), b("Codex skill body"));
                // the winner's required fields are written into the target's
                // own block, as for commands and agents
                assert!(contains(&fm_of(&md.data), "name: codex"));
                let script = files.iter().find(|f| f.rel.as_slice() == b"scripts/run.sh").unwrap();
                assert_eq!(script.data, b("echo hi"));
            }
        }
    }
    assert!(found);
}

#[test]
fn sync_skill_target_skips_when_unchanged() {
    let cfg = make_config();
    let source = skill("source", &doc("x", "Body"), NOW);
    let (digest, _m) = digest_skill_dir(&source.entries);
    let mut store = fresh_store(&cfg);
    let mut rec = fresh_recorder();
    let mut actions = Vec::new();
    let updated = sync_skill_target(
        &source,
        digest,
        Some(&source),
        Some(digest),
        b("/t/x/target").as_slice(),
        ExecutionMode::Apply,
        &mut store,
        &mut rec,
        &mut actions,
    );
    assert!(!updated);
    assert!(actions.is_empty());
}

#[test]
fn write_raw_if_changed_skips_when_same() {
    let cfg = make_config();
    let mut store = fresh_store(&cfg);
    let mut rec = fresh_recorder();
    let mut actions = Vec::new();
    let same = b("same");
    let changed = write_raw_if_changed(
        b("/t/file.md").as_slice(),
        same.as_slice(),
        Some(&same),
        ExecutionMode::Apply,
        &mut store,
        &mut rec,
        &mut actions,
    );
    assert!(!changed);
    assert!(actions.is_empty());
}

#[test]
fn conflict_window_bounds() {
    // 2.5 seconds apart: no warning; 1.5 seconds apart: warning
    let far = vec![
        read_markdown_variant(Tool::Helm, b("/a"), &b("one"), 0),
        read_markdown_variant(Tool::Codex, b("/b"), &b("two"), 2_500_000_000),
    ];
    assert!(!should_warn_conflict(&far));
    let near = vec![
        read_markdown_variant(Tool::Helm, b("/a"), &b("one"), 0),
        read_markdown_variant(Tool::Codex, b("/b"), &b("two"), 1_500_000_000),
    ];
    assert!(should_warn_conflict(&near));
    let same_body = vec![
        read_markdown_variant(Tool::Helm, b("/a"), &b("one"), 0),
        read_markdown_variant(Tool::Codex, b("/b"), &b("one"), 1_500_000_000),
    ];
    assert!(!should_warn_conflict(&same_body));
}

#[test]
fn sync_all_with_mode_records_history_event() {
    let cfg = make_config();
    let input = SyncInput {
        commands: CommandsListing {
            helm: DirListing {
                present: true,
                files: vec![FileRecord { name: b("demo.md"), content: b("hello"), mtime: NOW }],
            },
            opencode: empty_dir(),
            codex: empty_dir(),
            central: Vec::new(),
        },
        skills: SkillsListing {
            helm: SkillsDirListing { present: true, skills: Vec::new() },
            opencode: SkillsDirListing { present: true, skills: Vec::new() },
            codex: SkillsDirListing { present: true, skills: Vec::new() },
            central: Vec::new(),
        },
        agents: AgentsListing {
            codex_parent_exists: true,
            codex_file: None,
            opencode_parent_exists: true,
            opencode_file: None,
            central_codex: None,
            central_opencode: None,
        },
        rules: RulesListing { codex_parent_exists: true, codex_file: None, central_file: None },
    };
    let mut store = fresh_store(&cfg);
    let outcome = sync_all_with_mode(
        &cfg,
        &input,
        ExecutionMode::Apply,
        b("sync"),
        42,
        EventId { nanos: 7, pid: 9 },
        &mut store,
    );
    assert!(outcome.report.commands.updated > 0);
    assert!(outcome.history_event_id.is_some());
    assert_eq!(store.events.len(), 1);
    assert_eq!(store.events[0].origin, b("sync"));
    let recent = store.list_recent(5);
    assert_eq!(recent.len(), 1);
    let central = file_write(&outcome.actions, "/t/central/demo.md").unwrap();
    assert!(contains(central, "hello"));
}

#[test]
fn sync_skills_central_wins_and_preserves_tool_frontmatter() {
    let cfg = make_config();
    let listing = SkillsListing {
        helm: SkillsDirListing {
            present: true,
            skills: vec![skill("plan", &doc("helm", "Old"), NOW)],
        },
        opencode: SkillsDirListing { present: true, skills: Vec::new() },
        codex: SkillsDirListing { present: true, skills: Vec::new() },
        central: vec![skill("plan", &doc("central", "New"), 2_300_000_100 * G)],
    };
    let mut store = fresh_store(&cfg);
    let mut rec = fresh_recorder();
    let mut actions = Vec::new();
    sync_skills_with_mode(&cfg, &listing, ExecutionMode::Apply, &mut store, &mut rec, &mut actions);

    let mut saw_helm = false;
    for a in &actions {
        if let WriteAction::ReplaceDir { path, files } = a {
            assert_ne!(path.as_slice(), b"/t/central_skills/plan" as &[u8]);
            if path.as_slice() == b"/t/helm_skills/plan" {
                saw_helm = true;
                let md = files.iter().find(|f| f.rel.as_slice() == b"SKILL.md").unwrap();
                assert_eq!(body_of(&md.data), b("New"));
                assert!(contains(&fm_of(&md.data), "name: central"));
            }
        }
    }
    assert!(saw_helm);
}

#[test]
fn sync_skills_central_roundtrip_is_stable() {
    let cfg = make_config();
    let listing = SkillsListing {
        helm: SkillsDirListing { present: true, skills: Vec::new() },
        opencode: SkillsDirListing { present: true, skills: Vec::new() },
        codex: SkillsDirListing { present: true, skills: Vec::new() },
        central: vec![skill("plan", &doc("central", "Body"), NOW)],
    };
    let mut store = fresh_store(&cfg);
    let mut rec = fresh_recorder();
    let mut actions = Vec::new();
    let (_stats, _) = sync_skills_with_mode(
        &cfg,
        &listing,
        ExecutionMode::Apply,
        &mut store,
        &mut rec,
        &mut actions,
    );
    // the central copy is the winner and keeps its exact contents
    for a in &actions {
        if let WriteAction::ReplaceDir { path, .. } = a {
            assert_ne!(path.as_slice(), b"/t/central_skills/plan" as &[u8]);
        }
    }
}

#[test]
fn winner_is_independent_of_enumeration_order() {
    let a = read_markdown_variant(Tool::Helm, b("/a"), &b("one"), 5);
    let bb = read_markdown_variant(Tool::Codex, b("/b"), &b("two"), 9);
    let c = read_markdown_variant(Tool::Central, b("/c"), &b("three"), 7);
    let order1 = vec![
        read_markdown_variant(Tool::Helm, b("/a"), &b("one"), 5),
        read_markdown_variant(Tool::Codex, b("/b"), &b("two"), 9),
        read_markdown_variant(Tool::Central, b("/c"), &b("three"), 7),
    ];
    let order2 = vec![c, bb, a];
    let w1 = select_markdown_winner(&order1);
    let w2 = select_markdown_winner(&order2);
    assert_eq!(order1[w1].mtime, order2[w2].mtime);
    assert_eq!(order1[w1].path, order2[w2].path);
    assert_eq!(order1[w1].mtime, 9);
}

#[test]
fn sync_all_records_nothing_when_nothing_changes() {
    let cfg = make_config();
    let input = SyncInput {
        commands: CommandsListing {
            helm: empty_dir(),
            opencode: empty_dir(),
            codex: empty_dir(),
            central: Vec::new(),
        },
        skills: SkillsListing {
            helm: SkillsDirListing { present: true, skills: Vec::new() },
            opencode: SkillsDirListing { present: true, skills: Vec::new() },
            codex: SkillsDirListing { present: true, skills: Vec::new() },
            central: Vec::new(),
        },
        agents: empty_agents(),
        rules: RulesListing { codex_parent_exists: true, codex_file: None, central_file: None },
    };
    let mut store = fresh_store(&cfg);
    let outcome = sync_all_with_mode(
        &cfg,
        &input,
        ExecutionMode::Apply,
        b("sync"),
        1,
        EventId { nanos: 3, pid: 4 },
        &mut store,
    );
    assert!(outcome.report.commands.updated == 0);
    assert!(outcome.history_event_id.is_none());
    assert!(outcome.actions.is_empty());
    assert!(store.events.is_empty());
    assert!(store.blobs.is_empty());
}

#[test]
fn sync_skills_renders_required_block_for_new_target() {
    let cfg = make_config();
    let listing = SkillsListing {
        helm: SkillsDirListing { present: true, skills: Vec::new() },
        opencode: SkillsDirListing { present: true, skills: Vec::new() },
        codex: SkillsDirListing {
            present: true,
            skills: vec![skill("plan", &doc("codex", "Body"), NOW)],
        },
        central: Vec::new(),
    };
    let mut store = fresh_store(&cfg);
    let mut rec = fresh_recorder();
    let mut actions = Vec::new();
    sync_skills_with_mode(&cfg, &listing, ExecutionMode::Apply, &mut store, &mut rec, &mut actions);
    let mut saw_central = false;
    for a in &actions {
        if let WriteAction::ReplaceDir { path, files } = a {
            if path.as_slice() == b"/t/central_skills/plan" {
                saw_central = true;
                let md = files.iter().find(|f| f.rel.as_slice() == b"SKILL.md").unwrap();
                assert_eq!(body_of(&md.data), b("Body"));
                // a target created fresh gets the winner's required pair
                assert!(contains(&fm_of(&md.data), "name: codex"));
                assert!(contains(&fm_of(&md.data), "description: codex description"));
            }
        }
    }
    assert!(saw_central);
}
