use relay::config::{expand_tilde, normalize_tools, normalize_versions, Config};
use relay::daemon::{
    escape_systemd, escape_xml, launchd_target, looks_like_not_running, render_launchd_plist,
    render_systemd_unit, service_name, watch_args, InstallWatchServiceOptions, ServiceManager,
};
use relay::errors::ErrorKind;
use relay::versions::{
    classify_version, extract_version_token, parse_version, version_mismatch, ParsedVersion,
    VersionStatus,
};
use relay::watch::{classify_origin, watch_origin};
use relay::versions::{check_versions, VersionProbe};
use relay::doc::parse_markdown;
use relay::history::{EventId, HistoryRecorder, HistoryStore};
use relay::sync::{update_markdown_target, ExecutionMode, WriteAction};

fn b(s: &str) -> Vec<u8> {
    s.as_bytes().to_vec()
}

fn contains(hay: &[u8], needle: &str) -> bool {
    let n = needle.as_bytes();
    if n.is_empty() {
        return true;
    }
    hay.windows(n.len()).any(|w| w == n)
}

fn make_config() -> Config {
    Config {
        enabled_tools: vec![b("helm"), b("codex"), b("opencode")],
        verified_versions: Vec::new(),
        central_dir: b("/t/central"),
        central_skills_dir: b("/t/central_skills"),
        central_agents_dir: b("/t/central_agents"),
        central_rules_dir: b("/t/central_rules"),
        helm_dir: b("/t/helm_commands"),
        helm_skills_dir: b("/t/helm_skills"),
        cursor_dir: b("/t/cursor"),
        opencode_commands_dir: b("/t/opencode_commands"),
        opencode_skills_dir: b("/t/opencode_skills"),
        opencode_agents_file: b("/t/opencode_agents/AGENTS.md"),
        codex_dir: b("/t/codex_prompts"),
        codex_skills_dir: b("/t/codex_skills"),
        codex_rules_file: b("/t/codex_rules/default.rules"),
        codex_agents_file: b("/t/codex_agents/AGENTS.md"),
    }
}

#[test]
fn normalize_tools_and_versions() {
    let tools = vec![b("Codex"), b("helm"), b("CODEX")];
    let normalized = normalize_tools(&tools);
    assert_eq!(normalized, vec![b("codex"), b("helm")]);

    let versions = vec![(b("CoDeX"), b("1.2.3"))];
    let normalized = normalize_versions(&versions);
    assert_eq!(normalized, vec![(b("codex"), b("1.2.3"))]);
}

#[test]
fn expand_tilde_no_prefix() {
    let expanded = expand_tilde(b("/tmp/plain").as_slice(), None).unwrap();
    assert_eq!(expanded, b("/tmp/plain"));
}

#[test]
fn expand_tilde_joins_home() {
    let home = b("/home/u");
    let expanded = expand_tilde(b("~/test").as_slice(), Some(&home)).unwrap();
    assert_eq!(expanded, b("/home/u/test"));
    assert_eq!(
        expand_tilde(b("~/missing").as_slice(), None),
        Err(ErrorKind::NotFound)
    );
}

#[test]
fn default_paths_lay_out_the_groups() {
    let cfg = Config::default_paths(b("/home/u").as_slice(), None, None, None, None);
    assert_eq!(cfg.central_dir, b("/home/u/.config/relay/commands"));
    assert_eq!(cfg.codex_dir, b("/home/u/.codex/prompts"));
    assert_eq!(cfg.opencode_commands_dir, b("/home/u/.config/opencode/command"));
    assert_eq!(cfg.opencode_agents_file, b("/home/u/.config/opencode/AGENTS.md"));
    let codex_home = b("/tmp/codex");
    let cfg = Config::default_paths(b("/home/u").as_slice(), Some(&codex_home), None, None, None);
    assert_eq!(cfg.codex_dir, b("/tmp/codex/prompts"));
}

#[test]
fn config_path_prefers_home() {
    let home = b("/home/u");
    let cdir = b("/xdg");
    assert_eq!(
        Config::config_path(Some(&home), None).unwrap(),
        b("/home/u/.config/relay/config.toml")
    );
    assert_eq!(
        Config::config_path(None, Some(&cdir)).unwrap(),
        b("/xdg/relay/config.toml")
    );
    assert_eq!(Config::config_path(None, None), Err(ErrorKind::NotFound));
}

#[test]
fn tool_queries_answer_from_the_lists() {
    let mut cfg = make_config();
    assert!(cfg.tool_enabled(b("codex").as_slice()));
    assert!(!cfg.tool_enabled(b("cursor").as_slice()));
    cfg.verified_versions.push((b("codex"), b("1.2.3")));
    assert_eq!(cfg.verified_version(b("CODEX").as_slice()), Some(b("1.2.3")));
    assert_eq!(cfg.verified_version(b("helm").as_slice()), None);
}

#[test]
fn launchd_plist_renders_expected_fields() {
    let args = vec![b("watch"), b("--quiet")];
    let env = vec![(b("RELAY_HOME"), b("/tmp/relay"))];
    let body = render_launchd_plist(
        b("/usr/local/bin/relay").as_slice(),
        &args,
        b("/tmp/watch.log").as_slice(),
        &env,
    );
    assert!(contains(&body, "<string>dev.jdblackstar.relay.watch</string>"));
    assert!(contains(&body, "<string>/usr/local/bin/relay</string>"));
    assert!(contains(&body, "<string>--quiet</string>"));
    assert!(contains(&body, "<key>EnvironmentVariables</key>"));
}

#[test]
fn systemd_unit_renders_execstart() {
    let args = vec![b("watch"), b("--debounce-ms"), b("400"), b("--quiet")];
    let body = render_systemd_unit(b("/usr/local/bin/relay").as_slice(), &args, &Vec::new());
    assert!(contains(
        &body,
        "ExecStart=\"/usr/local/bin/relay\" \"watch\" \"--debounce-ms\" \"400\" \"--quiet\""
    ));
    assert!(contains(&body, "Restart=always"));
    assert!(contains(&body, "WantedBy=default.target"));
}

#[test]
fn systemd_unit_escapes_percent_and_dollar() {
    let args = vec![b("watch"), b("--debug-log-file"), b("/tmp/relay%log$arg")];
    let env = vec![(b("RELAY_HOME"), b("/tmp/50%relay$home"))];
    let body = render_systemd_unit(b("/usr/local/bin/relay%bin$test").as_slice(), &args, &env);
    assert!(contains(
        &body,
        "ExecStart=\"/usr/local/bin/relay%%bin$$test\" \"watch\" \"--debug-log-file\" \"/tmp/relay%%log$$arg\""
    ));
    assert!(contains(&body, "Environment=\"RELAY_HOME=/tmp/50%%relay$$home\""));
}

#[test]
fn watch_args_include_requested_flags() {
    let args = watch_args(&InstallWatchServiceOptions {
        debounce_ms: 450,
        quiet: true,
        debug: true,
        debug_log_file: Some(b("/tmp/relay.log")),
    });
    assert_eq!(
        args,
        vec![
            b("watch"),
            b("--debounce-ms"),
            b("450"),
            b("--quiet"),
            b("--debug"),
            b("--debug-log-file"),
            b("/tmp/relay.log"),
        ]
    );
}

#[test]
fn escapes_cover_the_reserved_bytes() {
    assert_eq!(escape_xml(b("a<b>&\"'").as_slice()), b("a&lt;b&gt;&amp;&quot;&apos;"));
    assert_eq!(escape_systemd(b("%$\\\"x").as_slice()), b("%%$$\\\\\\\"x"));
}

#[test]
fn launchd_target_and_service_names() {
    assert_eq!(launchd_target(501), b("gui/501/dev.jdblackstar.relay.watch"));
    assert_eq!(service_name(ServiceManager::Launchd), b("dev.jdblackstar.relay.watch"));
    assert_eq!(service_name(ServiceManager::SystemdUser), b("relay-watch.service"));
    assert!(looks_like_not_running(b("Could Not Find Service xyz").as_slice()));
    assert!(!looks_like_not_running(b("all good").as_slice()));
}

#[test]
fn version_parsing_and_color() {
    let token = extract_version_token(b("codex 1.2.3").as_slice()).unwrap();
    assert_eq!(token, b("1.2.3"));
    let parsed = parse_version(token.as_slice()).unwrap();
    assert_eq!(parsed.major, 1);
    assert_eq!(parsed.minor, 2);
    let status = classify_version(parsed, ParsedVersion { major: 1, minor: 2 });
    assert_eq!(status, VersionStatus::Aligned);
    // colouring the token for display keeps the token text visible
    let colored = console::style(String::from_utf8_lossy(&token).into_owned())
        .green()
        .to_string();
    assert!(colored.contains("1.2.3"));
    let warn_colored = console::style(String::from_utf8_lossy(&token).into_owned())
        .yellow()
        .to_string();
    assert!(warn_colored.contains("1.2.3"));
    let old_colored = console::style(String::from_utf8_lossy(&token).into_owned())
        .red()
        .to_string();
    assert!(old_colored.contains("1.2.3"));

    assert!(extract_version_token(b("nope").as_slice()).is_none());
    assert!(parse_version(b("x.y").as_slice()).is_none());
    let token = extract_version_token(b("v1.2beta").as_slice()).unwrap();
    assert_eq!(token, b("1.2"));
    let status = classify_version(parsed, ParsedVersion { major: 1, minor: 3 });
    assert_eq!(status, VersionStatus::MinorDrift);
    let status = classify_version(parsed, ParsedVersion { major: 2, minor: 0 });
    assert_eq!(status, VersionStatus::MajorDrift);
}

#[test]
fn version_mismatch_compares_tokens() {
    let verified = b("1.2.3");
    let same = b("codex 1.2.9");
    assert!(!version_mismatch(Some(&verified), Some(&same)));
    let drift = b("codex 1.3.0");
    assert!(version_mismatch(Some(&verified), Some(&drift)));
    assert!(!version_mismatch(None, Some(&drift)));
    assert!(!version_mismatch(Some(&verified), None));
}

#[test]
fn watch_origin_marks_codex_path() {
    let cfg = make_config();
    let origin = watch_origin(&cfg, &vec![b("/t/codex_prompts/review.md")]);
    assert_eq!(origin, b("watch:codex:review.md"));
}

#[test]
fn watch_origin_falls_back_when_unrecognized() {
    let cfg = make_config();
    let origin = watch_origin(&cfg, &vec![b("/elsewhere/path.md")]);
    assert_eq!(origin, b("watch"));
}

#[test]
fn classify_origin_handles_roots_and_files() {
    let cfg = make_config();
    assert_eq!(
        classify_origin(&cfg, b("/t/central").as_slice()).unwrap(),
        b("watch:central")
    );
    assert_eq!(
        classify_origin(&cfg, b("/t/codex_agents/AGENTS.md").as_slice()).unwrap(),
        b("watch:codex_agents")
    );
    assert!(classify_origin(&cfg, b("/nowhere").as_slice()).is_none());
}

#[test]
fn tool_paths_and_detection() {
    let cfg = make_config();
    let line = relay::tools::tool_expected_paths(&cfg, b("codex").as_slice()).unwrap();
    assert!(contains(&line, "Codex CLI"));
    assert!(contains(&line, "/t/codex_prompts"));
    assert!(contains(&line, "/t/codex_rules/default.rules"));
    assert!(relay::tools::tool_expected_paths(&cfg, b("unknown").as_slice()).is_none());

    let existing = vec![b("/t/codex_prompts")];
    assert!(relay::tools::tool_detected(&cfg, b("codex").as_slice(), &existing));
    assert!(!relay::tools::tool_detected(&cfg, b("helm").as_slice(), &existing));
    assert!(!relay::tools::tool_detected(&cfg, b("unknown").as_slice(), &existing));
}

#[test]
fn check_versions_runs() {
    let mut cfg = make_config();
    cfg.verified_versions.push((b("codex"), b("1.2")));
    let probes = vec![VersionProbe {
        tool: b("codex"),
        detected: true,
        reported: Some(b("codex 1.2.7")),
    }];
    assert!(!check_versions(&cfg, &probes));
    let probes = vec![VersionProbe {
        tool: b("codex"),
        detected: true,
        reported: Some(b("codex 2.0.0")),
    }];
    assert!(check_versions(&cfg, &probes));
    cfg.enabled_tools.clear();
    assert!(!check_versions(&cfg, &probes));
}

#[test]
fn frontmatter_preservation_scenario() {
    let cfg = make_config();
    let source = parse_markdown(b("---\nname: source\ndescription: d\n---\nNew"));
    let target = parse_markdown(b("---\nname: target\ndescription: old\nextra: keep\n---\nOld"));
    let mut store = HistoryStore::from_config(&cfg).unwrap();
    let mut rec = HistoryRecorder::new(b("sync"), 0, EventId { nanos: 1, pid: 1 });
    let mut actions = Vec::new();
    let updated = update_markdown_target(
        &source,
        Some(&target),
        b("/t/helm_commands/x.md").as_slice(),
        true,
        ExecutionMode::Apply,
        &mut store,
        &mut rec,
        &mut actions,
    );
    assert!(updated);
    match &actions[0] {
        WriteAction::WriteFile { content, .. } => {
            assert!(contains(content, "name: source"));
            assert!(contains(content, "description: d"));
            assert!(contains(content, "extra: keep"));
            assert!(!contains(content, "description: old"));
            let (_fm, body) = relay::doc::split_frontmatter(content.as_slice());
            assert_eq!(body, b("New"));
        },
        _ => panic!("expected a file write"),
    }
}
