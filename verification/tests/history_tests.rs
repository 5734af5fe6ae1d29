use relay::config::Config;
use relay::errors::ErrorKind;
use relay::fs::{Fs, FsNode};
use relay::history::{state_matches, EventId, HistoryRecorder, HistoryStore};

fn b(s: &str) -> Vec<u8> {
    s.as_bytes().to_vec()
}

fn make_config() -> Config {
    Config {
        enabled_tools: vec![b("codex")],
        verified_versions: Vec::new(),
        central_dir: b("/t/relay/commands"),
        central_skills_dir: b("/t/relay/skills"),
        central_agents_dir: b("/t/relay/agents"),
        central_rules_dir: b("/t/relay/rules"),
        helm_dir: b("/t/helm/commands"),
        helm_skills_dir: b("/t/helm/skills"),
        cursor_dir: b("/t/cursor/commands"),
        opencode_commands_dir: b("/t/opencode/command"),
        opencode_skills_dir: b("/t/opencode/skill"),
        opencode_agents_file: b("/t/opencode/AGENTS.md"),
        codex_dir: b("/t/codex/prompts"),
        codex_skills_dir: b("/t/codex/skills"),
        codex_rules_file: b("/t/codex/rules/default.rules"),
        codex_agents_file: b("/t/codex/AGENTS.md"),
    }
}

#[test]
fn store_root_sits_beside_central() {
    let store = HistoryStore::from_config(&make_config()).unwrap();
    assert_eq!(store.root, b("/t/relay/history"));
    assert_eq!(store.blobs_dir(), b("/t/relay/history/blobs"));
    assert_eq!(store.events_dir(), b("/t/relay/history/events"));
}

#[test]
fn blob_round_trips_and_deduplicates() {
    let mut store = HistoryStore::from_config(&make_config()).unwrap();
    let id1 = store.store_blob(b("payload").as_slice());
    let id2 = store.store_blob(b("payload").as_slice());
    assert_eq!(id1, id2);
    assert_eq!(store.blobs.len(), 1);
    assert_eq!(store.read_blob(&id1).unwrap(), b("payload"));
    let id3 = store.store_blob(b("other").as_slice());
    assert_ne!(id1, id3);
    assert_eq!(store.read_blob(&id3).unwrap(), b("other"));

    let missing = relay::history::BlobId { digest: 12345, suffix: 0 };
    assert_eq!(store.read_blob(&missing), Err(ErrorKind::NotFound));
}

#[test]
fn blob_paths_embed_digest_and_suffix() {
    let store = HistoryStore::from_config(&make_config()).unwrap();
    let plain = relay::history::BlobId { digest: 0xcbf29ce484222325, suffix: 0 };
    assert_eq!(
        store.blob_path(&plain),
        b("/t/relay/history/blobs/cbf29ce484222325")
    );
    let bumped = relay::history::BlobId { digest: 0xcbf29ce484222325, suffix: 2 };
    assert_eq!(
        store.blob_path(&bumped),
        b("/t/relay/history/blobs/cbf29ce484222325-2")
    );
    let ev = EventId { nanos: 123, pid: 45 };
    assert_eq!(store.event_path(&ev), b("/t/relay/history/events/123-45.toml"));
}

#[test]
fn recorder_and_rollback_for_file() {
    let cfg = make_config();
    let mut store = HistoryStore::from_config(&cfg).unwrap();
    let mut fs = Fs::new();
    let path = b("/t/relay/commands/test.md");
    fs.set(path.clone(), FsNode::File(b("before")));

    let mut recorder = HistoryRecorder::new(b("sync"), 1, EventId { nanos: 10, pid: 1 });
    let before = store.capture_path(&fs, path.as_slice());
    fs.set(path.clone(), FsNode::File(b("after")));
    let after = store.capture_path(&fs, path.as_slice());
    recorder.record_change(path.clone(), before, after);
    let event_id = recorder.finish(&mut store).expect("event id");

    let report = store
        .rollback(&mut fs, &event_id, false, 2, EventId { nanos: 20, pid: 1 })
        .unwrap();
    assert_eq!(report.target_event_id, event_id);
    assert_eq!(report.restored, 1);
    match fs.get(path.as_slice()) {
        Some(FsNode::File(data)) => assert_eq!(data, &b("before")),
        _ => panic!("expected the file back"),
    }
    // capturing again reports the very state recorded before the change
    let recaptured = store.capture_path(&fs, path.as_slice());
    assert!(state_matches(&recaptured, &before));
}

#[test]
fn rollback_refuses_changed_path_without_force() {
    let cfg = make_config();
    let mut store = HistoryStore::from_config(&cfg).unwrap();
    let mut fs = Fs::new();
    let path = b("/t/relay/commands/test.md");
    fs.set(path.clone(), FsNode::File(b("before")));

    let mut recorder = HistoryRecorder::new(b("sync"), 1, EventId { nanos: 10, pid: 1 });
    let before = store.capture_path(&fs, path.as_slice());
    fs.set(path.clone(), FsNode::File(b("after")));
    let after = store.capture_path(&fs, path.as_slice());
    recorder.record_change(path.clone(), before, after);
    let event_id = recorder.finish(&mut store).expect("event id");

    // the path moved on since the event
    fs.set(path.clone(), FsNode::File(b("drifted")));
    let refused = store.rollback(&mut fs, &event_id, false, 2, EventId { nanos: 20, pid: 1 });
    assert_eq!(refused.unwrap_err(), ErrorKind::AlreadyExists);
    match fs.get(path.as_slice()) {
        Some(FsNode::File(data)) => assert_eq!(data, &b("drifted")),
        _ => panic!("the refused rollback must not touch the picture"),
    }

    // forcing restores anyway
    let forced = store
        .rollback(&mut fs, &event_id, true, 3, EventId { nanos: 30, pid: 1 })
        .unwrap();
    assert_eq!(forced.restored, 1);
    match fs.get(path.as_slice()) {
        Some(FsNode::File(data)) => assert_eq!(data, &b("before")),
        _ => panic!("expected the file back"),
    }
}

#[test]
fn rollback_missing_event_is_not_found() {
    let cfg = make_config();
    let mut store = HistoryStore::from_config(&cfg).unwrap();
    let mut fs = Fs::new();
    let r = store.rollback(&mut fs, &EventId { nanos: 99, pid: 9 }, false, 1, EventId {
        nanos: 100,
        pid: 9,
    });
    assert_eq!(r.unwrap_err(), ErrorKind::NotFound);
}

#[test]
fn list_recent_returns_entries() {
    let cfg = make_config();
    let mut store = HistoryStore::from_config(&cfg).unwrap();
    let mut fs = Fs::new();
    let path = b("/t/relay/commands/test.md");
    fs.set(path.clone(), FsNode::File(b("before")));

    let mut recorder = HistoryRecorder::new(b("sync"), 1, EventId { nanos: 10, pid: 1 });
    let before = store.capture_path(&fs, path.as_slice());
    fs.set(path.clone(), FsNode::File(b("after")));
    let after = store.capture_path(&fs, path.as_slice());
    recorder.record_change(path.clone(), before, after);
    let _ = recorder.finish(&mut store);

    let recent = store.list_recent(10);
    assert_eq!(recent.len(), 1);
    assert_eq!(recent[0].writes, 1);
    assert_eq!(store.latest_event_id(), Some(EventId { nanos: 10, pid: 1 }));
}

#[test]
fn recorder_skips_unchanged_state() {
    let cfg = make_config();
    let mut store = HistoryStore::from_config(&cfg).unwrap();
    let mut fs = Fs::new();
    let path = b("/t/relay/commands/test.md");
    fs.set(path.clone(), FsNode::File(b("same")));
    let mut recorder = HistoryRecorder::new(b("sync"), 1, EventId { nanos: 10, pid: 1 });
    let a = store.capture_path(&fs, path.as_slice());
    let bb = store.capture_path(&fs, path.as_slice());
    recorder.record_change(path, a, bb);
    assert!(recorder.finish(&mut store).is_none());
    assert!(store.events.is_empty());
}

#[test]
fn rollback_restores_directories_from_snapshots() {
    let cfg = make_config();
    let mut store = HistoryStore::from_config(&cfg).unwrap();
    let mut fs = Fs::new();
    let path = b("/t/relay/skills/plan");
    let tree = vec![
        relay::codec::TreeFile { rel: b("SKILL.md"), data: b("skill") },
        relay::codec::TreeFile { rel: b("assets/a.txt"), data: b("x") },
    ];
    fs.set(path.clone(), FsNode::Tree(tree));

    let mut recorder = HistoryRecorder::new(b("sync"), 1, EventId { nanos: 10, pid: 1 });
    let before = store.capture_path(&fs, path.as_slice());
    fs.remove(path.as_slice());
    let after = store.capture_path(&fs, path.as_slice());
    recorder.record_change(path.clone(), before, after);
    let event_id = recorder.finish(&mut store).expect("event id");

    let report = store
        .rollback(&mut fs, &event_id, false, 2, EventId { nanos: 20, pid: 1 })
        .unwrap();
    assert_eq!(report.restored, 1);
    match fs.get(path.as_slice()) {
        Some(FsNode::Tree(files)) => {
            assert_eq!(files.len(), 2);
            assert!(files.iter().any(|f| f.rel == b("SKILL.md") && f.data == b("skill")));
            assert!(files.iter().any(|f| f.rel == b("assets/a.txt") && f.data == b("x")));
        },
        _ => panic!("expected the directory back"),
    }
}
