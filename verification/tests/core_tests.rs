use relay::codec::{decode_dir_snapshot, encode_dir_snapshot, sort_tree_files, TreeFile};
use relay::doc::{
    merge_frontmatter, parse_required_frontmatter, render_required_frontmatter,
    select_frontmatter_for_target, split_frontmatter, upsert_required_frontmatter, parse_markdown,
};
use relay::errors::ErrorKind;
use relay::hash::{hash_bytes, hash_hex};

fn b(s: &str) -> Vec<u8> {
    s.as_bytes().to_vec()
}

fn contains(hay: &[u8], needle: &str) -> bool {
    let n = needle.as_bytes();
    if n.is_empty() {
        return true;
    }
    hay.windows(n.len()).any(|w| w == n)
}

#[test]
fn merge_and_split_frontmatter() {
    let merged = merge_frontmatter(Some(&b("---\nname: x\n---\n")), b("Body").as_slice());
    assert!(contains(&merged, "Body"));
    let merged = merge_frontmatter(None, b("Body").as_slice());
    assert_eq!(merged, b("Body"));

    let (frontmatter, body) = split_frontmatter(b("").as_slice());
    assert!(frontmatter.is_none());
    assert_eq!(body, b(""));

    let (frontmatter, body) = split_frontmatter(b("No frontmatter").as_slice());
    assert!(frontmatter.is_none());
    assert_eq!(body, b("No frontmatter"));

    let (frontmatter, body) = split_frontmatter(b("---\nname: x\nBody").as_slice());
    assert!(frontmatter.is_none());
    assert_eq!(body, b("---\nname: x\nBody"));
}

#[test]
fn split_frontmatter_finds_block() {
    let raw = b("---\nname: x\n---\nBody");
    let (frontmatter, body) = split_frontmatter(raw.as_slice());
    assert_eq!(frontmatter, Some(b("---\nname: x\n---\n")));
    assert_eq!(body, b("Body"));
    let mut rebuilt = frontmatter.unwrap();
    rebuilt.extend_from_slice(&body);
    assert_eq!(rebuilt, raw);
}

#[test]
fn parse_required_accepts_and_rejects() {
    let fm = b("---\nname: a\ndescription: d\n---\n");
    let req = parse_required_frontmatter(Some(&fm)).unwrap();
    assert_eq!(req.name, b("a"));
    assert_eq!(req.description, b("d"));

    assert!(parse_required_frontmatter(Some(&b("---\nname: a\n---\n"))).is_none());
    assert!(parse_required_frontmatter(Some(&b("---\nname:\ndescription: d\n---\n"))).is_none());
    assert!(parse_required_frontmatter(Some(&b("---\nname: a\ndescription: d\n"))).is_none());
    assert!(parse_required_frontmatter(None).is_none());
}

#[test]
fn upsert_rewrites_in_place() {
    let fm = b("---\nname: target\ndescription: old\nextra: keep\n---\n");
    let req = parse_required_frontmatter(Some(&b("---\nname: source\ndescription: d\n---\n")))
        .unwrap();
    let updated = upsert_required_frontmatter(&fm, &req).unwrap();
    assert!(contains(&updated, "name: source"));
    assert!(contains(&updated, "description: d"));
    assert!(contains(&updated, "extra: keep"));
    assert!(!contains(&updated, "name: target"));
}

#[test]
fn select_frontmatter_for_new_target_uses_required_fields() {
    let source = parse_markdown(b("---\nname: source\ndescription: source desc\n---\nBody"));
    let (selected, warned) = select_frontmatter_for_target(&source, None, true);
    assert!(contains(&selected.unwrap_or_default(), "name: source"));
    assert!(!warned);
}

#[test]
fn render_required_is_minimal_block() {
    let req = parse_required_frontmatter(Some(&b("---\nname: n\ndescription: d\n---\n")))
        .unwrap();
    let block = render_required_frontmatter(&req);
    assert_eq!(block, b("---\nname: n\ndescription: d\n---\n"));
}

#[test]
fn snapshot_round_trips_bytes() {
    let files = vec![
        TreeFile { rel: b("SKILL.md"), data: b("hello") },
        TreeFile { rel: b("assets/logo.txt"), data: vec![0u8, 1, 2, 255] },
    ];
    let encoded = encode_dir_snapshot(&files);
    assert_eq!(&encoded[0..5], b("RLYD1").as_slice());
    let decoded = decode_dir_snapshot(encoded.as_slice()).unwrap();
    assert_eq!(decoded.len(), 2);
    assert_eq!(decoded[0].rel, b("SKILL.md"));
    assert_eq!(decoded[0].data, b("hello"));
    assert_eq!(decoded[1].rel, b("assets/logo.txt"));
    assert_eq!(decoded[1].data, vec![0u8, 1, 2, 255]);
}

#[test]
fn snapshot_rejects_bad_magic_and_truncation() {
    assert!(matches!(decode_dir_snapshot(b("").as_slice()), Err(ErrorKind::InvalidData)));
    assert!(matches!(
        decode_dir_snapshot(b("NOTRL\x01\x00\x00\x00").as_slice()),
        Err(ErrorKind::InvalidData)
    ));
    let files = vec![TreeFile { rel: b("a"), data: b("bb") }];
    let mut encoded = encode_dir_snapshot(&files);
    encoded.pop();
    assert!(matches!(decode_dir_snapshot(encoded.as_slice()), Err(ErrorKind::InvalidData)));
}

#[test]
fn snapshot_rejects_non_utf8_paths() {
    // a record whose relative path is the lone byte 0xff must not decode
    let mut encoded = b("RLYD1");
    encoded.extend_from_slice(&1u32.to_le_bytes());
    encoded.extend_from_slice(&1u32.to_le_bytes());
    encoded.push(0xff);
    encoded.extend_from_slice(&0u64.to_le_bytes());
    assert!(matches!(decode_dir_snapshot(encoded.as_slice()), Err(ErrorKind::InvalidData)));
}

#[test]
fn snapshot_is_order_insensitive_after_sorting() {
    let unordered = vec![
        TreeFile { rel: b("b.txt"), data: b("2") },
        TreeFile { rel: b("a.txt"), data: b("1") },
        TreeFile { rel: b("c/d.txt"), data: b("3") },
    ];
    let ordered = vec![
        TreeFile { rel: b("a.txt"), data: b("1") },
        TreeFile { rel: b("b.txt"), data: b("2") },
        TreeFile { rel: b("c/d.txt"), data: b("3") },
    ];
    let enc1 = encode_dir_snapshot(&sort_tree_files(unordered));
    let enc2 = encode_dir_snapshot(&sort_tree_files(ordered));
    assert_eq!(enc1, enc2);
}

#[test]
fn digest_is_stable_and_hex_rendered() {
    let empty = hash_bytes(b("").as_slice());
    assert_eq!(empty, 0xcbf29ce484222325);
    assert_eq!(hash_hex(empty), b("cbf29ce484222325"));
    assert_ne!(hash_bytes(b("a").as_slice()), hash_bytes(b("b").as_slice()));
}
