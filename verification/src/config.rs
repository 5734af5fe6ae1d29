//! The resolved configuration: one group of paths per tool, the central
//! groups, and the set of enabled tool identifiers.  Paths are byte strings;
//! resolving environment values and reading the configuration file happen
//! outside the library, which only computes with the results.

use vstd::prelude::*;

verus! {

use vstd::string::StringSliceAdditionalSpecFns;
use crate::errors::ErrorKind;
use crate::text::{
    joined_path, path_join, lit, trim, trim_seq, lower_seq, lower_bytes, lex_le, bytes_eq,
    bytes_le, starts_with, is_prefix_of, subrange_vec, clone_of,
};

/// The identifier of the `helm` tool.
pub open spec fn tool_helm() -> Seq<u8> {
    "helm".spec_bytes()
}

/// The identifier of the `codex` tool.
pub open spec fn tool_codex() -> Seq<u8> {
    "codex".spec_bytes()
}

/// The identifier of the `cursor` tool.
pub open spec fn tool_cursor() -> Seq<u8> {
    "cursor".spec_bytes()
}

/// The identifier of the `opencode` tool.
pub open spec fn tool_opencode() -> Seq<u8> {
    "opencode".spec_bytes()
}

pub fn tool_helm_id() -> (r: Vec<u8>)
    ensures
        r@ == tool_helm(),
{
    lit("helm")
}

pub fn tool_codex_id() -> (r: Vec<u8>)
    ensures
        r@ == tool_codex(),
{
    lit("codex")
}

pub fn tool_cursor_id() -> (r: Vec<u8>)
    ensures
        r@ == tool_cursor(),
{
    lit("cursor")
}

pub fn tool_opencode_id() -> (r: Vec<u8>)
    ensures
        r@ == tool_opencode(),
{
    lit("opencode")
}

/// The resolved path groups and the enabled-tool set.
pub struct Config {
    pub enabled_tools: Vec<Vec<u8>>,
    pub verified_versions: Vec<(Vec<u8>, Vec<u8>)>,
    pub central_dir: Vec<u8>,
    pub central_skills_dir: Vec<u8>,
    pub central_agents_dir: Vec<u8>,
    pub central_rules_dir: Vec<u8>,
    pub helm_dir: Vec<u8>,
    pub helm_skills_dir: Vec<u8>,
    pub cursor_dir: Vec<u8>,
    pub opencode_commands_dir: Vec<u8>,
    pub opencode_skills_dir: Vec<u8>,
    pub opencode_agents_file: Vec<u8>,
    pub codex_dir: Vec<u8>,
    pub codex_skills_dir: Vec<u8>,
    pub codex_rules_file: Vec<u8>,
    pub codex_agents_file: Vec<u8>,
}

/// Whether a list of byte strings holds `x`.
pub open spec fn list_has(list: Seq<Vec<u8>>, x: Seq<u8>) -> bool {
    exists|i: int| 0 <= i < list.len() && (#[trigger] list[i])@ == x
}

/// The first value stored under `key`.
pub open spec fn kv_get(pairs: Seq<(Vec<u8>, Vec<u8>)>, key: Seq<u8>) -> Option<Seq<u8>>
    decreases pairs.len(),
{
    if pairs.len() == 0 {
        None
    } else if pairs.first().0@ == key {
        Some(pairs.first().1@)
    } else {
        kv_get(pairs.drop_first(), key)
    }
}

impl Config {
    /// Whether a tool identifier is enabled.
    pub fn tool_enabled(&self, tool: &[u8]) -> (r: bool)
        ensures
            r == list_has(self.enabled_tools@, tool@),
    {
        let mut i: usize = 0;
        while i < self.enabled_tools.len()
            invariant
                i <= self.enabled_tools@.len(),
                forall|j: int| 0 <= j < i ==> (#[trigger] self.enabled_tools@[j])@ != tool@,
            decreases self.enabled_tools@.len() - i,
        {
            if bytes_eq(self.enabled_tools[i].as_slice(), tool) {
                return true;
            }
            i = i + 1;
        }
        false
    }

    /// The version this tool was verified against, keyed case-insensitively.
    pub fn verified_version(&self, tool: &[u8]) -> (r: Option<Vec<u8>>)
        ensures
            match r {
                Some(v) => kv_get(self.verified_versions@, lower_seq(tool@)) == Some(v@),
                None => kv_get(self.verified_versions@, lower_seq(tool@)) is None,
            },
    {
        let key: Vec<u8> = lower_bytes(tool);
        let mut i: usize = 0;
        proof {
            assert(self.verified_versions@.skip(0) =~= self.verified_versions@);
        }
        while i < self.verified_versions.len()
            invariant
                i <= self.verified_versions@.len(),
                key@ == lower_seq(tool@),
                kv_get(self.verified_versions@, key@) == kv_get(
                    self.verified_versions@.skip(i as int),
                    key@,
                ),
            decreases self.verified_versions@.len() - i,
        {
            proof {
                assert(self.verified_versions@.skip(i as int).first()
                    == self.verified_versions@[i as int]);
                assert(self.verified_versions@.skip(i as int).drop_first() =~= self
                    .verified_versions@.skip(i + 1));
            }
            if bytes_eq(self.verified_versions[i].0.as_slice(), key.as_slice()) {
                return Some(clone_of(&self.verified_versions[i].1));
            }
            i = i + 1;
        }
        None
    }

    /// The default configuration under a home directory, with optional
    /// overrides for each tool's root.
    pub fn default_paths(
        home: &[u8],
        codex_env: Option<&Vec<u8>>,
        helm_env: Option<&Vec<u8>>,
        cursor_env: Option<&Vec<u8>>,
        opencode_env: Option<&Vec<u8>>,
    ) -> (r: Config)
        ensures
            r.enabled_tools@.len() == 4,
            r.enabled_tools@[0]@ == tool_helm(),
            r.enabled_tools@[1]@ == tool_codex(),
            r.enabled_tools@[2]@ == tool_cursor(),
            r.enabled_tools@[3]@ == tool_opencode(),
            r.verified_versions@.len() == 0,
            r.central_dir@ == joined_path(home@, ".config/relay/commands".spec_bytes()),
            r.central_skills_dir@ == joined_path(home@, ".config/relay/skills".spec_bytes()),
            r.central_agents_dir@ == joined_path(home@, ".config/relay/agents".spec_bytes()),
            r.central_rules_dir@ == joined_path(home@, ".config/relay/rules".spec_bytes()),
            r.helm_dir@ == joined_path(
                spec_resolve_tool_home(home@, crate::doc::opt_view(helm_env), ".helm".spec_bytes()),
                "commands".spec_bytes(),
            ),
            r.helm_skills_dir@ == joined_path(
                spec_resolve_tool_home(home@, crate::doc::opt_view(helm_env), ".helm".spec_bytes()),
                "skills".spec_bytes(),
            ),
            r.cursor_dir@ == joined_path(
                spec_resolve_tool_home(home@, crate::doc::opt_view(cursor_env), ".cursor".spec_bytes()),
                "commands".spec_bytes(),
            ),
            r.opencode_commands_dir@ == joined_path(
                spec_resolve_tool_home(
                    home@,
                    crate::doc::opt_view(opencode_env),
                    ".config/opencode".spec_bytes(),
                ),
                "command".spec_bytes(),
            ),
            r.opencode_skills_dir@ == joined_path(
                spec_resolve_tool_home(
                    home@,
                    crate::doc::opt_view(opencode_env),
                    ".config/opencode".spec_bytes(),
                ),
                "skill".spec_bytes(),
            ),
            r.opencode_agents_file@ == joined_path(
                spec_resolve_tool_home(
                    home@,
                    crate::doc::opt_view(opencode_env),
                    ".config/opencode".spec_bytes(),
                ),
                "AGENTS.md".spec_bytes(),
            ),
            r.codex_dir@ == joined_path(
                spec_resolve_tool_home(home@, crate::doc::opt_view(codex_env), ".codex".spec_bytes()),
                "prompts".spec_bytes(),
            ),
            r.codex_skills_dir@ == joined_path(
                spec_resolve_tool_home(home@, crate::doc::opt_view(codex_env), ".codex".spec_bytes()),
                "skills".spec_bytes(),
            ),
            r.codex_rules_file@ == joined_path(
                spec_resolve_tool_home(home@, crate::doc::opt_view(codex_env), ".codex".spec_bytes()),
                "rules/default.rules".spec_bytes(),
            ),
            r.codex_agents_file@ == joined_path(
                spec_resolve_tool_home(home@, crate::doc::opt_view(codex_env), ".codex".spec_bytes()),
                "AGENTS.md".spec_bytes(),
            ),
    {
        let codex_root: Vec<u8> = resolve_tool_home(home, codex_env, ".codex");
        let helm_root: Vec<u8> = resolve_tool_home(home, helm_env, ".helm");
        let cursor_root: Vec<u8> = resolve_tool_home(home, cursor_env, ".cursor");
        let opencode_root: Vec<u8> = resolve_tool_home(home, opencode_env, ".config/opencode");
        let mut enabled: Vec<Vec<u8>> = Vec::new();
        enabled.push(tool_helm_id());
        enabled.push(tool_codex_id());
        enabled.push(tool_cursor_id());
        enabled.push(tool_opencode_id());
        Config {
            enabled_tools: enabled,
            verified_versions: Vec::new(),
            central_dir: path_join(home, lit(".config/relay/commands").as_slice()),
            central_skills_dir: path_join(home, lit(".config/relay/skills").as_slice()),
            central_agents_dir: path_join(home, lit(".config/relay/agents").as_slice()),
            central_rules_dir: path_join(home, lit(".config/relay/rules").as_slice()),
            helm_dir: path_join(helm_root.as_slice(), lit("commands").as_slice()),
            helm_skills_dir: path_join(helm_root.as_slice(), lit("skills").as_slice()),
            cursor_dir: path_join(cursor_root.as_slice(), lit("commands").as_slice()),
            opencode_commands_dir: path_join(opencode_root.as_slice(), lit("command").as_slice()),
            opencode_skills_dir: path_join(opencode_root.as_slice(), lit("skill").as_slice()),
            opencode_agents_file: path_join(opencode_root.as_slice(), lit("AGENTS.md").as_slice()),
            codex_dir: path_join(codex_root.as_slice(), lit("prompts").as_slice()),
            codex_skills_dir: path_join(codex_root.as_slice(), lit("skills").as_slice()),
            codex_rules_file: path_join(codex_root.as_slice(), lit("rules/default.rules").as_slice()),
            codex_agents_file: path_join(codex_root.as_slice(), lit("AGENTS.md").as_slice()),
        }
    }

    /// Where the configuration file lives: under the home directory when one
    /// is known, else under the platform configuration directory.
    pub fn config_path(home: Option<&Vec<u8>>, config_dir: Option<&Vec<u8>>) -> (r: Result<
        Vec<u8>,
        ErrorKind,
    >)
        ensures
            match r {
                Ok(p) => match crate::doc::opt_view(home) {
                    Some(h) => p@ == joined_path(h, ".config/relay/config.toml".spec_bytes()),
                    None => match crate::doc::opt_view(config_dir) {
                        Some(c) => p@ == joined_path(c, "relay/config.toml".spec_bytes()),
                        None => false,
                    },
                },
                Err(e) => e == ErrorKind::NotFound && home is None && config_dir is None,
            },
    {
        match home {
            Some(h) => Ok(path_join(h.as_slice(), lit(".config/relay/config.toml").as_slice())),
            None => Self::legacy_config_path(config_dir),
        }
    }

    /// The pre-home configuration location, under the platform configuration
    /// directory.
    pub fn legacy_config_path(config_dir: Option<&Vec<u8>>) -> (r: Result<Vec<u8>, ErrorKind>)
        ensures
            match r {
                Ok(p) => match crate::doc::opt_view(config_dir) {
                    Some(c) => p@ == joined_path(c, "relay/config.toml".spec_bytes()),
                    None => false,
                },
                Err(e) => e == ErrorKind::NotFound && config_dir is None,
            },
    {
        match config_dir {
            Some(c) => Ok(path_join(c.as_slice(), lit("relay/config.toml").as_slice())),
            None => Err(ErrorKind::NotFound),
        }
    }
}

/// A tool's root: the override when one is set and non-blank (`~` meaning
/// the home directory, `~/x` relative to it), else the default under home.
pub open spec fn spec_resolve_tool_home(
    home: Seq<u8>,
    env: Option<Seq<u8>>,
    default_suffix: Seq<u8>,
) -> Seq<u8> {
    match env {
        Some(raw) => {
            let t = trim_seq(raw);
            if t.len() == 0 {
                joined_path(home, default_suffix)
            } else if t == "~".spec_bytes() {
                home
            } else if is_prefix_of("~/".spec_bytes(), t) {
                joined_path(home, t.skip("~/".spec_bytes().len() as int))
            } else {
                t
            }
        },
        None => joined_path(home, default_suffix),
    }
}

/// Resolve a tool's root directory from an optional override value.
pub fn resolve_tool_home(home: &[u8], env: Option<&Vec<u8>>, default_suffix: &str) -> (r: Vec<u8>)
    ensures
        r@ == spec_resolve_tool_home(home@, crate::doc::opt_view(env), default_suffix.spec_bytes()),
{
    let suffix: Vec<u8> = lit(default_suffix);
    match env {
        Some(raw) => {
            let t: Vec<u8> = trim(raw.as_slice());
            let tilde: Vec<u8> = lit("~");
            let tilde_slash: Vec<u8> = lit("~/");
            if t.len() == 0 {
                path_join(home, suffix.as_slice())
            } else if bytes_eq(t.as_slice(), tilde.as_slice()) {
                subrange_vec(home, 0, home.len())
            } else if starts_with(t.as_slice(), tilde_slash.as_slice()) {
                let rest: Vec<u8> = subrange_vec(t.as_slice(), tilde_slash.len(), t.len());
                proof {
                    assert(rest@ =~= t@.skip("~/".spec_bytes().len() as int));
                    assert(home@.subrange(0, home@.len() as int) =~= home@);
                }
                path_join(home, rest.as_slice())
            } else {
                proof {
                    assert(home@.subrange(0, home@.len() as int) =~= home@);
                }
                t
            }
        },
        None => path_join(home, suffix.as_slice()),
    }
}

/// Expand a leading `~/` against the home directory; other inputs pass
/// through unchanged.
pub fn expand_tilde(input: &[u8], home: Option<&Vec<u8>>) -> (r: Result<Vec<u8>, ErrorKind>)
    ensures
        match r {
            Ok(p) => {
                if is_prefix_of("~/".spec_bytes(), input@) {
                    match crate::doc::opt_view(home) {
                        Some(h) => p@ == joined_path(h, input@.skip("~/".spec_bytes().len() as int)),
                        None => false,
                    }
                } else {
                    p@ == input@
                }
            },
            Err(e) => e == ErrorKind::NotFound && is_prefix_of("~/".spec_bytes(), input@) && home
                is None,
        },
{
    let tilde_slash: Vec<u8> = lit("~/");
    if starts_with(input, tilde_slash.as_slice()) {
        match home {
            Some(h) => {
                let rest: Vec<u8> = subrange_vec(input, tilde_slash.len(), input.len());
                proof {
                    assert(rest@ =~= input@.skip("~/".spec_bytes().len() as int));
                }
                Ok(path_join(h.as_slice(), rest.as_slice()))
            },
            None => Err(ErrorKind::NotFound),
        }
    } else {
        Ok(subrange_vec(input, 0, input.len()))
    }
}

/// Lower-case every tool identifier, order them, and drop duplicates.
pub fn normalize_tools(tools: &Vec<Vec<u8>>) -> (r: Vec<Vec<u8>>)
    ensures
        forall|i: int, j: int| 0 <= i < j < r@.len() ==> lex_le((#[trigger] r@[i])@, (#[trigger] r@[j])@),
        forall|i: int, j: int| 0 <= i < j < r@.len() ==> (#[trigger] r@[i])@ != (#[trigger] r@[j])@,
        forall|i: int|
            0 <= i < r@.len() ==> exists|k: int|
                0 <= k < tools@.len() && (#[trigger] r@[i])@ == lower_seq((#[trigger] tools@[k])@),
        forall|k: int|
            0 <= k < tools@.len() ==> list_has(r@, lower_seq((#[trigger] tools@[k])@)),
{
    let mut lowered: Vec<Vec<u8>> = Vec::new();
    let mut i: usize = 0;
    while i < tools.len()
        invariant
            i <= tools@.len(),
            lowered@.len() == i,
            forall|j: int| 0 <= j < i ==> (#[trigger] lowered@[j])@ == lower_seq(tools@[j]@),
        decreases tools@.len() - i,
    {
        lowered.push(lower_bytes(tools[i].as_slice()));
        i = i + 1;
    }
    let ghost lv = Seq::new(lowered@.len(), |k: int| lowered@[k]@);
    let ghost lseq = Seq::new(tools@.len(), |k: int| lower_seq(tools@[k]@));
    proof {
        assert(lv =~= lseq);
    }
    let sorted: Vec<Vec<u8>> = sort_names(lowered);
    proof {
        assert(Seq::new(sorted@.len(), |k: int| sorted@[k]@).to_multiset() == lseq.to_multiset());
    }
    let mut out: Vec<Vec<u8>> = Vec::new();
    let mut m: usize = 0;
    while m < sorted.len()
        invariant
            m <= sorted@.len(),
            forall|i2: int, j2: int|
                0 <= i2 < j2 < sorted@.len() ==> lex_le(
                    (#[trigger] sorted@[i2])@,
                    (#[trigger] sorted@[j2])@,
                ),
            forall|i2: int, j2: int|
                0 <= i2 < j2 < out@.len() ==> lex_le((#[trigger] out@[i2])@, (#[trigger] out@[j2])@),
            forall|i2: int, j2: int|
                0 <= i2 < j2 < out@.len() ==> (#[trigger] out@[i2])@ != (#[trigger] out@[j2])@,
            forall|i2: int|
                0 <= i2 < out@.len() ==> exists|k: int|
                    0 <= k < sorted@.len() && (#[trigger] out@[i2])@ == (sorted@[k])@,
            forall|k: int| 0 <= k < m ==> list_has(out@, (#[trigger] sorted@[k])@),
            m > 0 ==> out@.len() > 0 && (out@[out@.len() - 1])@ == (sorted@[m - 1])@,
            out@.len() > 0 ==> m > 0,
        decreases sorted@.len() - m,
    {
        let ghost out0 = out@;
        let take: bool = if out.len() == 0 {
            true
        } else {
            !bytes_eq(out[out.len() - 1].as_slice(), sorted[m].as_slice())
        };
        if take {
            proof {
                if out@.len() > 0 {
                    assert(lex_le(out@[out@.len() - 1]@, sorted@[m as int]@));
                    assert forall|i2: int| 0 <= i2 < out@.len() implies lex_le(
                        (#[trigger] out@[i2])@,
                        sorted@[m as int]@,
                    ) && (out@[i2])@ != sorted@[m as int]@ by {
                        if i2 < out@.len() - 1 {
                            crate::text::lemma_lex_le_trans(
                                out@[i2]@,
                                out@[out@.len() - 1]@,
                                sorted@[m as int]@,
                            );
                        }
                        if (out@[i2])@ == sorted@[m as int]@ {
                            crate::text::lemma_lex_le_total(out@[i2]@, out@[out@.len() - 1]@);
                            assert(out@[i2]@ == out@[out@.len() - 1]@);
                            assert(false);
                        }
                    }
                }
            }
            out.push(clone_of(&sorted[m]));
        }
        proof {
            assert forall|k: int| 0 <= k < m + 1 implies list_has(out@, (#[trigger] sorted@[k])@)
                by {
                if k < m {
                    let ghost sk = sorted@[k];
                    let w = choose|w: int| 0 <= w < out0.len() && (#[trigger] out0[w])@ == sk@;
                    assert((out@[w])@ == sorted@[k]@);
                } else {
                    assert((out@[out@.len() - 1])@ == sorted@[m as int]@);
                }
            }
            assert forall|i2: int| 0 <= i2 < out@.len() implies exists|k: int|
                0 <= k < sorted@.len() && (#[trigger] out@[i2])@ == (sorted@[k])@ by {
                if i2 < out0.len() {
                    let k = choose|k: int|
                        0 <= k < sorted@.len() && (#[trigger] out0[i2])@ == (sorted@[k])@;
                    assert((out@[i2])@ == (sorted@[k])@);
                } else {
                    assert((out@[i2])@ == (sorted@[m as int])@);
                }
            }
        }
        m = m + 1;
    }
    proof {
        assert forall|i2: int| 0 <= i2 < out@.len() implies exists|k: int|
            0 <= k < tools@.len() && (#[trigger] out@[i2])@ == lower_seq(
                (#[trigger] tools@[k])@,
            ) by {
            let k0 = choose|k0: int|
                0 <= k0 < sorted@.len() && ((out@[i2])@ == (#[trigger] sorted@[k0])@);
            lemma_names_multiset_membership(sorted@, lseq, k0);
            let k1 = choose|k1: int| 0 <= k1 < lseq.len() && lseq[k1] == (#[trigger] sorted@[k0])@;
            assert((out@[i2])@ == lower_seq(tools@[k1]@));
        }
        assert forall|k: int| 0 <= k < tools@.len() implies list_has(
            out@,
            lower_seq((#[trigger] tools@[k])@),
        ) by {
            lemma_names_multiset_membership_rev(sorted@, lseq, k);
            let k2 = choose|k2: int| 0 <= k2 < sorted@.len() && (#[trigger] sorted@[k2])@ == lseq[k];
            assert(list_has(out@, sorted@[k2]@));
            assert(lseq[k] == lower_seq(tools@[k]@));
        }
    }
    out
}

/// Members of the sorted list come from the lowered list and back: the two
/// hold the same multiset of byte strings.
pub proof fn lemma_names_multiset_membership(sorted: Seq<Vec<u8>>, lseq: Seq<Seq<u8>>, k0: int)
    requires
        Seq::new(sorted.len(), |k: int| sorted[k]@).to_multiset() == lseq.to_multiset(),
        0 <= k0 < sorted.len(),
    ensures
        exists|k1: int| 0 <= k1 < lseq.len() && lseq[k1] == (#[trigger] sorted[k0])@,
{
    broadcast use vstd::seq_lib::group_to_multiset_ensures;

    let sv = Seq::new(sorted.len(), |k: int| sorted[k]@);
    assert(sv[k0] == sorted[k0]@);
    assert(sv.contains(sorted[k0]@));
    assert(sv.to_multiset().count(sorted[k0]@) > 0);
    assert(lseq.to_multiset().count(sorted[k0]@) > 0);
    assert(lseq.contains(sorted[k0]@));
    let k1 = choose|k1: int| 0 <= k1 < lseq.len() && lseq[k1] == sorted[k0]@;
    assert(0 <= k1 < lseq.len() && lseq[k1] == sorted[k0]@);
}

pub proof fn lemma_names_multiset_membership_rev(sorted: Seq<Vec<u8>>, lseq: Seq<Seq<u8>>, k: int)
    requires
        Seq::new(sorted.len(), |k: int| sorted[k]@).to_multiset() == lseq.to_multiset(),
        0 <= k < lseq.len(),
    ensures
        exists|k2: int| 0 <= k2 < sorted.len() && (#[trigger] sorted[k2])@ == lseq[k],
{
    broadcast use vstd::seq_lib::group_to_multiset_ensures;

    let sv = Seq::new(sorted.len(), |k2: int| sorted[k2]@);
    assert(lseq.contains(lseq[k]));
    assert(lseq.to_multiset().count(lseq[k]) > 0);
    assert(sv.to_multiset().count(lseq[k]) > 0);
    assert(sv.contains(lseq[k]));
    let k2 = choose|k2: int| 0 <= k2 < sv.len() && sv[k2] == lseq[k];
    assert(sorted[k2]@ == lseq[k]);
}

/// Order byte strings, keeping every one of them.
pub fn sort_names(names: Vec<Vec<u8>>) -> (r: Vec<Vec<u8>>)
    ensures
        r@.len() == names@.len(),
        Seq::new(r@.len(), |k: int| r@[k]@).to_multiset() == Seq::new(
            names@.len(),
            |k: int| names@[k]@,
        ).to_multiset(),
        forall|i: int, j: int| 0 <= i < j < r@.len() ==> lex_le((#[trigger] r@[i])@, (#[trigger] r@[j])@),
{
    let ghost names0 = Seq::new(names@.len(), |k: int| names@[k]@);
    let mut out: Vec<Vec<u8>> = Vec::new();
    let mut src: Vec<Vec<u8>> = names;
    proof {
        broadcast use vstd::seq_lib::group_to_multiset_ensures;

        assert(Seq::new(out@.len(), |k: int| out@[k]@) =~= Seq::<Seq<u8>>::empty());
        assert(Seq::new(src@.len(), |k: int| src@[k]@) =~= names0);
        assert(Seq::new(out@.len(), |k: int| out@[k]@).to_multiset().add(
            Seq::new(src@.len(), |k: int| src@[k]@).to_multiset(),
        ) =~= names0.to_multiset());
    }
    while src.len() > 0
        invariant
            out@.len() + src@.len() == names0.len(),
            Seq::new(out@.len(), |k: int| out@[k]@).to_multiset().add(
                Seq::new(src@.len(), |k: int| src@[k]@).to_multiset(),
            ) == names0.to_multiset(),
            forall|i: int, j: int|
                0 <= i < j < out@.len() ==> lex_le((#[trigger] out@[i])@, (#[trigger] out@[j])@),
            forall|i: int, j: int|
                0 <= i < out@.len() && 0 <= j < src@.len() ==> lex_le(
                    (#[trigger] out@[i])@,
                    (#[trigger] src@[j])@,
                ),
        decreases src@.len(),
    {
        let mut best: usize = 0;
        let mut m: usize = 1;
        proof {
            crate::text::lemma_lex_le_total(src@[0]@, src@[0]@);
        }
        while m < src.len()
            invariant
                src@.len() > 0,
                best < src@.len(),
                m <= src@.len(),
                forall|j: int| 0 <= j < m ==> lex_le((src@[best as int])@, (#[trigger] src@[j])@),
            decreases src@.len() - m,
        {
            if !bytes_le(src[best].as_slice(), src[m].as_slice()) {
                proof {
                    crate::text::lemma_lex_le_total(src@[best as int]@, src@[m as int]@);
                    assert forall|j: int| 0 <= j < m + 1 implies lex_le(
                        (src@[m as int])@,
                        (#[trigger] src@[j])@,
                    ) by {
                        if j < m {
                            crate::text::lemma_lex_le_trans(
                                src@[m as int]@,
                                src@[best as int]@,
                                src@[j]@,
                            );
                        } else {
                            crate::text::lemma_lex_le_total(src@[m as int]@, src@[m as int]@);
                        }
                    }
                }
                best = m;
            } else {
                proof {
                    crate::text::lemma_lex_le_total(src@[m as int]@, src@[m as int]@);
                }
            }
            m = m + 1;
        }
        let ghost out0 = out@;
        let ghost src0 = src@;
        let picked: Vec<u8> = src.remove(best);
        out.push(picked);
        proof {
            broadcast use vstd::seq_lib::group_to_multiset_ensures;

            let ov0 = Seq::new(out0.len(), |k: int| out0[k]@);
            let sv0 = Seq::new(src0.len(), |k: int| src0[k]@);
            let ov = Seq::new(out@.len(), |k: int| out@[k]@);
            let sv = Seq::new(src@.len(), |k: int| src@[k]@);
            assert(ov =~= ov0.push(picked@));
            assert(sv =~= sv0.remove(best as int));
            assert(sv0[best as int] == picked@);
            assert(sv.to_multiset() =~= sv0.to_multiset().remove(picked@));
            assert(ov.to_multiset() =~= ov0.to_multiset().insert(picked@));
            assert(sv0.contains(picked@)) by {
                assert(sv0[best as int] == picked@);
            }
            assert(sv0.to_multiset().count(picked@) > 0);
            assert(ov.to_multiset().add(sv.to_multiset()) =~= names0.to_multiset());
            assert forall|i: int, j: int|
                0 <= i < out@.len() && 0 <= j < src@.len() implies lex_le(
                (#[trigger] out@[i])@,
                (#[trigger] src@[j])@,
            ) by {
                let j0 = if j < best as int {
                    j
                } else {
                    j + 1
                };
                assert(src0[j0] == src@[j]);
                if i < out0.len() {
                    assert(lex_le(out@[i]@, src0[j0]@));
                } else {
                    assert(lex_le(picked@, src0[j0]@));
                }
            }
        }
    }
    proof {
        broadcast use vstd::seq_lib::group_to_multiset_ensures;

        assert(Seq::new(src@.len(), |k: int| src@[k]@) =~= Seq::<Seq<u8>>::empty());
        assert(Seq::new(out@.len(), |k: int| out@[k]@).to_multiset().add(
            Seq::new(src@.len(), |k: int| src@[k]@).to_multiset(),
        ) =~= Seq::new(out@.len(), |k: int| out@[k]@).to_multiset());
    }
    out
}

/// Lower-case the keys of a version map, keeping the values.
pub fn normalize_versions(versions: &Vec<(Vec<u8>, Vec<u8>)>) -> (r: Vec<(Vec<u8>, Vec<u8>)>)
    ensures
        r@.len() == versions@.len(),
        forall|i: int|
            0 <= i < r@.len() ==> (#[trigger] r@[i]).0@ == lower_seq(versions@[i].0@) && r@[i].1@
                == versions@[i].1@,
{
    let mut out: Vec<(Vec<u8>, Vec<u8>)> = Vec::new();
    let mut i: usize = 0;
    while i < versions.len()
        invariant
            i <= versions@.len(),
            out@.len() == i,
            forall|j: int|
                0 <= j < i ==> (#[trigger] out@[j]).0@ == lower_seq(versions@[j].0@) && out@[j].1@
                    == versions@[j].1@,
        decreases versions@.len() - i,
    {
        let key: Vec<u8> = lower_bytes(versions[i].0.as_slice());
        let value: Vec<u8> = clone_of(&versions[i].1);
        out.push((key, value));
        i = i + 1;
    }
    out
}

} // verus!
