//! Background-service artifacts: the service file bodies for the two
//! supported service managers, the argument list the service runs, and the
//! pure classification of probe output.

use vstd::prelude::*;

verus! {

use vstd::string::StringSliceAdditionalSpecFns;
use crate::config::Config;
use crate::errors::ErrorKind;
use crate::text::{
    append_slice, clone_of, contains_bytes, contains_seq, dec_u128, joined_path, lit, lower_bytes,
    lower_seq, parent_path, path_join, path_parent, push_dec_u64,
};

/// Which service manager runs the watcher.
#[derive(Debug, Clone, Copy, PartialEq, Eq, Structural)]
pub enum ServiceManager {
    Launchd,
    SystemdUser,
}

impl ServiceManager {
    /// The manager's display name.
    pub fn as_str(self) -> (r: &'static str)
        ensures
            self == ServiceManager::Launchd ==> r@ == "launchd"@,
            self == ServiceManager::SystemdUser ==> r@ == "systemd-user"@,
    {
        match self {
            ServiceManager::Launchd => "launchd",
            ServiceManager::SystemdUser => "systemd-user",
        }
    }
}

/// Where the watcher service stands.
#[derive(Debug, Clone, Copy, PartialEq, Eq, Structural)]
pub enum ServiceState {
    NotInstalled,
    Stopped,
    Running,
}

impl ServiceState {
    /// The state's display name.
    pub fn as_str(self) -> (r: &'static str)
        ensures
            self == ServiceState::NotInstalled ==> r@ == "not-installed"@,
            self == ServiceState::Stopped ==> r@ == "stopped"@,
            self == ServiceState::Running ==> r@ == "running"@,
    {
        match self {
            ServiceState::NotInstalled => "not-installed",
            ServiceState::Stopped => "stopped",
            ServiceState::Running => "running",
        }
    }
}

/// Where the service file and its log live.
pub struct ServicePaths {
    pub service_file: Vec<u8>,
    pub log_file: Option<Vec<u8>>,
}

/// A full status answer.
pub struct ServiceStatus {
    pub manager: ServiceManager,
    pub service_name: Vec<u8>,
    pub state: ServiceState,
    pub paths: ServicePaths,
    pub logs_hint: Option<Vec<u8>>,
}

/// What an installation asks for.
pub struct InstallWatchServiceOptions {
    pub debounce_ms: u64,
    pub quiet: bool,
    pub debug: bool,
    pub debug_log_file: Option<Vec<u8>>,
}

/// The launchd service label.
pub open spec fn launchd_label() -> Seq<u8> {
    "dev.jdblackstar.relay.watch".spec_bytes()
}

/// The systemd unit name.
pub open spec fn systemd_unit() -> Seq<u8> {
    "relay-watch.service".spec_bytes()
}

/// A manager's service name.
pub fn service_name(manager: ServiceManager) -> (r: Vec<u8>)
    ensures
        manager == ServiceManager::Launchd ==> r@ == launchd_label(),
        manager == ServiceManager::SystemdUser ==> r@ == systemd_unit(),
{
    match manager {
        ServiceManager::Launchd => lit("dev.jdblackstar.relay.watch"),
        ServiceManager::SystemdUser => lit("relay-watch.service"),
    }
}

/// The runtime directory: beside the central commands directory.
pub fn runtime_dir(cfg: &Config) -> (r: Result<Vec<u8>, ErrorKind>)
    ensures
        match r {
            Ok(p) => parent_path(cfg.central_dir@) matches Some(par) && p@ == joined_path(
                par,
                "runtime".spec_bytes(),
            ),
            Err(e) => e == ErrorKind::InvalidInput && parent_path(cfg.central_dir@) is None,
        },
{
    match path_parent(cfg.central_dir.as_slice()) {
        Some(p) => Ok(path_join(p.as_slice(), lit("runtime").as_slice())),
        None => Err(ErrorKind::InvalidInput),
    }
}

/// The launchd domain target for a user: `gui/<uid>/<label>`.
pub fn launchd_target(uid: u64) -> (r: Vec<u8>)
    ensures
        r@ == "gui/".spec_bytes() + dec_u128(uid as nat) + "/".spec_bytes() + launchd_label(),
{
    let mut out: Vec<u8> = lit("gui/");
    push_dec_u64(&mut out, uid);
    append_slice(&mut out, lit("/").as_slice());
    append_slice(&mut out, lit("dev.jdblackstar.relay.watch").as_slice());
    proof {
        assert(out@ =~= "gui/".spec_bytes() + dec_u128(uid as nat) + "/".spec_bytes()
            + launchd_label());
    }
    out
}

/// Whether manager output reports an already-absent service.
pub fn looks_like_not_running(output: &[u8]) -> (r: bool)
    ensures
        r == (contains_seq(lower_seq(output@), "not loaded".spec_bytes()) || contains_seq(
            lower_seq(output@),
            "not running".spec_bytes(),
        ) || contains_seq(lower_seq(output@), "could not find service".spec_bytes())
            || contains_seq(lower_seq(output@), "no such process".spec_bytes()) || contains_seq(
            lower_seq(output@),
            "not found".spec_bytes(),
        )),
{
    let lower: Vec<u8> = lower_bytes(output);
    contains_bytes(lower.as_slice(), lit("not loaded").as_slice()) || contains_bytes(
        lower.as_slice(),
        lit("not running").as_slice(),
    ) || contains_bytes(lower.as_slice(), lit("could not find service").as_slice())
        || contains_bytes(lower.as_slice(), lit("no such process").as_slice()) || contains_bytes(
        lower.as_slice(),
        lit("not found").as_slice(),
    )
}

/// The argument list the installed service runs the watcher with.
pub open spec fn spec_watch_args(options: &InstallWatchServiceOptions) -> Seq<Seq<u8>> {
    let base = seq![
        "watch".spec_bytes(),
        "--debounce-ms".spec_bytes(),
        dec_u128(options.debounce_ms as nat),
    ];
    let with_quiet = if options.quiet {
        base.push("--quiet".spec_bytes())
    } else {
        base
    };
    let with_debug = if options.debug {
        with_quiet.push("--debug".spec_bytes())
    } else {
        with_quiet
    };
    match options.debug_log_file {
        Some(ref p) => with_debug.push("--debug-log-file".spec_bytes()).push(p@),
        None => with_debug,
    }
}

/// Build the watcher argument list.
pub fn watch_args(options: &InstallWatchServiceOptions) -> (r: Vec<Vec<u8>>)
    ensures
        Seq::new(r@.len(), |i: int| r@[i]@) == spec_watch_args(options),
{
    let mut out: Vec<Vec<u8>> = Vec::new();
    out.push(lit("watch"));
    out.push(lit("--debounce-ms"));
    let mut ms: Vec<u8> = Vec::new();
    push_dec_u64(&mut ms, options.debounce_ms);
    proof {
        assert(ms@ =~= dec_u128(options.debounce_ms as nat));
    }
    out.push(ms);
    if options.quiet {
        out.push(lit("--quiet"));
    }
    if options.debug {
        out.push(lit("--debug"));
    }
    match &options.debug_log_file {
        Some(p) => {
            out.push(lit("--debug-log-file"));
            out.push(clone_of(p));
        },
        None => {},
    }
    proof {
        assert(Seq::new(out@.len(), |i: int| out@[i]@) =~= spec_watch_args(options));
    }
    out
}

/// A byte, XML-escaped.
pub open spec fn esc_xml_byte(b: u8) -> Seq<u8> {
    if b == 0x26 {
        "&amp;".spec_bytes()
    } else if b == 0x3c {
        "&lt;".spec_bytes()
    } else if b == 0x3e {
        "&gt;".spec_bytes()
    } else if b == 0x22 {
        "&quot;".spec_bytes()
    } else if b == 0x27 {
        "&apos;".spec_bytes()
    } else {
        seq![b]
    }
}

/// A value, XML-escaped byte by byte.
pub open spec fn esc_xml(s: Seq<u8>) -> Seq<u8>
    decreases s.len(),
{
    if s.len() == 0 {
        Seq::<u8>::empty()
    } else {
        esc_xml_byte(s.first()) + esc_xml(s.skip(1))
    }
}

/// XML-escape a value.
pub fn escape_xml(s: &[u8]) -> (r: Vec<u8>)
    ensures
        r@ == esc_xml(s@),
{
    let mut out: Vec<u8> = Vec::new();
    let mut i: usize = 0;
    proof {
        assert(s@.skip(0) =~= s@);
        assert(out@ + esc_xml(s@.skip(0)) =~= esc_xml(s@));
    }
    while i < s.len()
        invariant
            i <= s@.len(),
            esc_xml(s@) == out@ + esc_xml(s@.skip(i as int)),
        decreases s@.len() - i,
    {
        proof {
            assert(s@.skip(i as int).first() == s@[i as int]);
            assert(s@.skip(i as int).skip(1) =~= s@.skip(i + 1));
        }
        let ghost out0 = out@;
        let b: u8 = s[i];
        if b == 0x26 {
            append_slice(&mut out, lit("&amp;").as_slice());
        } else if b == 0x3c {
            append_slice(&mut out, lit("&lt;").as_slice());
        } else if b == 0x3e {
            append_slice(&mut out, lit("&gt;").as_slice());
        } else if b == 0x22 {
            append_slice(&mut out, lit("&quot;").as_slice());
        } else if b == 0x27 {
            append_slice(&mut out, lit("&apos;").as_slice());
        } else {
            out.push(b);
        }
        proof {
            assert(out@ =~= out0 + esc_xml_byte(s@[i as int]));
            assert(out0 + esc_xml_byte(s@[i as int]) + esc_xml(s@.skip(i + 1)) =~= out0 + (
            esc_xml_byte(s@[i as int]) + esc_xml(s@.skip(i + 1))));
        }
        i = i + 1;
    }
    proof {
        assert(esc_xml(s@.skip(s@.len() as int)) =~= Seq::<u8>::empty());
        assert(out@ + Seq::<u8>::empty() =~= out@);
    }
    out
}

/// A byte, escaped for a systemd unit value.
pub open spec fn esc_systemd_byte(b: u8) -> Seq<u8> {
    if b == 0x25 {
        "%%".spec_bytes()
    } else if b == 0x24 {
        "$$".spec_bytes()
    } else if b == 0x5c {
        "\\\\".spec_bytes()
    } else if b == 0x22 {
        "\\\"".spec_bytes()
    } else {
        seq![b]
    }
}

/// A value, escaped for a systemd unit byte by byte.
pub open spec fn esc_systemd(s: Seq<u8>) -> Seq<u8>
    decreases s.len(),
{
    if s.len() == 0 {
        Seq::<u8>::empty()
    } else {
        esc_systemd_byte(s.first()) + esc_systemd(s.skip(1))
    }
}

/// Escape a value for a systemd unit.
pub fn escape_systemd(s: &[u8]) -> (r: Vec<u8>)
    ensures
        r@ == esc_systemd(s@),
{
    let mut out: Vec<u8> = Vec::new();
    let mut i: usize = 0;
    proof {
        assert(s@.skip(0) =~= s@);
        assert(out@ + esc_systemd(s@.skip(0)) =~= esc_systemd(s@));
    }
    while i < s.len()
        invariant
            i <= s@.len(),
            esc_systemd(s@) == out@ + esc_systemd(s@.skip(i as int)),
        decreases s@.len() - i,
    {
        proof {
            assert(s@.skip(i as int).first() == s@[i as int]);
            assert(s@.skip(i as int).skip(1) =~= s@.skip(i + 1));
        }
        let ghost out0 = out@;
        let b: u8 = s[i];
        if b == 0x25 {
            append_slice(&mut out, lit("%%").as_slice());
        } else if b == 0x24 {
            append_slice(&mut out, lit("$$").as_slice());
        } else if b == 0x5c {
            append_slice(&mut out, lit("\\\\").as_slice());
        } else if b == 0x22 {
            append_slice(&mut out, lit("\\\"").as_slice());
        } else {
            out.push(b);
        }
        proof {
            assert(out@ =~= out0 + esc_systemd_byte(s@[i as int]));
            assert(out0 + esc_systemd_byte(s@[i as int]) + esc_systemd(s@.skip(i + 1)) =~= out0 + (
            esc_systemd_byte(s@[i as int]) + esc_systemd(s@.skip(i + 1))));
        }
        i = i + 1;
    }
    proof {
        assert(esc_systemd(s@.skip(s@.len() as int)) =~= Seq::<u8>::empty());
        assert(out@ + Seq::<u8>::empty() =~= out@);
    }
    out
}

/// The `<string>` lines of a program-argument array.
pub open spec fn spec_plist_args(items: Seq<Seq<u8>>) -> Seq<u8>
    decreases items.len(),
{
    if items.len() == 0 {
        Seq::<u8>::empty()
    } else {
        "    <string>".spec_bytes() + esc_xml(items.first()) + "</string>\n".spec_bytes()
            + spec_plist_args(items.drop_first())
    }
}

/// The key/string lines of the environment dictionary.
pub open spec fn spec_plist_env(env: Seq<(Seq<u8>, Seq<u8>)>) -> Seq<u8>
    decreases env.len(),
{
    if env.len() == 0 {
        Seq::<u8>::empty()
    } else {
        "    <key>".spec_bytes() + esc_xml(env.first().0) + "</key>\n".spec_bytes()
            + "    <string>".spec_bytes() + esc_xml(env.first().1) + "</string>\n".spec_bytes()
            + spec_plist_env(env.drop_first())
    }
}

/// The whole launchd property list for the watcher service.
pub open spec fn spec_render_launchd_plist(
    bin: Seq<u8>,
    args: Seq<Seq<u8>>,
    log_file: Seq<u8>,
    env: Seq<(Seq<u8>, Seq<u8>)>,
) -> Seq<u8> {
    "<?xml version=\"1.0\" encoding=\"UTF-8\"?>\n".spec_bytes()
        + "<!DOCTYPE plist PUBLIC \"-//Apple//DTD PLIST 1.0//EN\" \"http://www.apple.com/DTDs/PropertyList-1.0.dtd\">\n".spec_bytes()
        + "<plist version=\"1.0\">\n".spec_bytes() + "<dict>\n".spec_bytes()
        + "  <key>Label</key>\n".spec_bytes() + "  <string>".spec_bytes() + esc_xml(
        launchd_label(),
    ) + "</string>\n".spec_bytes() + "  <key>ProgramArguments</key>\n".spec_bytes()
        + "  <array>\n".spec_bytes() + spec_plist_args(seq![bin] + args)
        + "  </array>\n".spec_bytes() + "  <key>RunAtLoad</key>\n".spec_bytes()
        + "  <true/>\n".spec_bytes() + "  <key>KeepAlive</key>\n".spec_bytes()
        + "  <true/>\n".spec_bytes() + "  <key>StandardOutPath</key>\n".spec_bytes()
        + "  <string>".spec_bytes() + esc_xml(log_file) + "</string>\n".spec_bytes()
        + "  <key>StandardErrorPath</key>\n".spec_bytes() + "  <string>".spec_bytes() + esc_xml(
        log_file,
    ) + "</string>\n".spec_bytes() + (
    if env.len() > 0 {
        "  <key>EnvironmentVariables</key>\n".spec_bytes() + "  <dict>\n".spec_bytes()
            + spec_plist_env(env) + "  </dict>\n".spec_bytes()
    } else {
        Seq::<u8>::empty()
    }) + "</dict>\n".spec_bytes() + "</plist>\n".spec_bytes()
}

/// Render the launchd property list.
pub fn render_launchd_plist(
    bin: &[u8],
    args: &Vec<Vec<u8>>,
    log_file: &[u8],
    env: &Vec<(Vec<u8>, Vec<u8>)>,
) -> (r: Vec<u8>)
    ensures
        r@ == spec_render_launchd_plist(
            bin@,
            Seq::new(args@.len(), |i: int| args@[i]@),
            log_file@,
            Seq::new(env@.len(), |i: int| (env@[i].0@, env@[i].1@)),
        ),
{
    let ghost argv = Seq::new(args@.len(), |i: int| args@[i]@);
    let ghost envv = Seq::new(env@.len(), |i: int| (env@[i].0@, env@[i].1@));
    let mut out: Vec<u8> = Vec::new();
    append_slice(&mut out, lit("<?xml version=\"1.0\" encoding=\"UTF-8\"?>\n").as_slice());
    append_slice(
        &mut out,
        lit(
            "<!DOCTYPE plist PUBLIC \"-//Apple//DTD PLIST 1.0//EN\" \"http://www.apple.com/DTDs/PropertyList-1.0.dtd\">\n",
        ).as_slice(),
    );
    append_slice(&mut out, lit("<plist version=\"1.0\">\n").as_slice());
    append_slice(&mut out, lit("<dict>\n").as_slice());
    append_slice(&mut out, lit("  <key>Label</key>\n").as_slice());
    append_slice(&mut out, lit("  <string>").as_slice());
    let esc_label: Vec<u8> = escape_xml(lit("dev.jdblackstar.relay.watch").as_slice());
    append_slice(&mut out, esc_label.as_slice());
    append_slice(&mut out, lit("</string>\n").as_slice());
    append_slice(&mut out, lit("  <key>ProgramArguments</key>\n").as_slice());
    append_slice(&mut out, lit("  <array>\n").as_slice());
    // the program and its arguments
    let mut items: Vec<u8> = Vec::new();
    {
        let ghost all = seq![bin@] + argv;
        let line: Vec<u8> = escape_xml(bin);
        append_slice(&mut items, lit("    <string>").as_slice());
        append_slice(&mut items, line.as_slice());
        append_slice(&mut items, lit("</string>\n").as_slice());
        proof {
            assert(all.first() == bin@);
            assert(all.drop_first() =~= argv);
            assert(argv.skip(0) =~= argv);
            assert(items@ =~= "    <string>".spec_bytes() + esc_xml(bin@)
                + "</string>\n".spec_bytes());
        }
        let mut i: usize = 0;
        while i < args.len()
            invariant
                i <= args@.len(),
                argv == Seq::new(args@.len(), |k: int| args@[k]@),
                spec_plist_args(seq![bin@] + argv) == items@ + spec_plist_args(
                    argv.skip(i as int),
                ),
            decreases args@.len() - i,
        {
            proof {
                assert(argv.skip(i as int).first() == argv[i as int]);
                assert(argv.skip(i as int).drop_first() =~= argv.skip(i + 1));
            }
            let ghost it0 = items@;
            let line: Vec<u8> = escape_xml(args[i].as_slice());
            append_slice(&mut items, lit("    <string>").as_slice());
            append_slice(&mut items, line.as_slice());
            append_slice(&mut items, lit("</string>\n").as_slice());
            proof {
                let piece = "    <string>".spec_bytes() + esc_xml(argv[i as int])
                    + "</string>\n".spec_bytes();
                assert(items@ =~= it0 + piece);
                assert(it0 + piece + spec_plist_args(argv.skip(i + 1)) =~= it0 + (piece
                    + spec_plist_args(argv.skip(i + 1))));
            }
            i = i + 1;
        }
        proof {
            assert(spec_plist_args(argv.skip(argv.len() as int)) =~= Seq::<u8>::empty());
            assert(items@ + Seq::<u8>::empty() =~= items@);
        }
    }
    append_slice(&mut out, items.as_slice());
    append_slice(&mut out, lit("  </array>\n").as_slice());
    append_slice(&mut out, lit("  <key>RunAtLoad</key>\n").as_slice());
    append_slice(&mut out, lit("  <true/>\n").as_slice());
    append_slice(&mut out, lit("  <key>KeepAlive</key>\n").as_slice());
    append_slice(&mut out, lit("  <true/>\n").as_slice());
    append_slice(&mut out, lit("  <key>StandardOutPath</key>\n").as_slice());
    append_slice(&mut out, lit("  <string>").as_slice());
    let esc_log: Vec<u8> = escape_xml(log_file);
    append_slice(&mut out, esc_log.as_slice());
    append_slice(&mut out, lit("</string>\n").as_slice());
    append_slice(&mut out, lit("  <key>StandardErrorPath</key>\n").as_slice());
    append_slice(&mut out, lit("  <string>").as_slice());
    append_slice(&mut out, esc_log.as_slice());
    append_slice(&mut out, lit("</string>\n").as_slice());
    if env.len() > 0 {
        append_slice(&mut out, lit("  <key>EnvironmentVariables</key>\n").as_slice());
        append_slice(&mut out, lit("  <dict>\n").as_slice());
        let mut lines: Vec<u8> = Vec::new();
        let mut i: usize = 0;
        proof {
            assert(envv.skip(0) =~= envv);
            assert(lines@ + spec_plist_env(envv.skip(0)) =~= spec_plist_env(envv));
        }
        while i < env.len()
            invariant
                i <= env@.len(),
                envv == Seq::new(env@.len(), |k: int| (env@[k].0@, env@[k].1@)),
                spec_plist_env(envv) == lines@ + spec_plist_env(envv.skip(i as int)),
            decreases env@.len() - i,
        {
            proof {
                assert(envv.skip(i as int).first() == envv[i as int]);
                assert(envv.skip(i as int).drop_first() =~= envv.skip(i + 1));
            }
            let ghost l0 = lines@;
            let ek: Vec<u8> = escape_xml(env[i].0.as_slice());
            let ev: Vec<u8> = escape_xml(env[i].1.as_slice());
            append_slice(&mut lines, lit("    <key>").as_slice());
            append_slice(&mut lines, ek.as_slice());
            append_slice(&mut lines, lit("</key>\n").as_slice());
            append_slice(&mut lines, lit("    <string>").as_slice());
            append_slice(&mut lines, ev.as_slice());
            append_slice(&mut lines, lit("</string>\n").as_slice());
            proof {
                let piece = "    <key>".spec_bytes() + esc_xml(envv[i as int].0)
                    + "</key>\n".spec_bytes() + "    <string>".spec_bytes() + esc_xml(
                    envv[i as int].1,
                ) + "</string>\n".spec_bytes();
                assert(lines@ =~= l0 + piece);
                assert(l0 + piece + spec_plist_env(envv.skip(i + 1)) =~= l0 + (piece
                    + spec_plist_env(envv.skip(i + 1))));
            }
            i = i + 1;
        }
        proof {
            assert(spec_plist_env(envv.skip(envv.len() as int)) =~= Seq::<u8>::empty());
            assert(lines@ + Seq::<u8>::empty() =~= lines@);
        }
        append_slice(&mut out, lines.as_slice());
        append_slice(&mut out, lit("  </dict>\n").as_slice());
    }
    append_slice(&mut out, lit("</dict>\n").as_slice());
    append_slice(&mut out, lit("</plist>\n").as_slice());
    proof {
        assert(out@ =~= spec_render_launchd_plist(bin@, argv, log_file@, envv));
    }
    out
}

/// The quoted, escaped command line of the unit.
pub open spec fn spec_exec_start(parts: Seq<Seq<u8>>) -> Seq<u8>
    decreases parts.len(),
{
    if parts.len() == 0 {
        Seq::<u8>::empty()
    } else if parts.len() == 1 {
        "\"".spec_bytes() + esc_systemd(parts.first()) + "\"".spec_bytes()
    } else {
        "\"".spec_bytes() + esc_systemd(parts.first()) + "\"".spec_bytes() + " ".spec_bytes()
            + spec_exec_start(parts.drop_first())
    }
}

/// The environment lines of the unit.
pub open spec fn spec_unit_env(env: Seq<(Seq<u8>, Seq<u8>)>) -> Seq<u8>
    decreases env.len(),
{
    if env.len() == 0 {
        Seq::<u8>::empty()
    } else {
        "Environment=\"".spec_bytes() + esc_systemd(env.first().0 + "=".spec_bytes()
            + env.first().1) + "\"\n".spec_bytes() + spec_unit_env(env.drop_first())
    }
}

/// The whole systemd user unit for the watcher service.
pub open spec fn spec_render_systemd_unit(
    bin: Seq<u8>,
    args: Seq<Seq<u8>>,
    env: Seq<(Seq<u8>, Seq<u8>)>,
) -> Seq<u8> {
    "[Unit]\n".spec_bytes() + "Description=relay watch sync service\n".spec_bytes()
        + "After=default.target\n\n".spec_bytes() + "[Service]\n".spec_bytes()
        + "Type=simple\n".spec_bytes() + "ExecStart=".spec_bytes() + spec_exec_start(
        seq![bin] + args,
    ) + "\n".spec_bytes() + "Restart=always\n".spec_bytes() + "RestartSec=1\n".spec_bytes()
        + spec_unit_env(env) + "\n[Install]\n".spec_bytes()
        + "WantedBy=default.target\n".spec_bytes()
}

/// Render the systemd user unit.
pub fn render_systemd_unit(bin: &[u8], args: &Vec<Vec<u8>>, env: &Vec<(Vec<u8>, Vec<u8>)>) -> (r:
    Vec<u8>)
    ensures
        r@ == spec_render_systemd_unit(
            bin@,
            Seq::new(args@.len(), |i: int| args@[i]@),
            Seq::new(env@.len(), |i: int| (env@[i].0@, env@[i].1@)),
        ),
{
    let ghost argv = Seq::new(args@.len(), |i: int| args@[i]@);
    let ghost envv = Seq::new(env@.len(), |i: int| (env@[i].0@, env@[i].1@));
    let mut out: Vec<u8> = Vec::new();
    append_slice(&mut out, lit("[Unit]\n").as_slice());
    append_slice(&mut out, lit("Description=relay watch sync service\n").as_slice());
    append_slice(&mut out, lit("After=default.target\n\n").as_slice());
    append_slice(&mut out, lit("[Service]\n").as_slice());
    append_slice(&mut out, lit("Type=simple\n").as_slice());
    append_slice(&mut out, lit("ExecStart=").as_slice());
    // the quoted command line
    let mut cmd: Vec<u8> = Vec::new();
    {
        let ghost all = seq![bin@] + argv;
        let eb: Vec<u8> = escape_systemd(bin);
        append_slice(&mut cmd, lit("\"").as_slice());
        append_slice(&mut cmd, eb.as_slice());
        append_slice(&mut cmd, lit("\"").as_slice());
        proof {
            assert(all.first() == bin@);
            assert(all.drop_first() =~= argv);
            assert(argv.skip(0) =~= argv);
            if argv.len() == 0 {
                assert(cmd@ =~= spec_exec_start(all));
            } else {
                assert(cmd@ =~= "\"".spec_bytes() + esc_systemd(bin@) + "\"".spec_bytes());
            }
        }
        let mut i: usize = 0;
        while i < args.len()
            invariant
                i <= args@.len(),
                argv == Seq::new(args@.len(), |k: int| args@[k]@),
                i < args@.len() ==> spec_exec_start(seq![bin@] + argv) == cmd@ + " ".spec_bytes()
                    + spec_exec_start(argv.skip(i as int)),
                i == args@.len() ==> spec_exec_start(seq![bin@] + argv) == cmd@,
            decreases args@.len() - i,
        {
            proof {
                assert(argv.skip(i as int).first() == argv[i as int]);
                assert(argv.skip(i as int).drop_first() =~= argv.skip(i + 1));
            }
            let ghost c0 = cmd@;
            let ea: Vec<u8> = escape_systemd(args[i].as_slice());
            append_slice(&mut cmd, lit(" ").as_slice());
            append_slice(&mut cmd, lit("\"").as_slice());
            append_slice(&mut cmd, ea.as_slice());
            append_slice(&mut cmd, lit("\"").as_slice());
            proof {
                let piece = " ".spec_bytes() + ("\"".spec_bytes() + esc_systemd(argv[i as int])
                    + "\"".spec_bytes());
                assert(cmd@ =~= c0 + piece);
                if i + 1 < argv.len() {
                    assert(c0 + piece + (" ".spec_bytes() + spec_exec_start(argv.skip(i + 1)))
                        =~= c0 + " ".spec_bytes() + ("\"".spec_bytes() + esc_systemd(
                        argv[i as int],
                    ) + "\"".spec_bytes() + " ".spec_bytes() + spec_exec_start(argv.skip(i + 1))));
                } else {
                    assert(argv.skip(i as int).len() == 1);
                    assert(c0 + " ".spec_bytes() + spec_exec_start(argv.skip(i as int)) =~= c0
                        + piece);
                }
            }
            i = i + 1;
        }
    }
    append_slice(&mut out, cmd.as_slice());
    append_slice(&mut out, lit("\n").as_slice());
    append_slice(&mut out, lit("Restart=always\n").as_slice());
    append_slice(&mut out, lit("RestartSec=1\n").as_slice());
    let mut lines: Vec<u8> = Vec::new();
    let mut i: usize = 0;
    proof {
        assert(envv.skip(0) =~= envv);
        assert(lines@ + spec_unit_env(envv.skip(0)) =~= spec_unit_env(envv));
    }
    while i < env.len()
        invariant
            i <= env@.len(),
            envv == Seq::new(env@.len(), |k: int| (env@[k].0@, env@[k].1@)),
            spec_unit_env(envv) == lines@ + spec_unit_env(envv.skip(i as int)),
        decreases env@.len() - i,
    {
        proof {
            assert(envv.skip(i as int).first() == envv[i as int]);
            assert(envv.skip(i as int).drop_first() =~= envv.skip(i + 1));
        }
        let ghost l0 = lines@;
        let mut kv: Vec<u8> = clone_of(&env[i].0);
        append_slice(&mut kv, lit("=").as_slice());
        append_slice(&mut kv, env[i].1.as_slice());
        proof {
            assert(kv@ =~= envv[i as int].0 + "=".spec_bytes() + envv[i as int].1);
        }
        let ekv: Vec<u8> = escape_systemd(kv.as_slice());
        append_slice(&mut lines, lit("Environment=\"").as_slice());
        append_slice(&mut lines, ekv.as_slice());
        append_slice(&mut lines, lit("\"\n").as_slice());
        proof {
            let piece = "Environment=\"".spec_bytes() + esc_systemd(
                envv[i as int].0 + "=".spec_bytes() + envv[i as int].1,
            ) + "\"\n".spec_bytes();
            assert(lines@ =~= l0 + piece);
            assert(l0 + piece + spec_unit_env(envv.skip(i + 1)) =~= l0 + (piece + spec_unit_env(
                envv.skip(i + 1),
            )));
        }
        i = i + 1;
    }
    proof {
        assert(spec_unit_env(envv.skip(envv.len() as int)) =~= Seq::<u8>::empty());
        assert(lines@ + Seq::<u8>::empty() =~= lines@);
    }
    append_slice(&mut out, lines.as_slice());
    append_slice(&mut out, lit("\n[Install]\n").as_slice());
    append_slice(&mut out, lit("WantedBy=default.target\n").as_slice());
    proof {
        assert(out@ =~= spec_render_systemd_unit(bin@, argv, envv));
    }
    out
}

/// Where the service file and its log live for a manager, given the home
/// directory and an optional configuration-directory override.
pub fn service_paths(
    cfg: &Config,
    manager: ServiceManager,
    home: &[u8],
    xdg_config: Option<&Vec<u8>>,
) -> (r: Result<ServicePaths, ErrorKind>)
    ensures
        match r {
            Ok(ps) => match manager {
                ServiceManager::Launchd => {
                    &&& ps.service_file@ == joined_path(
                        joined_path(home@, "Library/LaunchAgents".spec_bytes()),
                        launchd_label() + ".plist".spec_bytes(),
                    )
                    &&& ps.log_file matches Some(lf) && (parent_path(cfg.central_dir@) matches Some(
                        par,
                    ) && lf@ == joined_path(
                        joined_path(par, "runtime".spec_bytes()),
                        "watch.log".spec_bytes(),
                    ))
                },
                ServiceManager::SystemdUser => {
                    &&& ps.service_file@ == joined_path(
                        match crate::doc::opt_view(xdg_config) {
                            Some(x) => joined_path(x, "systemd/user".spec_bytes()),
                            None => joined_path(home@, ".config/systemd/user".spec_bytes()),
                        },
                        systemd_unit(),
                    )
                    &&& ps.log_file is None
                },
            },
            Err(e) => e == ErrorKind::InvalidInput && manager == ServiceManager::Launchd
                && parent_path(cfg.central_dir@) is None,
        },
{
    match manager {
        ServiceManager::Launchd => {
            let base: Vec<u8> = path_join(home, lit("Library/LaunchAgents").as_slice());
            let mut name: Vec<u8> = lit("dev.jdblackstar.relay.watch");
            append_slice(&mut name, lit(".plist").as_slice());
            proof {
                assert(name@ =~= launchd_label() + ".plist".spec_bytes());
            }
            let service_file: Vec<u8> = path_join(base.as_slice(), name.as_slice());
            let rd: Vec<u8> = match runtime_dir(cfg) {
                Ok(d) => d,
                Err(e) => {
                    return Err(e);
                },
            };
            let log: Vec<u8> = path_join(rd.as_slice(), lit("watch.log").as_slice());
            Ok(ServicePaths { service_file, log_file: Some(log) })
        },
        ServiceManager::SystemdUser => {
            let base: Vec<u8> = match xdg_config {
                Some(x) => path_join(x.as_slice(), lit("systemd/user").as_slice()),
                None => path_join(home, lit(".config/systemd/user").as_slice()),
            };
            let service_file: Vec<u8> = path_join(
                base.as_slice(),
                lit("relay-watch.service").as_slice(),
            );
            Ok(ServicePaths { service_file, log_file: None })
        },
    }
}

/// Classify the watcher service's state from what a probe of the manager
/// reported: not installed without a service file, running when the
/// manager says so, stopped otherwise.
pub fn watch_service_status(
    manager: ServiceManager,
    paths: ServicePaths,
    service_file_exists: bool,
    probe_success: bool,
    probe_output: &[u8],
) -> (r: ServiceStatus)
    ensures
        r.manager == manager,
        !service_file_exists ==> r.state == ServiceState::NotInstalled,
        service_file_exists ==> ((r.state == ServiceState::Running) == (probe_success && (
        match manager {
            ServiceManager::Launchd => contains_seq(
                probe_output@,
                "state = running".spec_bytes(),
            ),
            ServiceManager::SystemdUser => trimmed_active(probe_output@),
        }))),
{
    let state: ServiceState = if !service_file_exists {
        ServiceState::NotInstalled
    } else {
        let running: bool = match manager {
            ServiceManager::Launchd => probe_success && contains_bytes(
                probe_output,
                lit("state = running").as_slice(),
            ),
            ServiceManager::SystemdUser => {
                let t: Vec<u8> = crate::text::trim(probe_output);
                probe_success && crate::text::bytes_eq(t.as_slice(), lit("active").as_slice())
            },
        };
        if running {
            ServiceState::Running
        } else {
            ServiceState::Stopped
        }
    };
    let logs_hint: Option<Vec<u8>> = match manager {
        ServiceManager::Launchd => match &paths.log_file {
            Some(lf) => {
                let mut h: Vec<u8> = lit("tail -f ");
                append_slice(&mut h, lf.as_slice());
                Some(h)
            },
            None => None,
        },
        ServiceManager::SystemdUser => {
            let mut h: Vec<u8> = lit("journalctl --user -u ");
            append_slice(&mut h, lit("relay-watch.service").as_slice());
            append_slice(&mut h, lit(" -f").as_slice());
            Some(h)
        },
    };
    ServiceStatus { manager, service_name: service_name(manager), state, paths, logs_hint }
}

/// The probe output, trimmed, says `active`.
pub open spec fn trimmed_active(out: Seq<u8>) -> bool {
    crate::text::trim_seq(out) == "active".spec_bytes()
}

} // verus!
