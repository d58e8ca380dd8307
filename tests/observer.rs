use vizier::host::{
    default_gateway, dns_servers, idle_ms, mac_default_gateway, os_release_version, tilde_path,
    uptime_seconds_from_boottime, user_groups,
};
use vizier::diff::{create_diff_envelope, PatchValue};
use vizier::json::{Field, PatchKind, PathSeg};
use vizier::net::{
    collect_active_connections, collect_listening_ports, is_loopback_addr, normalize_host,
    parse_established_line, parse_host_port, parse_listen_line, parse_ss_process, SocketTool,
};
use vizier::observation::{Bounds, DisplayInfo, FsEventKind, Observation, WindowInfo};
use vizier::observer::{
    bytes_to_cgb, chassis_from_dmi_code, enrich_linux_snapshot, is_terminal_app,
    is_window_fullscreen, map_notify_event, system_uptime_seconds, BaselineObserver,
    ObserverConfig, RawEventKind, RawFsEvent, SnapshotProbe,
};
use vizier::parse::{parse_uint, split_lines, split_words};
use vizier::watch::{Emission, WatchLoop};

fn probe(elapsed_ms: u64, ts: u64, events: Vec<RawFsEvent>) -> SnapshotProbe {
    SnapshotProbe {
        ts,
        elapsed_ms,
        shell: Some("/bin/zsh".to_string()),
        term: Some("xterm-256color".to_string()),
        term_program: None,
        pid: 42,
        cwd: Some("/tmp".to_string()),
        connections: Vec::new(),
        fs_events: events,
    }
}

fn observer() -> BaselineObserver {
    BaselineObserver::new(&ObserverConfig { watch_path: Some("/tmp".to_string()), all_connections: false })
}

fn create(path: &str) -> RawFsEvent {
    RawFsEvent { kind: RawEventKind::Create, paths: vec![path.to_string()] }
}

#[test]
fn first_snapshot_suppresses_queued_events() {
    let mut o = observer();
    let s = o.snapshot(probe(3, 1_000, vec![create("/tmp/a"), create("/tmp/b")]));
    assert!(s.fs_events.is_empty());
    assert_eq!(s.schema_version, 1);
    assert_eq!(s.windows.len(), 1);
    assert_eq!(s.windows[0].id, "local-shell");
    assert_eq!(s.windows[0].title, "xterm-256color");
    assert_eq!(s.windows[0].app, "Terminal");
    assert_eq!(s.focus.as_ref().map(|w| w.pid), Some(42));
    assert_eq!(s.terminal_ctx.as_ref().map(|t| t.cwd.as_str()), Some("/tmp"));
    assert_eq!(s.displays.len(), 1);
}

#[test]
fn later_snapshot_reports_created_file() {
    let mut o = observer();
    let _ = o.snapshot(probe(3, 1_000, Vec::new()));
    let s = o.snapshot(probe(10, 2_000, vec![create("/tmp/new.txt")]));
    assert_eq!(s.fs_events.len(), 1);
    assert_eq!(s.fs_events[0].kind, FsEventKind::Create);
    assert_eq!(s.fs_events[0].kind.name(), "Create");
    assert_eq!(s.fs_events[0].path, "/tmp/new.txt");
    assert_eq!(s.fs_events[0].ts, 2_000);
}

#[test]
fn monotonic_duration_never_decreases() {
    let mut o = observer();
    let a = o.snapshot(probe(50, 1, Vec::new()));
    let b = o.snapshot(probe(20, 2, Vec::new()));
    let c = o.snapshot(probe(70, 3, Vec::new()));
    assert_eq!(a.monotonic_ms, 50);
    assert_eq!(b.monotonic_ms, 50);
    assert_eq!(c.monotonic_ms, 70);
}

#[test]
fn snapshot_without_shell_is_bare() {
    let mut o = observer();
    let mut p = probe(1, 1, Vec::new());
    p.shell = None;
    let s = o.snapshot(p);
    assert!(s.windows.is_empty());
    assert!(s.focus.is_none());
    assert!(s.displays.is_empty());
    assert!(s.terminal_ctx.is_none());
}

#[test]
fn notify_kinds_map_to_reported_kinds() {
    let e = RawFsEvent {
        kind: RawEventKind::Rename,
        paths: vec!["/a".to_string(), "/b".to_string()],
    };
    let r = map_notify_event(e, 7);
    assert_eq!(r.len(), 2);
    assert!(r.iter().all(|x| x.kind == FsEventKind::Rename && x.ts == 7));
    let other = map_notify_event(RawFsEvent { kind: RawEventKind::Other, paths: vec!["/c".to_string()] }, 1);
    assert_eq!(other[0].kind, FsEventKind::Modify);
    let removed = map_notify_event(RawFsEvent { kind: RawEventKind::Remove, paths: vec!["/c".to_string()] }, 1);
    assert_eq!(removed[0].kind.name(), "Delete");
}

#[test]
fn diff_envelope_tracks_current_record() {
    let mut o = observer();
    let a = o.snapshot(probe(3, 1_000, Vec::new()));
    let b = o.snapshot(probe(9, 2_000, vec![create("/tmp/x")]));
    let env = create_diff_envelope(&a, &b);
    assert_eq!(env.ts, 2_000);
    assert_eq!(env.monotonic_ms, 9);
    assert!(!env.patch.is_empty());
    assert!(env.patch.iter().any(|op| op.op == PatchKind::Replace
        && op.path == vec![PathSeg::Key(Field::Ts)]
        && op.value == Some(PatchValue::Time(2_000))));
    assert!(env.patch.iter().any(|op| op.op == PatchKind::Add
        && op.path == vec![PathSeg::Key(Field::FsEvents), PathSeg::Index(0)]));
    let same = create_diff_envelope(&b, &b);
    assert!(same.patch.is_empty());
}

#[test]
fn diff_of_optional_fields_adds_and_removes() {
    let mut o = observer();
    let a = o.snapshot(probe(3, 1_000, Vec::new()));
    let mut p = probe(4, 1_000, Vec::new());
    p.shell = None;
    let b: Observation = o.snapshot(p);
    let env = create_diff_envelope(&a, &b);
    assert!(env.patch.iter().any(|op| op.op == PatchKind::Remove && op.path == vec![PathSeg::Key(Field::Focus)]));
    assert!(env.patch.iter().any(|op| op.op == PatchKind::Remove
        && op.path == vec![PathSeg::Key(Field::Windows), PathSeg::Index(0)]));
    let back = create_diff_envelope(&b, &a);
    assert!(back.patch.iter().any(|op| op.op == PatchKind::Add && op.path == vec![PathSeg::Key(Field::TerminalCtx)]));
    assert_eq!(Field::TerminalCtx.name(), "terminal_ctx");
}

#[test]
fn watch_diff_mode_emits_full_then_patch() {
    let mut o = observer();
    let mut w = WatchLoop::new(100, true);
    let first = w.on_snapshot(o.snapshot(probe(1, 1_000, Vec::new())));
    match first {
        Emission::Full(obs) => assert_eq!(obs.schema_version, 1),
        Emission::Diff(_) => panic!("first emission must be a full record"),
    }
    let second = w.on_snapshot(o.snapshot(probe(101, 101_000, Vec::new())));
    match second {
        Emission::Diff(env) => {
            assert!(!env.patch.is_empty());
            assert_eq!(env.monotonic_ms, 101);
        }
        Emission::Full(_) => panic!("second emission must be a patch"),
    }
}

#[test]
fn watch_full_mode_emits_records() {
    let mut o = observer();
    let mut w = WatchLoop::new(100, false);
    for i in 0..3u64 {
        match w.on_snapshot(o.snapshot(probe(i, i, Vec::new()))) {
            Emission::Full(obs) => assert_eq!(obs.monotonic_ms, i),
            Emission::Diff(_) => panic!("full mode emits records"),
        }
    }
}

#[test]
fn conversions_and_uptime() {
    assert_eq!(bytes_to_cgb(1_073_741_824), 100);
    assert_eq!(bytes_to_cgb(0), 0);
    assert_eq!(bytes_to_cgb(5_368_709), 0);
    assert_eq!(bytes_to_cgb(5_368_710), 1);
    assert_eq!(system_uptime_seconds(2_000_000_000, 1_000, 7), 1_000);
    assert_eq!(system_uptime_seconds(2_000_000_000, 0, 7), 7);
    assert_eq!(system_uptime_seconds(2_000_000_000, 0, 200_000_000), 0);
    assert_eq!(chassis_from_dmi_code(10), "Laptop");
    assert_eq!(chassis_from_dmi_code(3), "Desktop");
    assert_eq!(chassis_from_dmi_code(1), "Unknown");
}

#[test]
fn linux_enrichment_overlays_compositor_data() {
    let mut o = observer();
    let base = o.snapshot(probe(1, 1, Vec::new()));
    let win = WindowInfo {
        id: "0xabc".to_string(),
        title: "vim".to_string(),
        app: "Alacritty".to_string(),
        pid: 7,
        bounds: Bounds { x: 0, y: 0, w: 100, h: 100 },
        workspace: 2,
        is_minimized: false,
        is_fullscreen: false,
    };
    let r = enrich_linux_snapshot(base, Some(Vec::new()), Some(vec![win.clone()]), Some(win.clone()), Some("/src".to_string()));
    assert_eq!(r.windows, vec![win.clone()]);
    assert_eq!(r.focus, Some(win));
    assert_eq!(r.displays.len(), 1);
    let t = r.terminal_ctx.unwrap();
    assert_eq!((t.cwd.as_str(), t.shell.as_str()), ("/src", "unknown"));
    assert!(is_terminal_app("org.wezfurlong.WezTerm"));
    assert!(!is_terminal_app("firefox"));
}

#[test]
fn fullscreen_needs_ninety_five_percent() {
    let d = vec![DisplayInfo { id: 1, bounds: Bounds { x: 0, y: 0, w: 1000, h: 800 }, is_primary: true, scale_milli: 2000 }];
    assert!(is_window_fullscreen(&Bounds { x: 0, y: 0, w: 950, h: 760 }, &d));
    assert!(!is_window_fullscreen(&Bounds { x: 0, y: 0, w: 949, h: 800 }, &d));
}

#[test]
fn ss_output_parsed_and_deduplicated() {
    let out = "ESTAB 0 0 192.168.1.5:51234 140.82.112.3:443 users:((\"firefox\",pid=4242,fd=87))\n\
ESTAB 0 0 127.0.0.1:5000 127.0.0.1:41000 users:((\"python3\",pid=10,fd=3))\n\
ESTAB 0 0 192.168.1.5:51234 140.82.112.3:443 users:((\"firefox\",pid=4242,fd=88))\n\
LISTEN 0 0 0.0.0.0:22 0.0.0.0:* users:((\"sshd\",pid=1,fd=3))\n";
    let conns = collect_active_connections(SocketTool::Ss, out, false);
    assert_eq!(conns.len(), 1);
    assert_eq!(conns[0].app, "firefox");
    assert_eq!(conns[0].pid, 4242);
    assert_eq!(conns[0].local_port, 51234);
    assert_eq!(conns[0].remote_addr, "140.82.112.3");
    assert_eq!(conns[0].remote_port, 443);
    assert_eq!(conns[0].state, "ESTABLISHED");
    assert_eq!(collect_active_connections(SocketTool::Ss, out, true).len(), 2);

    let listen = "LISTEN 0 4096 0.0.0.0:22 0.0.0.0:* users:((\"sshd\",pid=1,fd=3))\n\
LISTEN 0 4096 [::]:8080 [::]:*\n\
LISTEN 0 4096 0.0.0.0:22 0.0.0.0:* users:((\"sshd\",pid=1,fd=3))\n";
    let ports = collect_listening_ports(SocketTool::Ss, listen);
    assert_eq!(ports.len(), 2);
    assert_eq!((ports[0].port, ports[0].app.as_str(), ports[0].pid, ports[0].addr.as_str()), (22, "sshd", 1, "0.0.0.0"));
    assert_eq!((ports[1].port, ports[1].app.as_str(), ports[1].pid, ports[1].addr.as_str()), (8080, "unknown", 0, "::"));
}

#[test]
fn endpoint_helpers() {
    assert_eq!(parse_host_port(" [fe80::1]:631 "), Some(("fe80::1".to_string(), 631)));
    assert_eq!(parse_host_port("*:99999"), None);
    assert_eq!(parse_host_port("nohost"), None);
    assert_eq!(normalize_host("[::1]"), "::1");
    assert!(is_loopback_addr("127.0.0.53"));
    assert!(is_loopback_addr("*"));
    assert!(!is_loopback_addr("10.0.0.1"));
    assert_eq!(parse_ss_process("users:((\"nginx\",pid=77,fd=6))"), ("nginx".to_string(), 77));
    assert_eq!(parse_ss_process(""), ("unknown".to_string(), 0));
}

#[test]
fn text_splitting() {
    assert_eq!(split_words("  a \t bb\nc  "), vec!["a", "bb", "c"]);
    assert_eq!(split_lines("x\r\ny\n\nz"), vec!["x", "y", "", "z"]);
    assert_eq!(split_lines("x\n"), vec!["x"]);
    assert_eq!(parse_uint("+65535", 65535), Some(65535));
    assert_eq!(parse_uint("65536", 65535), None);
    assert_eq!(parse_uint("12a", 65535), None);
    assert_eq!(parse_uint("", 65535), None);
}

#[test]
fn lsof_output_parsed_after_header() {
    let out = "COMMAND PID USER FD TYPE DEVICE SIZE/OFF NODE NAME\n\
Safari 812 me 20u IPv4 0x1 0t0 TCP 192.168.1.5:50000->17.253.1.1:443 (ESTABLISHED)\n\
Safari 812 me 21u IPv4 0x2 0t0 TCP 192.168.1.5:50000->17.253.1.1:443 (ESTABLISHED)\n\
Python 90 me 3u IPv4 0x3 0t0 TCP 127.0.0.1:8000->127.0.0.1:50001 (ESTABLISHED)\n";
    let conns = collect_active_connections(SocketTool::Lsof, out, false);
    assert_eq!(conns.len(), 1);
    assert_eq!((conns[0].app.as_str(), conns[0].pid, conns[0].local_port), ("Safari", 812, 50000));
    assert_eq!((conns[0].remote_addr.as_str(), conns[0].remote_port), ("17.253.1.1", 443));
    assert_eq!(collect_active_connections(SocketTool::Lsof, out, true).len(), 2);

    let listen = "COMMAND PID USER FD TYPE DEVICE SIZE/OFF NODE NAME\n\
redis-ser 55 me 6u IPv4 0x9 0t0 TCP 127.0.0.1:6379 (LISTEN)\n";
    let ports = collect_listening_ports(SocketTool::Lsof, listen);
    assert_eq!(ports.len(), 1);
    assert_eq!((ports[0].port, ports[0].app.as_str(), ports[0].pid, ports[0].addr.as_str()), (6379, "redis-ser", 55, "127.0.0.1"));
    assert!(parse_listen_line("too few columns").is_none());
    assert!(parse_established_line("a b c d e f g h 1.2.3.4:5", true).is_none());
}

#[test]
fn host_text_readers() {
    assert_eq!(user_groups("alice wheel  docker\n"), vec!["alice", "wheel", "docker"]);
    assert_eq!(
        dns_servers("# c\nnameserver 1.1.1.1\n  nameserver 8.8.8.8 \nsearch lan\nnameserver\n"),
        vec!["1.1.1.1", "8.8.8.8"]
    );
    assert_eq!(
        default_gateway("default via 192.168.1.1 dev wlan0 proto dhcp\n").as_deref(),
        Some("192.168.1.1")
    );
    assert_eq!(default_gateway("default dev tun0\n"), None);
    assert_eq!(
        mac_default_gateway("Routing tables\ndefault link#17 UCSI\ndefault 10.0.0.1 UGScg en0\n").as_deref(),
        Some("10.0.0.1")
    );
    assert_eq!(idle_ms("  | |   \"HIDIdleTime\" = 2500000000\n"), Some(2500));
    assert_eq!(idle_ms("nothing\n"), None);
    assert_eq!(
        uptime_seconds_from_boottime("{ sec = 1700000000, usec = 5 } Tue Nov 14", 1_700_000_100),
        Some(100)
    );
    assert_eq!(uptime_seconds_from_boottime("{ sec = 5, usec = 0 }", 1_700_000_100), None);
    assert_eq!(
        os_release_version("NAME=\"Arch\"\nPRETTY_NAME=\"Arch Linux\"\n").as_deref(),
        Some("Arch Linux")
    );
    assert_eq!(os_release_version("VERSION_ID=\"22.04\"\nPRETTY_NAME=x\n").as_deref(), Some("22.04"));
    assert_eq!(tilde_path("/home/al", "/home/al"), "~");
    assert_eq!(tilde_path("/home/al", "/home/al/code"), "~/code");
    assert_eq!(tilde_path("/home/al", "/home/alice"), "/home/alice");
}

#[test]
fn history_file_commands() {
    let content = ": 1700000000:0;git status\n\n  ls -la  \n: 1700000001:0;   \n: 1700000002:0;make test\n";
    assert_eq!(vizier::host::history_lines(content, 20), vec!["git status", "ls -la", "make test"]);
    assert_eq!(vizier::host::history_lines(content, 2), vec!["ls -la", "make test"]);
}

#[test]
fn installed_apps_follow_catalog() {
    let catalog = vizier::host::app_catalog();
    assert_eq!(catalog.len(), 9);
    let mut present = vec![false; 9];
    present[1] = true;
    present[6] = true;
    let apps = vizier::host::installed_apps(&present, Some("Python 3.12.1".to_string()));
    assert_eq!(apps.len(), 2);
    assert_eq!((apps[0].name.as_str(), apps[0].id.as_str(), apps[0].kind.as_str()), ("Firefox", "firefox", "browser"));
    assert_eq!(apps[0].version, None);
    assert_eq!((apps[1].id.as_str(), apps[1].version.as_deref()), ("python3", Some("Python 3.12.1")));
    assert!(vizier::host::installed_apps(&vec![false; 9], None).is_empty());
}

#[test]
fn gpus_and_containers() {
    let out = "00:02.0 VGA compatible controller: Intel Corporation UHD Graphics 620 (rev 07)\n\
00:14.0 USB controller: Intel Corporation Sunrise Point\n\
01:00.0 3D controller: NVIDIA Corporation GP108M [GeForce MX150] (rev a1)\n";
    let gpus = vizier::host::gpu_info(out);
    let names: Vec<&str> = gpus.iter().map(|g| g.name.as_str()).collect();
    assert_eq!(names, vec!["Intel Corporation UHD Graphics 620 (rev 07)", "NVIDIA Corporation GP108M [GeForce MX150] (rev a1)"]);
    assert!(gpus.iter().all(|g| g.driver == "unknown" && g.vram_cgb.is_none()));
    assert!(vizier::host::cgroup_names_container("0::/system.slice/docker-abc.scope"));
    assert!(!vizier::host::cgroup_names_container("0::/init.scope"));
}

#[test]
fn processes_since_boot_oldest_first() {
    use_processes();
}

fn use_processes() {
    let p = |pid: u32, start_time: u64| vizier::host::ProcessStart { pid, app: format!("p{pid}"), start_time };
    let procs = vec![p(1, 1000), p(2, 1100), p(3, 2000), p(4, 1000), p(5, 1120)];
    let r = vizier::host::running_since_boot(procs, 1000, 5000);
    let got: Vec<(u32, u64)> = r.iter().map(|x| (x.pid, x.started_ago_s)).collect();
    assert_eq!(got, vec![(4, 4000), (1, 4000), (2, 3900), (5, 3880)]);
    assert!(vizier::host::running_since_boot(vec![p(1, 1)], 0, 5).is_empty());
    let many: Vec<vizier::host::ProcessStart> = (0..30).map(|i| p(i, 1000 + i as u64)).collect();
    assert_eq!(vizier::host::running_since_boot(many, 1000, 2000).len(), 20);
}

#[test]
fn who_lines_split_into_columns() {
    let linux = vizier::host::parse_who_columns("bob pts/1 Mar 3 09:15 (10.0.0.9)", false).unwrap();
    assert_eq!((linux.username.as_str(), linux.tty.as_str()), ("bob", "pts/1"));
    assert_eq!((linux.month.as_str(), linux.day.as_str(), linux.time.as_str()), ("Mar", "3", "09:15"));
    assert_eq!(linux.from, "(10.0.0.9)");
    let mac = vizier::host::parse_who_columns("bob ttys001 Mar 3 09:15 (10.0.0.9)", true).unwrap();
    assert_eq!(mac.from, "10.0.0.9");
    let console = vizier::host::parse_who_columns("bob console Mar 3 09:15", true).unwrap();
    assert_eq!(console.from, "local");
    assert!(vizier::host::parse_who_columns("bob pts/1 Mar", false).is_none());
    let now = vizier::host::LocalMinute { year: 2026, month: 3, day: 3, hour: 9, minute: 20 };
    let t = vizier::host::who_login_time("Mar", "3", "09:15", &now).unwrap();
    assert_eq!((t.year, t.month, t.day, t.hour, t.minute), (2026, 3, 3, 9, 15));
    let t = vizier::host::who_login_time("dec", "31", "23:59", &now).unwrap();
    assert_eq!((t.year, t.month, t.day), (2025, 12, 31));
    assert!(vizier::host::who_login_time("Feb", "29", "10:00", &now).is_none());
    let leap = vizier::host::LocalMinute { year: 2028, month: 3, day: 1, hour: 0, minute: 0 };
    assert_eq!(vizier::host::who_login_time("Feb", "29", "10:00", &leap).map(|t| t.year), Some(2028));
    assert!(vizier::host::who_login_time("Foo", "3", "09:15", &now).is_none());
    assert!(vizier::host::who_login_time("Mar", "3", "24:00", &now).is_none());
}

#[test]
fn scutil_servers_sorted_once() {
    let out = "DNS configuration\n\nresolver #1\n  nameserver[0] : 192.168.1.1\n  nameserver[1] : 1.1.1.1\nresolver #2\n  nameserver[0] : 192.168.1.1\n  domain : local\n";
    assert_eq!(vizier::host::scutil_dns_servers(out), vec!["1.1.1.1", "192.168.1.1"]);
    assert!(vizier::host::scutil_dns_servers("no servers\n").is_empty());
}

#[test]
fn interfaces_give_addresses_and_vpn() {
    let i = |name: &str, ip: &str, lo: bool| vizier::host::InterfaceAddr {
        name: name.to_string(),
        ip: ip.to_string(),
        is_loopback: lo,
    };
    let ifaces = vec![
        i("lo", "127.0.0.1", true),
        i("wlan0", "192.168.1.5", false),
        i("wg0", "10.8.0.2", false),
        i("wlan0", "192.168.1.5", false),
        i("utun3", "fe80::1", false),
    ];
    assert_eq!(vizier::host::local_ips(&ifaces), vec!["10.8.0.2", "192.168.1.5", "fe80::1"]);
    assert_eq!(vizier::host::vpn_interface(&ifaces).as_deref(), Some("wg0"));
    assert_eq!(vizier::host::vpn_interface(&ifaces[..2].to_vec()), None);
}

#[test]
fn home_tree_entries_list_or_count() {
    let names = |n: usize| (0..n).map(|k| format!("f{k}")).collect::<Vec<String>>();
    let small = vizier::host::home_tree_entry("~/code".to_string(), names(20));
    assert_eq!(small.children.as_ref().map(|c| c.len()), Some(20));
    assert_eq!(small.entry_count, None);
    assert_eq!(small.kind, "dir");
    let big = vizier::host::home_tree_entry("~/Downloads".to_string(), names(21));
    assert_eq!(big.children, None);
    assert_eq!(big.entry_count, Some(21));
}

#[test]
fn field_keys_are_wire_names() {
    assert_eq!(Field::SchemaVersion.name(), "schema_version");
    assert_eq!(Field::ScaleFactor.name(), "scale_factor");
    assert_eq!(Field::FsEvents.name(), "fs_events");
}

#[test]
fn recent_files_newest_first_capped() {
    let f = |path: &str, ns: i128, ago: u64| vizier::host::FileStamp { path: path.to_string(), modified_ns: ns, modified_ago_s: ago };
    let r = vizier::host::recent_files(vec![f("a", 10, 9), f("b", 30, 7), f("c", 10, 9), f("d", -5, 20)]);
    let got: Vec<(&str, u64)> = r.iter().map(|x| (x.path.as_str(), x.modified_ago_s)).collect();
    assert_eq!(got, vec![("b", 7), ("a", 9), ("c", 9), ("d", 20)]);
    let many: Vec<vizier::host::FileStamp> = (0..15).map(|i| f(&format!("f{i}"), i as i128, 0)).collect();
    let r = vizier::host::recent_files(many);
    assert_eq!(r.len(), 10);
    assert_eq!(r[0].path, "f14");
}
