use vizier::compaction::{
    compact_groups, compact_home_tree, compact_listening_ports, compact_local_ips,
    compact_mounts, compact_recent_files, compact_sessions, compact_shell_history,
    home_tree_priority, is_noise_path, normalize_shell_history_line,
};
use vizier::observation::{
    DateTimeInfo, FilesystemInfo, GpuInfo, HomeTreeEntry, ListeningPort, MachineInfo, MountInfo,
    NetworkIdentity, RecentActivity, RecentFileInfo, ResourceInfo, RunningProcessInfo,
    SessionInfo, UserInfo, WakeObservation,
};

fn strings(v: &[&str]) -> Vec<String> {
    v.iter().map(|s| s.to_string()).collect()
}

fn entry(path: &str, children: Option<usize>, count: Option<usize>) -> HomeTreeEntry {
    HomeTreeEntry {
        path: path.to_string(),
        kind: "dir".to_string(),
        children: children.map(|n| (0..n).map(|i| format!("c{i}")).collect()),
        entry_count: count,
    }
}

fn file(path: &str, ago: u64) -> RecentFileInfo {
    RecentFileInfo { path: path.to_string(), modified_ago_s: ago }
}

fn mount(path: &str) -> MountInfo {
    MountInfo { path: path.to_string(), fs_type: "apfs".to_string(), total_cgb: 10, free_cgb: 5 }
}

fn port(port: u16, app: &str, pid: u32) -> ListeningPort {
    ListeningPort {
        port,
        proto: "tcp".to_string(),
        pid,
        app: app.to_string(),
        addr: "127.0.0.1".to_string(),
    }
}

fn session(from: &str) -> SessionInfo {
    SessionInfo {
        username: "bob".to_string(),
        tty: "pts/0".to_string(),
        from: from.to_string(),
        login_ts: 1,
    }
}

fn profile() -> WakeObservation {
    WakeObservation {
        schema_version: 1,
        ts: 1_000_000,
        machine: MachineInfo {
            hostname: "h".to_string(),
            os: "Linux".to_string(),
            os_version: "1".to_string(),
            kernel: "k".to_string(),
            arch: "x86_64".to_string(),
            is_vm: false,
            is_container: false,
            hypervisor: None,
            chassis: "Laptop".to_string(),
        },
        user: UserInfo {
            username: "alice".to_string(),
            full_name: "Alice".to_string(),
            home_dir: "/home/alice".to_string(),
            shell: "/bin/zsh".to_string(),
            uid: 1000,
            groups: strings(&["wheel", "_lpadmin", "docker", "everyone", "audio", "docker"]),
        },
        datetime: DateTimeInfo {
            ts: 1_000_000,
            iso: "x".to_string(),
            timezone: "+00:00".to_string(),
            utc_offset_seconds: 0,
            uptime_seconds: 5,
            login_ts: 0,
        },
        filesystem: FilesystemInfo {
            home_tree: vec![
                entry("~/Music", Some(3), None),
                entry("~/.config", Some(2), None),
                entry("~/Downloads", None, Some(40)),
                entry("~/code", Some(1), None),
                entry("~/a", None, None),
                entry("~/b", None, None),
                entry("~/c", None, None),
                entry("~/d", None, None),
            ],
            recent_files: vec![
                file("/home/alice/.cache/x", 1),
                file("/home/alice/notes.txt", 2),
                file("/home/alice/.config/y", 3),
            ],
            mounts: vec![mount("/Volumes/USB"), mount("/"), mount("/boot"), mount("/"), mount("/home")],
        },
        installed_apps: Vec::new(),
        network_identity: NetworkIdentity {
            local_ips: strings(&["fe80::1", "10.0.0.5", "192.168.1.4", "10.0.0.5", "172.16.0.1"]),
            public_ip: None,
            vpn_active: false,
            vpn_interface: None,
            default_gateway: None,
            dns_servers: Vec::new(),
            hostname_fqdn: Some("h".to_string()),
        },
        listening_ports: vec![port(8080, "node", 1), port(22, "sshd", 2), port(50000, "x", 3), port(22, "sshd", 4)],
        resources: ResourceInfo {
            cpu_cores: 4,
            cpu_model: "cpu".to_string(),
            ram_total_cgb: 1,
            ram_free_cgb: 1,
            gpus: vec![GpuInfo { name: "g".to_string(), vram_cgb: None, driver: "d".to_string() }],
        },
        recent_activity: RecentActivity {
            shell_history: strings(&["ls", "ls", "  cd /tmp  ", "PS1=foo", "git status", "make", "vim", "ls"]),
            running_since_boot: vec![RunningProcessInfo { pid: 1, app: "init".to_string(), started_ago_s: 9 }],
        },
        other_sessions: vec![session("local"), session(" - "), session("10.0.0.9"), session("")],
    }
}

#[test]
fn groups_collapse_to_admin() {
    assert_eq!(compact_groups(strings(&["staff", "admin", "_developer"])), strings(&["admin"]));
}

#[test]
fn groups_sorted_deduplicated_and_capped() {
    let r = compact_groups(strings(&["wheel", "_lpadmin", "docker", "everyone", "audio", "docker"]));
    assert_eq!(r, strings(&["audio", "docker"]));
    assert_eq!(compact_groups(strings(&["com.apple.access_ssh", "localaccounts"])), Vec::<String>::new());
}

#[test]
fn home_tree_ranked_counted_and_capped() {
    let r = compact_home_tree(profile().filesystem.home_tree);
    let paths: Vec<&str> = r.iter().map(|e| e.path.as_str()).collect();
    assert_eq!(paths, vec!["~/code", "~/Downloads", "~/Music", "~/a", "~/b", "~/c"]);
    assert_eq!(r[0].entry_count, Some(1));
    assert_eq!(r[1].entry_count, Some(40));
    assert_eq!(r[2].entry_count, Some(3));
    assert_eq!(r[3].entry_count, None);
    assert!(r.iter().all(|e| e.children.is_none()));
    assert_eq!(home_tree_priority("~/Projects"), 0);
    assert_eq!(home_tree_priority("~/Documents"), 1);
    assert_eq!(home_tree_priority("~/src"), 2);
}

#[test]
fn recent_files_drop_noise_with_fallback() {
    let r = compact_recent_files(profile().filesystem.recent_files);
    assert_eq!(r, vec![file("/home/alice/notes.txt", 2)]);
    let noisy = vec![file("/a/.cache/1", 1), file("/a/.yarn/2", 2)];
    assert_eq!(compact_recent_files(noisy.clone()), noisy);
    let many: Vec<RecentFileInfo> = (0..8).map(|i| file(&format!("/a/f{i}"), i)).collect();
    assert_eq!(compact_recent_files(many.clone()), many[..5].to_vec());
    assert!(is_noise_path("/x/Music Library.musiclibrary/y"));
    assert!(!is_noise_path("/x/.configs"));
}

#[test]
fn mounts_filtered_sorted_and_deduplicated() {
    let r = compact_mounts(profile().filesystem.mounts);
    let paths: Vec<&str> = r.iter().map(|m| m.path.as_str()).collect();
    assert_eq!(paths, vec!["/", "/Volumes/USB", "/home"]);
}

#[test]
fn local_ips_keep_ipv4_sorted() {
    let r = compact_local_ips(profile().network_identity.local_ips);
    assert_eq!(r, strings(&["10.0.0.5", "172.16.0.1"]));
}

#[test]
fn ports_filtered_sorted_and_deduplicated() {
    let mut ports = profile().listening_ports;
    ports.push(port(7000, "ControlCenter", 9));
    ports.push(port(5000, "rapportd", 8));
    let r = compact_listening_ports(ports);
    let keys: Vec<(u16, &str, u32)> = r.iter().map(|p| (p.port, p.app.as_str(), p.pid)).collect();
    assert_eq!(keys, vec![(22, "sshd", 2), (8080, "node", 1)]);
    let many: Vec<ListeningPort> = (1..=20).map(|i| port(i, "svc", i as u32)).collect();
    assert_eq!(compact_listening_ports(many).len(), 12);
}

#[test]
fn history_normalized_and_bounded() {
    let r = compact_shell_history(profile().recent_activity.shell_history);
    assert_eq!(r, strings(&["cd /tmp", "git status", "make", "vim", "ls"]));
    assert_eq!(
        normalize_shell_history_line(&format!("  echo hi;{}EC=0  ", " ".repeat(17))),
        Some("echo hi".to_string())
    );
    assert_eq!(normalize_shell_history_line("x ___BEGIN___COMMAND_DONE_MARKER___ y"), None);
    assert_eq!(normalize_shell_history_line("PS2=> "), None);
    assert_eq!(normalize_shell_history_line("   "), None);
    let r = compact_shell_history(strings(&["a", "echo ___BEGIN___COMMAND_DONE_MARKER___", "a", "b", "b", "c"]));
    assert_eq!(r, strings(&["a", "b", "c"]));
    assert!(r.len() <= 5);
    assert_eq!(compact_shell_history(strings(&["a", "b", "a"])), strings(&["b", "a"]));
    let r = compact_shell_history(strings(&["x", "a", "b", "c", "d", "e", "x", "f"]));
    assert_eq!(r, strings(&["c", "d", "e", "x", "f"]));
}

#[test]
fn sessions_drop_local_origins() {
    let r = compact_sessions(profile().other_sessions);
    assert_eq!(r, vec![session("10.0.0.9")]);
    let many: Vec<SessionInfo> = (0..5).map(|i| session(&format!("10.0.0.{i}"))).collect();
    assert_eq!(compact_sessions(many).len(), 3);
}

#[test]
fn compaction_is_idempotent() {
    let once = profile().compact();
    let twice = once.clone().compact();
    assert_eq!(twice, once);
    assert!(once.recent_activity.running_since_boot.is_empty());
    assert_eq!(once.user.groups, strings(&["audio", "docker"]));
    assert_eq!(once.machine, profile().machine);
}

#[test]
fn compaction_bounds_groups_and_history() {
    let mut w = profile();
    w.user.groups = strings(&["admin", "staff", "wheel"]);
    let c = w.compact();
    assert_eq!(c.user.groups, strings(&["admin"]));
    assert!(c.recent_activity.shell_history.len() <= 5);
    assert!(c
        .recent_activity
        .shell_history
        .iter()
        .all(|l| !l.contains("___BEGIN___COMMAND_DONE_MARKER___")));
}
