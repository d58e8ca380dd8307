use vizier::observation::{MountInfo, SCHEMA_VERSION};
use vizier::observer::{BaselineWaker, WakeConfig, WakeProbe};

fn probe(public_ip: Option<String>) -> WakeProbe {
    WakeProbe {
        ts: 1_700_000_000_000_000,
        hostname: "host".to_string(),
        os: "linux".to_string(),
        os_version: "unknown".to_string(),
        kernel: "unknown".to_string(),
        arch: "x86_64".to_string(),
        is_container: false,
        username: "alice".to_string(),
        full_name: "Alice".to_string(),
        home_dir: "/home/alice".to_string(),
        shell: "/bin/zsh".to_string(),
        uid: 1000,
        iso: "2023-11-14T22:13:20+00:00".to_string(),
        timezone: "+00:00".to_string(),
        utc_offset_seconds: 0,
        uptime_seconds: 3600,
        home_tree: Vec::new(),
        recent_files: Vec::new(),
        mounts: vec![MountInfo {
            path: "/".to_string(),
            fs_type: "ext4".to_string(),
            total_cgb: 1000,
            free_cgb: 500,
        }],
        installed_apps: Vec::new(),
        local_ips: vec!["192.168.1.2".to_string()],
        public_ip,
        vpn_interface: None,
        dns_servers: Vec::new(),
        listening_ports: Vec::new(),
        cpu_cores: 8,
        cpu_model: "cpu".to_string(),
        ram_total_bytes: 17_179_869_184,
        ram_free_bytes: 8_589_934_592,
        shell_history: Vec::new(),
    }
}

#[test]
fn wake_respects_no_public_ip_flag() {
    let waker = BaselineWaker::new(WakeConfig { no_public_ip: true });
    let wake = waker.wake(probe(Some("203.0.113.9".to_string())));

    assert_eq!(wake.schema_version, 1);
    assert!(wake.ts > 0);
    assert!(wake.network_identity.public_ip.is_none());
}

#[test]
fn wake_keeps_public_ip_when_probed() {
    let waker = BaselineWaker::new(WakeConfig { no_public_ip: false });
    assert!(waker.wants_public_ip());
    let wake = waker.wake(probe(Some("203.0.113.9".to_string())));
    assert_eq!(wake.network_identity.public_ip.as_deref(), Some("203.0.113.9"));
    assert_eq!(wake.schema_version, SCHEMA_VERSION);
    assert_eq!(wake.datetime.login_ts, 1_700_000_000_000_000 - 3_600_000_000);
    assert_eq!(wake.resources.ram_total_cgb, 1600);
    assert_eq!(wake.resources.ram_free_cgb, 800);
    assert_eq!(wake.network_identity.hostname_fqdn.as_deref(), Some("host"));
    assert_eq!(wake.machine.chassis, "Unknown");
    assert!(!wake.network_identity.vpn_active);
}

#[test]
fn no_public_ip_waker_does_not_ask() {
    let waker = BaselineWaker::new(WakeConfig { no_public_ip: true });
    assert!(!waker.wants_public_ip());
}
