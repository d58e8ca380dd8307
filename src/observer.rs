//! The capability layer: the state of a snapshotter across calls, the
//! filesystem-event bridge, and the assembly of records from what the host
//! probes returned (baseline first, then platform enrichment).
use vstd::prelude::*;

use crate::observation::{
    Bounds, ConnInfo, DateTimeInfo, DisplayInfo, FSEvent, FilesystemInfo, FsEventKind, GpuInfo,
    HomeTreeEntry, InstalledApp, ListeningPort, MachineInfo, MountInfo, NetworkIdentity,
    Observation, Point, RecentActivity, RecentFileInfo, ResourceInfo, RunningProcessInfo,
    SessionInfo, TerminalCtx, UserInfo, WakeObservation, WindowInfo, SCHEMA_VERSION,
};
use crate::text::{ascii_lower, chars_contain, has_infix, to_ascii_lower};

verus! {

#[derive(Debug, Clone, PartialEq, Eq)]
pub struct ObserverConfig {
    /// The directory to watch; the user's home directory where absent.
    pub watch_path: Option<String>,
    pub all_connections: bool,
}

#[derive(Debug, Clone, PartialEq, Eq)]
pub struct WakeConfig {
    pub no_public_ip: bool,
}

/// The coarse classification of a change notification from a watch backend.
#[derive(Debug, Clone, Copy, PartialEq, Eq, Structural)]
pub enum RawEventKind {
    Create,
    Remove,
    Rename,
    Other,
}

/// One change notification, with the paths it concerns.
#[derive(Debug, Clone, PartialEq, Eq)]
pub struct RawFsEvent {
    pub kind: RawEventKind,
    pub paths: Vec<String>,
}

/// The reported kind of each raw kind; unrecognized kinds count as `Modify`.
pub open spec fn event_kind_of(k: RawEventKind) -> FsEventKind {
    match k {
        RawEventKind::Create => FsEventKind::Create,
        RawEventKind::Remove => FsEventKind::Delete,
        RawEventKind::Rename => FsEventKind::Rename,
        RawEventKind::Other => FsEventKind::Modify,
    }
}

/// The events a raw notification stands for: one per path, in order.
pub open spec fn events_of(e: RawFsEvent, ts: u64) -> Seq<FSEvent> {
    Seq::new(
        e.paths@.len(),
        |i: int| FSEvent { path: e.paths@[i], kind: event_kind_of(e.kind), ts },
    )
}

/// The events of a drained queue, notification after notification.
pub open spec fn events_of_all(raw: Seq<RawFsEvent>, ts: u64) -> Seq<FSEvent>
    decreases raw.len(),
{
    if raw.len() == 0 {
        Seq::empty()
    } else {
        events_of_all(raw.drop_last(), ts) + events_of(raw.last(), ts)
    }
}

/// Maps one raw notification to the events it stands for.
pub fn map_notify_event(event: RawFsEvent, ts: u64) -> (r: Vec<FSEvent>)
    ensures
        r@ == events_of(event, ts),
{
    let kind = match event.kind {
        RawEventKind::Create => FsEventKind::Create,
        RawEventKind::Remove => FsEventKind::Delete,
        RawEventKind::Rename => FsEventKind::Rename,
        RawEventKind::Other => FsEventKind::Modify,
    };
    let ghost e = event;
    let mut r: Vec<FSEvent> = Vec::new();
    let mut i: usize = 0;
    while i < event.paths.len()
        invariant
            e == event,
            kind == event_kind_of(e.kind),
            i <= e.paths@.len(),
            r@ == events_of(e, ts).subrange(0, i as int),
        decreases event.paths.len() - i,
    {
        r.push(FSEvent { path: event.paths[i].clone(), kind, ts });
        i = i + 1;
        assert(r@ =~= events_of(e, ts).subrange(0, i as int));
    }
    assert(r@ =~= events_of(e, ts));
    r
}

/// What the host probes returned for one snapshot.
#[derive(Debug, Clone, PartialEq, Eq)]
pub struct SnapshotProbe {
    /// The wall clock, in microseconds since the Unix epoch.
    pub ts: u64,
    /// Milliseconds since the snapshotter was constructed.
    pub elapsed_ms: u64,
    /// `$SHELL`, where set.
    pub shell: Option<String>,
    /// `$TERM`, where set.
    pub term: Option<String>,
    /// `$TERM_PROGRAM`, where set.
    pub term_program: Option<String>,
    pub pid: u32,
    /// The current directory, where it could be read.
    pub cwd: Option<String>,
    pub connections: Vec<ConnInfo>,
    /// The notifications drained from the watch queue, in arrival order.
    pub fs_events: Vec<RawFsEvent>,
}

/// The OS-agnostic snapshotter: the state that carries over between calls.
#[derive(Debug, Clone, PartialEq, Eq)]
pub struct BaselineObserver {
    pub all_connections: bool,
    pub seen_first_snapshot: bool,
    /// The largest monotonic duration reported so far.
    pub last_monotonic_ms: u64,
}

/// The placeholder window that stands for the terminal the process runs in.
pub open spec fn shell_window_ok(w: WindowInfo, probe: SnapshotProbe) -> bool {
    &&& w.id@ == "local-shell"@
    &&& w.title@ == (match probe.term {
        Some(t) => t@,
        None => "Terminal"@,
    })
    &&& w.app@ == (match probe.term_program {
        Some(t) => t@,
        None => "Terminal"@,
    })
    &&& w.pid == probe.pid
    &&& w.bounds == Bounds { x: 0, y: 0, w: 0, h: 0 }
    &&& w.workspace == 0
    &&& !w.is_minimized
    &&& !w.is_fullscreen
}

fn or_terminal(v: &Option<String>) -> (r: String)
    ensures
        r@ == (match v {
            Some(t) => t@,
            None => "Terminal"@,
        }),
{
    match v {
        Some(t) => t.clone(),
        None => String::from_str("Terminal"),
    }
}

fn shell_window(probe: &SnapshotProbe) -> (r: WindowInfo)
    ensures
        shell_window_ok(r, *probe),
{
    WindowInfo {
        id: String::from_str("local-shell"),
        title: or_terminal(&probe.term),
        app: or_terminal(&probe.term_program),
        pid: probe.pid,
        bounds: Bounds { x: 0, y: 0, w: 0, h: 0 },
        workspace: 0,
        is_minimized: false,
        is_fullscreen: false,
    }
}

impl BaselineObserver {
    pub fn new(config: &ObserverConfig) -> (r: BaselineObserver)
        ensures
            r.all_connections == config.all_connections,
            !r.seen_first_snapshot,
            r.last_monotonic_ms == 0,
    {
        BaselineObserver {
            all_connections: config.all_connections,
            seen_first_snapshot: false,
            last_monotonic_ms: 0,
        }
    }

    /// The filesystem events to report for a drained queue. The first call
    /// discards what was queued: watch backends announce pre-existing files
    /// when a watch is registered.
    pub fn collect_fs_events(&mut self, raw: Vec<RawFsEvent>, ts: u64) -> (r: Vec<FSEvent>)
        ensures
            !old(self).seen_first_snapshot ==> r@.len() == 0,
            old(self).seen_first_snapshot ==> r@ == events_of_all(raw@, ts),
            final(self).seen_first_snapshot,
            final(self).all_connections == old(self).all_connections,
            final(self).last_monotonic_ms == old(self).last_monotonic_ms,
    {
        let ghost all = raw@;
        let mut events: Vec<FSEvent> = Vec::new();
        let mut src = raw;
        let mut j: usize = 0;
        let n: usize = src.len();
        while src.len() > 0
            invariant
                n == all.len(),
                j <= all.len(),
                src@ == all.subrange(j as int, all.len() as int),
                events@ == events_of_all(all.subrange(0, j as int), ts),
            decreases src.len(),
        {
            let e = src.remove(0);
            proof {
                assert(all.subrange(0, j + 1).drop_last() =~= all.subrange(0, j as int));
            }
            let mut mapped = map_notify_event(e, ts);
            events.append(&mut mapped);
            j = j + 1;
            assert(src@ =~= all.subrange(j as int, all.len() as int));
        }
        assert(all.subrange(0, j as int) =~= all);
        if !self.seen_first_snapshot {
            self.seen_first_snapshot = true;
            return Vec::new();
        }
        events
    }

    /// The momentary record for what the probes returned. Its monotonic
    /// duration never falls below one reported before.
    pub fn snapshot(&mut self, probe: SnapshotProbe) -> (r: Observation)
        ensures
            r.schema_version == SCHEMA_VERSION,
            r.ts == probe.ts,
            r.monotonic_ms == (if probe.elapsed_ms >= old(self).last_monotonic_ms {
                probe.elapsed_ms
            } else {
                old(self).last_monotonic_ms
            }),
            r.monotonic_ms >= old(self).last_monotonic_ms,
            final(self).last_monotonic_ms == r.monotonic_ms,
            final(self).seen_first_snapshot,
            final(self).all_connections == old(self).all_connections,
            r.idle_ms == 0,
            r.cursor == (Point { x: 0, y: 0 }),
            r.net_connections == probe.connections,
            !old(self).seen_first_snapshot ==> r.fs_events@.len() == 0,
            old(self).seen_first_snapshot ==> r.fs_events@ == events_of_all(
                probe.fs_events@,
                probe.ts,
            ),
            probe.shell is Some ==> {
                &&& r.windows@.len() == 1
                &&& shell_window_ok(r.windows@[0], probe)
                &&& r.focus matches Some(f) && shell_window_ok(f, probe)
                &&& r.displays@.len() == 1
                &&& r.displays@[0] == (DisplayInfo {
                    id: 0,
                    bounds: Bounds { x: 0, y: 0, w: 0, h: 0 },
                    is_primary: true,
                    scale_milli: 1000,
                })
                &&& match probe.cwd {
                    Some(c) => r.terminal_ctx matches Some(t) && t.cwd == c && t.shell
                        == probe.shell->Some_0,
                    None => r.terminal_ctx is None,
                }
            },
            probe.shell is None ==> {
                &&& r.windows@.len() == 0
                &&& r.focus is None
                &&& r.displays@.len() == 0
                &&& r.terminal_ctx is None
            },
    {
        let monotonic_ms = if probe.elapsed_ms >= self.last_monotonic_ms {
            probe.elapsed_ms
        } else {
            self.last_monotonic_ms
        };
        self.last_monotonic_ms = monotonic_ms;
        let SnapshotProbe {
            ts,
            elapsed_ms: _,
            shell,
            term,
            term_program,
            pid,
            cwd,
            connections,
            fs_events,
        } = probe;
        let fs = self.collect_fs_events(fs_events, ts);
        match shell {
            Some(shell) => {
                let p = SnapshotProbe {
                    ts,
                    elapsed_ms: 0,
                    shell: None,
                    term,
                    term_program,
                    pid,
                    cwd: None,
                    connections: Vec::new(),
                    fs_events: Vec::new(),
                };
                let window = shell_window(&p);
                let focus = shell_window(&p);
                let terminal_ctx = match cwd {
                    Some(c) => Some(TerminalCtx { cwd: c, shell }),
                    None => None,
                };
                Observation {
                    schema_version: SCHEMA_VERSION,
                    ts,
                    monotonic_ms,
                    idle_ms: 0,
                    focus: Some(focus),
                    windows: vec![window],
                    cursor: Point { x: 0, y: 0 },
                    displays: vec![
                        DisplayInfo {
                            id: 0,
                            bounds: Bounds { x: 0, y: 0, w: 0, h: 0 },
                            is_primary: true,
                            scale_milli: 1000,
                        },
                    ],
                    terminal_ctx,
                    net_connections: connections,
                    fs_events: fs,
                }
            },
            None => Observation {
                schema_version: SCHEMA_VERSION,
                ts,
                monotonic_ms,
                idle_ms: 0,
                focus: None,
                windows: Vec::new(),
                cursor: Point { x: 0, y: 0 },
                displays: Vec::new(),
                terminal_ctx: None,
                net_connections: connections,
                fs_events: fs,
            },
        }
    }
}

} // verus!

verus! {

/// Hundredths of a gigabyte in `bytes`, rounded to nearest.
pub open spec fn cgb_of(bytes: u64) -> int {
    (bytes * 100 + 536870912) / 1073741824
}

pub fn bytes_to_cgb(bytes: u64) -> (r: u64)
    ensures
        r == cgb_of(bytes),
{
    let wide: u128 = (bytes as u128) * 100 + 536870912;
    (wide / 1073741824) as u64
}

/// Microseconds from the epoch to `seconds` before `ts`, or zero.
pub open spec fn before_by(ts: u64, seconds: u64) -> int {
    if ts >= seconds * 1000000 {
        ts - seconds * 1000000
    } else {
        0
    }
}

pub fn micros_before(ts: u64, seconds: u64) -> (r: u64)
    ensures
        r == before_by(ts, seconds),
{
    let span: u128 = (seconds as u128) * 1000000;
    if (ts as u128) >= span {
        ((ts as u128) - span) as u64
    } else {
        0
    }
}

/// Five years of seconds: a longer raw uptime is taken for garbage.
pub const FIVE_YEARS_S: u64 = 157680000;

/// Seconds since boot, from the boot time where it is known and plausible,
/// else from the raw uptime counter where that is plausible, else zero.
pub open spec fn uptime_of(now_us: u64, boot_time_s: u64, raw_uptime_s: u64) -> int {
    if boot_time_s > 0 && now_us > boot_time_s * 1000000 {
        (now_us - boot_time_s * 1000000) / 1000000
    } else if raw_uptime_s > now_us / 1000000 || raw_uptime_s > FIVE_YEARS_S {
        0
    } else {
        raw_uptime_s as int
    }
}

pub fn system_uptime_seconds(now_us: u64, boot_time_s: u64, raw_uptime_s: u64) -> (r: u64)
    ensures
        r == uptime_of(now_us, boot_time_s, raw_uptime_s),
{
    let boot_us: u128 = (boot_time_s as u128) * 1000000;
    if boot_time_s > 0 && (now_us as u128) > boot_us {
        (((now_us as u128) - boot_us) / 1000000) as u64
    } else if raw_uptime_s > now_us / 1000000 || raw_uptime_s > FIVE_YEARS_S {
        0
    } else {
        raw_uptime_s
    }
}

/// What the host probes returned for a full profile.
#[derive(Debug, Clone, PartialEq, Eq)]
pub struct WakeProbe {
    /// The wall clock, in microseconds since the Unix epoch.
    pub ts: u64,
    pub hostname: String,
    pub os: String,
    pub os_version: String,
    pub kernel: String,
    pub arch: String,
    pub is_container: bool,
    pub username: String,
    pub full_name: String,
    pub home_dir: String,
    pub shell: String,
    pub uid: u32,
    pub iso: String,
    pub timezone: String,
    pub utc_offset_seconds: i32,
    pub uptime_seconds: u64,
    pub home_tree: Vec<HomeTreeEntry>,
    pub recent_files: Vec<RecentFileInfo>,
    pub mounts: Vec<MountInfo>,
    pub installed_apps: Vec<InstalledApp>,
    pub local_ips: Vec<String>,
    /// The answer of the public-address service, where it was asked.
    pub public_ip: Option<String>,
    pub vpn_interface: Option<String>,
    pub dns_servers: Vec<String>,
    pub listening_ports: Vec<ListeningPort>,
    pub cpu_cores: u32,
    pub cpu_model: String,
    pub ram_total_bytes: u64,
    pub ram_free_bytes: u64,
    pub shell_history: Vec<String>,
}

/// The OS-agnostic profiler.
#[derive(Debug, Clone, PartialEq, Eq)]
pub struct BaselineWaker {
    pub config: WakeConfig,
}

impl BaselineWaker {
    pub fn new(config: WakeConfig) -> (r: BaselineWaker)
        ensures
            r.config == config,
    {
        BaselineWaker { config }
    }

    /// Whether the public-address service is to be asked at all.
    pub fn wants_public_ip(&self) -> (r: bool)
        ensures
            r == !self.config.no_public_ip,
    {
        !self.config.no_public_ip
    }

    /// The baseline profile for what the probes returned.
    pub fn wake(&self, probe: WakeProbe) -> (r: WakeObservation)
        ensures
            r.schema_version == SCHEMA_VERSION,
            r.ts == probe.ts,
            r.datetime.ts == probe.ts,
            r.datetime.uptime_seconds == probe.uptime_seconds,
            r.datetime.login_ts == before_by(probe.ts, probe.uptime_seconds),
            self.config.no_public_ip ==> r.network_identity.public_ip is None,
            !self.config.no_public_ip ==> r.network_identity.public_ip == probe.public_ip,
            r.network_identity.vpn_active == probe.vpn_interface is Some,
            r.network_identity.vpn_interface == probe.vpn_interface,
            r.network_identity.default_gateway is None,
            r.network_identity.hostname_fqdn == Some(probe.hostname),
            r.network_identity.local_ips == probe.local_ips,
            r.network_identity.dns_servers == probe.dns_servers,
            r.machine.hostname == probe.hostname,
            r.machine.os == probe.os,
            r.machine.is_container == probe.is_container,
            !r.machine.is_vm,
            r.machine.hypervisor is None,
            r.machine.chassis@ == "Unknown"@,
            r.user.username == probe.username,
            r.user.uid == probe.uid,
            r.user.groups@.len() == 0,
            r.filesystem.home_tree == probe.home_tree,
            r.filesystem.recent_files == probe.recent_files,
            r.filesystem.mounts == probe.mounts,
            r.installed_apps == probe.installed_apps,
            r.listening_ports == probe.listening_ports,
            r.resources.cpu_cores == probe.cpu_cores,
            r.resources.ram_total_cgb == cgb_of(probe.ram_total_bytes),
            r.resources.ram_free_cgb == cgb_of(probe.ram_free_bytes),
            r.resources.gpus@.len() == 1,
            r.resources.gpus@[0].name@ == "unknown"@,
            r.resources.gpus@[0].vram_cgb is None,
            r.resources.gpus@[0].driver@ == "unknown"@,
            r.resources.cpu_model == probe.cpu_model,
            r.machine.os_version == probe.os_version,
            r.machine.kernel == probe.kernel,
            r.machine.arch == probe.arch,
            r.user.full_name == probe.full_name,
            r.user.home_dir == probe.home_dir,
            r.user.shell == probe.shell,
            r.datetime.iso == probe.iso,
            r.datetime.timezone == probe.timezone,
            r.datetime.utc_offset_seconds == probe.utc_offset_seconds,
            r.recent_activity.shell_history == probe.shell_history,
            r.recent_activity.running_since_boot@.len() == 0,
            r.other_sessions@.len() == 0,
    {
        let WakeProbe {
            ts,
            hostname,
            os,
            os_version,
            kernel,
            arch,
            is_container,
            username,
            full_name,
            home_dir,
            shell,
            uid,
            iso,
            timezone,
            utc_offset_seconds,
            uptime_seconds,
            home_tree,
            recent_files,
            mounts,
            installed_apps,
            local_ips,
            public_ip,
            vpn_interface,
            dns_servers,
            listening_ports,
            cpu_cores,
            cpu_model,
            ram_total_bytes,
            ram_free_bytes,
            shell_history,
        } = probe;
        let public_ip = if self.config.no_public_ip {
            None
        } else {
            public_ip
        };
        let vpn_active = vpn_interface.is_some();
        let fqdn = hostname.clone();
        WakeObservation {
            schema_version: SCHEMA_VERSION,
            ts,
            machine: MachineInfo {
                hostname,
                os,
                os_version,
                kernel,
                arch,
                is_vm: false,
                is_container,
                hypervisor: None,
                chassis: String::from_str("Unknown"),
            },
            user: UserInfo { username, full_name, home_dir, shell, uid, groups: Vec::new() },
            datetime: DateTimeInfo {
                ts,
                iso,
                timezone,
                utc_offset_seconds,
                uptime_seconds,
                login_ts: micros_before(ts, uptime_seconds),
            },
            filesystem: FilesystemInfo { home_tree, recent_files, mounts },
            installed_apps,
            network_identity: NetworkIdentity {
                local_ips,
                public_ip,
                vpn_active,
                vpn_interface,
                default_gateway: None,
                dns_servers,
                hostname_fqdn: Some(fqdn),
            },
            listening_ports,
            resources: ResourceInfo {
                cpu_cores,
                cpu_model,
                ram_total_cgb: bytes_to_cgb(ram_total_bytes),
                ram_free_cgb: bytes_to_cgb(ram_free_bytes),
                gpus: vec![
                    GpuInfo {
                        name: String::from_str("unknown"),
                        vram_cgb: None,
                        driver: String::from_str("unknown"),
                    },
                ],
            },
            recent_activity: RecentActivity { shell_history, running_since_boot: Vec::new() },
            other_sessions: Vec::new(),
        }
    }
}

} // verus!

verus! {

/// An application name that belongs to a terminal emulator.
pub open spec fn is_terminal_name(app: Seq<char>) -> bool {
    let a = ascii_lower(app);
    has_infix(a, "alacritty"@) || has_infix(a, "kitty"@) || has_infix(a, "wezterm"@) || has_infix(
        a,
        "gnome-terminal"@,
    ) || has_infix(a, "konsole"@) || has_infix(a, "xterm"@) || has_infix(a, "foot"@)
}

pub fn is_terminal_app(app: &str) -> (r: bool)
    ensures
        r == is_terminal_name(app@),
{
    let a = to_ascii_lower(app);
    chars_contain(&a, "alacritty") || chars_contain(&a, "kitty") || chars_contain(&a, "wezterm")
        || chars_contain(&a, "gnome-terminal") || chars_contain(&a, "konsole") || chars_contain(
        &a,
        "xterm",
    ) || chars_contain(&a, "foot")
}

/// A copy of a window record.
pub fn copy_window(w: &WindowInfo) -> (r: WindowInfo)
    ensures
        r == *w,
{
    WindowInfo {
        id: w.id.clone(),
        title: w.title.clone(),
        app: w.app.clone(),
        pid: w.pid,
        bounds: w.bounds,
        workspace: w.workspace,
        is_minimized: w.is_minimized,
        is_fullscreen: w.is_fullscreen,
    }
}

/// Overlays what the Linux compositor reported on a baseline snapshot:
/// monitors and client windows where there are any, the active window as
/// focus, and, where that is a terminal whose directory could be read, the
/// terminal context.
pub fn enrich_linux_snapshot(
    obs: Observation,
    monitors: Option<Vec<DisplayInfo>>,
    clients: Option<Vec<WindowInfo>>,
    active: Option<WindowInfo>,
    focus_cwd: Option<String>,
) -> (r: Observation)
    ensures
        r.displays == (match monitors {
            Some(m) => if m@.len() > 0 {
                m
            } else {
                obs.displays
            },
            None => obs.displays,
        }),
        r.windows == (match clients {
            Some(c) => if c@.len() > 0 {
                c
            } else {
                obs.windows
            },
            None => obs.windows,
        }),
        r.focus == (match active {
            Some(f) => Some(f),
            None => obs.focus,
        }),
        match (active, focus_cwd) {
            (Some(f), Some(c)) => if is_terminal_name(f.app@) {
                r.terminal_ctx matches Some(t) && t.cwd == c && t.shell@ == "unknown"@
            } else {
                r.terminal_ctx == obs.terminal_ctx
            },
            _ => r.terminal_ctx == obs.terminal_ctx,
        },
        r.schema_version == obs.schema_version,
        r.ts == obs.ts,
        r.monotonic_ms == obs.monotonic_ms,
        r.idle_ms == obs.idle_ms,
        r.cursor == obs.cursor,
        r.net_connections == obs.net_connections,
        r.fs_events == obs.fs_events,
{
    let mut obs = obs;
    match monitors {
        Some(m) => {
            if m.len() > 0 {
                obs.displays = m;
            }
        },
        None => {},
    }
    match clients {
        Some(c) => {
            if c.len() > 0 {
                obs.windows = c;
            }
        },
        None => {},
    }
    match active {
        Some(f) => {
            if is_terminal_app(f.app.as_str()) {
                match focus_cwd {
                    Some(cwd) => {
                        obs.terminal_ctx = Some(
                            TerminalCtx { cwd, shell: String::from_str("unknown") },
                        );
                    },
                    None => {},
                }
            }
            obs.focus = Some(f);
        },
        None => {},
    }
    obs
}

/// Overlays what the macOS window server reported on a baseline snapshot:
/// displays and on-screen windows where there are any (the frontmost one
/// becoming the focus), the cursor and the idle time where known.
pub fn enrich_mac_snapshot(
    obs: Observation,
    displays: Vec<DisplayInfo>,
    windows: Vec<WindowInfo>,
    cursor: Option<Point>,
    idle_ms: Option<u64>,
) -> (r: Observation)
    ensures
        r.displays == (if displays@.len() > 0 {
            displays
        } else {
            obs.displays
        }),
        windows@.len() > 0 ==> r.windows == windows && r.focus == Some(windows@[0]),
        windows@.len() == 0 ==> r.windows == obs.windows && r.focus == obs.focus,
        r.cursor == (match cursor {
            Some(c) => c,
            None => obs.cursor,
        }),
        r.idle_ms == (match idle_ms {
            Some(i) => i,
            None => obs.idle_ms,
        }),
        r.terminal_ctx == obs.terminal_ctx,
        r.schema_version == obs.schema_version,
        r.ts == obs.ts,
        r.monotonic_ms == obs.monotonic_ms,
        r.net_connections == obs.net_connections,
        r.fs_events == obs.fs_events,
{
    let mut obs = obs;
    if displays.len() > 0 {
        obs.displays = displays;
    }
    if windows.len() > 0 {
        obs.focus = Some(copy_window(&windows[0]));
        obs.windows = windows;
    }
    match cursor {
        Some(c) => {
            obs.cursor = c;
        },
        None => {},
    }
    match idle_ms {
        Some(i) => {
            obs.idle_ms = i;
        },
        None => {},
    }
    obs
}

/// Whether a window covers at least 95% of some display in both directions.
pub open spec fn covers_display(b: Bounds, displays: Seq<DisplayInfo>) -> bool {
    exists|i: int|
        0 <= i < displays.len() && {
            let d = (#[trigger] displays[i]).bounds;
            let dw: int = if d.w >= 1 {
                d.w as int
            } else {
                1
            };
            let dh: int = if d.h >= 1 {
                d.h as int
            } else {
                1
            };
            let w: int = if b.w >= 0 {
                b.w as int
            } else {
                0
            };
            let h: int = if b.h >= 0 {
                b.h as int
            } else {
                0
            };
            w * 100 >= dw * 95 && h * 100 >= dh * 95
        }
}

pub fn is_window_fullscreen(bounds: &Bounds, displays: &Vec<DisplayInfo>) -> (r: bool)
    ensures
        r == covers_display(*bounds, displays@),
{
    let w: i64 = if bounds.w >= 0 {
        bounds.w as i64
    } else {
        0
    };
    let h: i64 = if bounds.h >= 0 {
        bounds.h as i64
    } else {
        0
    };
    let mut i: usize = 0;
    while i < displays.len()
        invariant
            0 <= w <= i32::MAX,
            0 <= h <= i32::MAX,
            w == (if bounds.w >= 0 {
                bounds.w as int
            } else {
                0
            }),
            h == (if bounds.h >= 0 {
                bounds.h as int
            } else {
                0
            }),
            i <= displays@.len(),
            forall|k: int| 0 <= k < i ==> !{
                let d = (#[trigger] displays@[k]).bounds;
                let dw: int = if d.w >= 1 {
                    d.w as int
                } else {
                    1
                };
                let dh: int = if d.h >= 1 {
                    d.h as int
                } else {
                    1
                };
                w * 100 >= dw * 95 && h * 100 >= dh * 95
            },
        decreases displays.len() - i,
    {
        let d = displays[i].bounds;
        let dw: i64 = if d.w >= 1 {
            d.w as i64
        } else {
            1
        };
        let dh: i64 = if d.h >= 1 {
            d.h as i64
        } else {
            1
        };
        if w * 100 >= dw * 95 && h * 100 >= dh * 95 {
            assert(displays@[i as int].bounds == d);
            return true;
        }
        i = i + 1;
    }
    false
}

} // verus!

verus! {

/// What the platform probes returned for a full profile; each absent or
/// empty value leaves the baseline as it is.
#[derive(Debug, Clone, PartialEq, Eq)]
pub struct ProfileEnrichment {
    /// The platform's name for the operating system.
    pub os: String,
    pub os_version: Option<String>,
    pub kernel: Option<String>,
    pub is_container: bool,
    pub chassis: Option<String>,
    pub groups: Vec<String>,
    pub default_gateway: Option<String>,
    pub dns_servers: Vec<String>,
    pub gpus: Vec<GpuInfo>,
    pub uptime_seconds: Option<u64>,
    pub running_since_boot: Vec<RunningProcessInfo>,
    pub sessions: Vec<SessionInfo>,
}

/// The earliest of `init` and the sessions' login times.
pub open spec fn earliest_login(init: u64, s: Seq<SessionInfo>) -> u64
    decreases s.len(),
{
    if s.len() == 0 {
        init
    } else {
        let e = earliest_login(init, s.drop_last());
        if s.last().login_ts < e {
            s.last().login_ts
        } else {
            e
        }
    }
}

fn earliest_login_of(init: u64, sessions: &Vec<SessionInfo>) -> (r: u64)
    ensures
        r == earliest_login(init, sessions@),
{
    let mut m = init;
    let mut i: usize = 0;
    while i < sessions.len()
        invariant
            i <= sessions@.len(),
            m == earliest_login(init, sessions@.subrange(0, i as int)),
        decreases sessions.len() - i,
    {
        proof {
            assert(sessions@.subrange(0, i + 1).drop_last() =~= sessions@.subrange(0, i as int));
        }
        if sessions[i].login_ts < m {
            m = sessions[i].login_ts;
        }
        i = i + 1;
    }
    assert(sessions@.subrange(0, i as int) =~= sessions@);
    m
}

/// The login time after the uptime override, before the sessions are seen.
pub open spec fn login_after_uptime(w: WakeObservation, e: ProfileEnrichment) -> u64 {
    match e.uptime_seconds {
        Some(u) => before_by(w.ts, u) as u64,
        None => w.datetime.login_ts,
    }
}

/// Overlays what the platform probes returned on a baseline profile. Each
/// step either improves its fields or leaves them; none stops another.
#[verifier::rlimit(80)]
pub fn enrich_profile(wake: WakeObservation, e: ProfileEnrichment) -> (r: WakeObservation)
    ensures
        r.machine.os == e.os,
        r.machine.os_version == (match e.os_version {
            Some(v) => v,
            None => wake.machine.os_version,
        }),
        r.machine.kernel == (match e.kernel {
            Some(k) => k,
            None => wake.machine.kernel,
        }),
        r.machine.is_container == (wake.machine.is_container || e.is_container),
        r.machine.chassis == (match e.chassis {
            Some(c) => c,
            None => wake.machine.chassis,
        }),
        r.machine.hostname == wake.machine.hostname,
        r.machine.arch == wake.machine.arch,
        r.machine.is_vm == wake.machine.is_vm,
        r.machine.hypervisor == wake.machine.hypervisor,
        r.user.username == wake.user.username,
        r.user.full_name == wake.user.full_name,
        r.user.home_dir == wake.user.home_dir,
        r.user.shell == wake.user.shell,
        r.user.uid == wake.user.uid,
        r.network_identity.vpn_active == wake.network_identity.vpn_active,
        r.network_identity.vpn_interface == wake.network_identity.vpn_interface,
        r.network_identity.hostname_fqdn == wake.network_identity.hostname_fqdn,
        r.resources.cpu_cores == wake.resources.cpu_cores,
        r.resources.cpu_model == wake.resources.cpu_model,
        r.resources.ram_total_cgb == wake.resources.ram_total_cgb,
        r.resources.ram_free_cgb == wake.resources.ram_free_cgb,
        r.datetime.ts == wake.datetime.ts,
        r.datetime.iso == wake.datetime.iso,
        r.datetime.timezone == wake.datetime.timezone,
        r.datetime.utc_offset_seconds == wake.datetime.utc_offset_seconds,
        r.user.groups == (if e.groups@.len() > 0 {
            e.groups
        } else {
            wake.user.groups
        }),
        r.network_identity.default_gateway == (match e.default_gateway {
            Some(g) => Some(g),
            None => wake.network_identity.default_gateway,
        }),
        r.network_identity.dns_servers == (if e.dns_servers@.len() > 0 {
            e.dns_servers
        } else {
            wake.network_identity.dns_servers
        }),
        r.network_identity.public_ip == wake.network_identity.public_ip,
        r.network_identity.local_ips == wake.network_identity.local_ips,
        r.resources.gpus == (if e.gpus@.len() > 0 {
            e.gpus
        } else {
            wake.resources.gpus
        }),
        r.datetime.uptime_seconds == (match e.uptime_seconds {
            Some(u) => u,
            None => wake.datetime.uptime_seconds,
        }),
        r.datetime.login_ts == (if e.sessions@.len() > 0 {
            earliest_login(login_after_uptime(wake, e), e.sessions@)
        } else {
            login_after_uptime(wake, e)
        }),
        r.recent_activity.running_since_boot == (if e.running_since_boot@.len() > 0 {
            e.running_since_boot
        } else {
            wake.recent_activity.running_since_boot
        }),
        r.recent_activity.shell_history == wake.recent_activity.shell_history,
        r.other_sessions == (if e.sessions@.len() > 0 {
            e.sessions
        } else {
            wake.other_sessions
        }),
        r.schema_version == wake.schema_version,
        r.ts == wake.ts,
        r.filesystem == wake.filesystem,
        r.listening_ports == wake.listening_ports,
        r.installed_apps == wake.installed_apps,
{
    let mut w = wake;
    let ProfileEnrichment {
        os,
        os_version,
        kernel,
        is_container,
        chassis,
        groups,
        default_gateway,
        dns_servers,
        gpus,
        uptime_seconds,
        running_since_boot,
        sessions,
    } = e;
    w.machine.os = os;
    match os_version {
        Some(v) => {
            w.machine.os_version = v;
        },
        None => {},
    }
    match kernel {
        Some(k) => {
            w.machine.kernel = k;
        },
        None => {},
    }
    w.machine.is_container = w.machine.is_container || is_container;
    match chassis {
        Some(c) => {
            w.machine.chassis = c;
        },
        None => {},
    }
    if groups.len() > 0 {
        w.user.groups = groups;
    }
    match default_gateway {
        Some(g) => {
            w.network_identity.default_gateway = Some(g);
        },
        None => {},
    }
    if dns_servers.len() > 0 {
        w.network_identity.dns_servers = dns_servers;
    }
    if gpus.len() > 0 {
        w.resources.gpus = gpus;
    }
    match uptime_seconds {
        Some(u) => {
            w.datetime.uptime_seconds = u;
            w.datetime.login_ts = micros_before(w.ts, u);
        },
        None => {},
    }
    if running_since_boot.len() > 0 {
        w.recent_activity.running_since_boot = running_since_boot;
    }
    if sessions.len() > 0 {
        w.datetime.login_ts = earliest_login_of(w.datetime.login_ts, &sessions);
        w.other_sessions = sessions;
    }
    w
}

/// The chassis class of a DMI chassis-type code.
pub open spec fn chassis_name(code: u32) -> Seq<char> {
    if 8 <= code && code <= 14 {
        "Laptop"@
    } else if (3 <= code && code <= 7) || code == 15 || code == 16 {
        "Desktop"@
    } else {
        "Unknown"@
    }
}

pub fn chassis_from_dmi_code(code: u32) -> (r: String)
    ensures
        r@ == chassis_name(code),
{
    if 8 <= code && code <= 14 {
        String::from_str("Laptop")
    } else if (3 <= code && code <= 7) || code == 15 || code == 16 {
        String::from_str("Desktop")
    } else {
        String::from_str("Unknown")
    }
}

/// The chassis class of a Mac hardware model name.
pub fn mac_chassis(model: &str) -> (r: String)
    ensures
        r@ == (if crate::text::has_prefix(model@, "MacBook"@) {
            "Laptop"@
        } else {
            "Desktop"@
        }),
{
    if crate::text::starts_with(model, "MacBook") {
        String::from_str("Laptop")
    } else {
        String::from_str("Desktop")
    }
}

/// The kernel description of a Darwin release.
pub fn darwin_kernel(release: &str) -> (r: String)
    ensures
        r@ == "Darwin "@ + release@,
{
    String::from_str("Darwin ").concat(release)
}

} // verus!

verus! {

/// After the first snapshot, a drained queue holding one creation notice for
/// one path is reported as exactly one `Create` event for that path.
pub proof fn lemma_single_create_reported(e: RawFsEvent, path: String, ts: u64)
    requires
        e.kind == RawEventKind::Create,
        e.paths@ == seq![path],
    ensures
        events_of_all(seq![e], ts) == seq![FSEvent { path, kind: FsEventKind::Create, ts }],
{
    let one = seq![e];
    assert(one.drop_last() =~= Seq::<RawFsEvent>::empty());
    assert(one.last() == e);
    assert(events_of_all(one.drop_last(), ts) == Seq::<FSEvent>::empty());
    assert(events_of(e, ts) =~= seq![FSEvent { path, kind: FsEventKind::Create, ts }]);
    assert(events_of_all(one, ts) == events_of_all(one.drop_last(), ts) + events_of(e, ts));
    assert(Seq::<FSEvent>::empty() + events_of(e, ts) =~= events_of(e, ts));
}

} // verus!
