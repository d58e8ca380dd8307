//! The record schemas: the momentary `Observation` and the one-shot
//! `WakeObservation` profile.
//!
//! Times are integers: wall-clock timestamps in microseconds since the Unix
//! epoch, durations in milliseconds or seconds as the field name says, sizes
//! in hundredths of a gigabyte and display scale in thousandths.
use vstd::prelude::*;

verus! {

/// The schema version of every record this library produces.
pub const SCHEMA_VERSION: u32 = 1;

#[derive(Debug, Clone, PartialEq, Eq)]
pub struct WakeObservation {
    pub schema_version: u32,
    /// Microseconds since the Unix epoch.
    pub ts: u64,
    pub machine: MachineInfo,
    pub user: UserInfo,
    pub datetime: DateTimeInfo,
    pub filesystem: FilesystemInfo,
    pub installed_apps: Vec<InstalledApp>,
    pub network_identity: NetworkIdentity,
    pub listening_ports: Vec<ListeningPort>,
    pub resources: ResourceInfo,
    pub recent_activity: RecentActivity,
    pub other_sessions: Vec<SessionInfo>,
}

#[derive(Debug, Clone, PartialEq, Eq)]
pub struct MachineInfo {
    pub hostname: String,
    pub os: String,
    pub os_version: String,
    pub kernel: String,
    pub arch: String,
    pub is_vm: bool,
    pub is_container: bool,
    pub hypervisor: Option<String>,
    pub chassis: String,
}

#[derive(Debug, Clone, PartialEq, Eq)]
pub struct UserInfo {
    pub username: String,
    pub full_name: String,
    pub home_dir: String,
    pub shell: String,
    pub uid: u32,
    pub groups: Vec<String>,
}

#[derive(Debug, Clone, PartialEq, Eq)]
pub struct DateTimeInfo {
    /// Microseconds since the Unix epoch.
    pub ts: u64,
    pub iso: String,
    pub timezone: String,
    pub utc_offset_seconds: i32,
    pub uptime_seconds: u64,
    /// Microseconds since the Unix epoch.
    pub login_ts: u64,
}

#[derive(Debug, Clone, PartialEq, Eq)]
pub struct FilesystemInfo {
    pub home_tree: Vec<HomeTreeEntry>,
    pub recent_files: Vec<RecentFileInfo>,
    pub mounts: Vec<MountInfo>,
}

#[derive(Debug, Clone, PartialEq, Eq)]
pub struct HomeTreeEntry {
    pub path: String,
    pub kind: String,
    pub children: Option<Vec<String>>,
    pub entry_count: Option<usize>,
}

#[derive(Debug, Clone, PartialEq, Eq)]
pub struct RecentFileInfo {
    pub path: String,
    pub modified_ago_s: u64,
}

#[derive(Debug, Clone, PartialEq, Eq)]
pub struct MountInfo {
    pub path: String,
    pub fs_type: String,
    /// Hundredths of a gigabyte.
    pub total_cgb: u64,
    /// Hundredths of a gigabyte.
    pub free_cgb: u64,
}

#[derive(Debug, Clone, PartialEq, Eq)]
pub struct InstalledApp {
    pub name: String,
    pub id: String,
    pub kind: String,
    pub version: Option<String>,
}

#[derive(Debug, Clone, PartialEq, Eq)]
pub struct NetworkIdentity {
    pub local_ips: Vec<String>,
    pub public_ip: Option<String>,
    pub vpn_active: bool,
    pub vpn_interface: Option<String>,
    pub default_gateway: Option<String>,
    pub dns_servers: Vec<String>,
    pub hostname_fqdn: Option<String>,
}

#[derive(Debug, Clone, PartialEq, Eq)]
pub struct ListeningPort {
    pub port: u16,
    pub proto: String,
    pub pid: u32,
    pub app: String,
    pub addr: String,
}

#[derive(Debug, Clone, PartialEq, Eq)]
pub struct ResourceInfo {
    pub cpu_cores: u32,
    pub cpu_model: String,
    /// Hundredths of a gigabyte.
    pub ram_total_cgb: u64,
    /// Hundredths of a gigabyte.
    pub ram_free_cgb: u64,
    pub gpus: Vec<GpuInfo>,
}

#[derive(Debug, Clone, PartialEq, Eq)]
pub struct GpuInfo {
    pub name: String,
    /// Hundredths of a gigabyte.
    pub vram_cgb: Option<u64>,
    pub driver: String,
}

#[derive(Debug, Clone, PartialEq, Eq)]
pub struct RecentActivity {
    pub shell_history: Vec<String>,
    pub running_since_boot: Vec<RunningProcessInfo>,
}

#[derive(Debug, Clone, PartialEq, Eq)]
pub struct RunningProcessInfo {
    pub pid: u32,
    pub app: String,
    pub started_ago_s: u64,
}

#[derive(Debug, Clone, PartialEq, Eq)]
pub struct SessionInfo {
    pub username: String,
    pub tty: String,
    pub from: String,
    /// Microseconds since the Unix epoch.
    pub login_ts: u64,
}

#[derive(Debug, Clone, PartialEq, Eq)]
pub struct Observation {
    pub schema_version: u32,
    /// Microseconds since the Unix epoch.
    pub ts: u64,
    pub monotonic_ms: u64,
    pub idle_ms: u64,
    pub focus: Option<WindowInfo>,
    pub windows: Vec<WindowInfo>,
    pub cursor: Point,
    pub displays: Vec<DisplayInfo>,
    pub terminal_ctx: Option<TerminalCtx>,
    pub net_connections: Vec<ConnInfo>,
    pub fs_events: Vec<FSEvent>,
}

#[derive(Debug, Clone, PartialEq, Eq)]
pub struct WindowInfo {
    pub id: String,
    pub title: String,
    pub app: String,
    pub pid: u32,
    pub bounds: Bounds,
    pub workspace: i32,
    pub is_minimized: bool,
    pub is_fullscreen: bool,
}

#[derive(Debug, Clone, PartialEq, Eq)]
pub struct DisplayInfo {
    pub id: i32,
    pub bounds: Bounds,
    pub is_primary: bool,
    /// Thousandths: 1000 is a scale factor of one.
    pub scale_milli: u32,
}

#[derive(Debug, Clone, PartialEq, Eq)]
pub struct TerminalCtx {
    pub cwd: String,
    pub shell: String,
}

#[derive(Debug, Clone, PartialEq, Eq)]
pub struct ConnInfo {
    pub proto: String,
    pub local_port: u16,
    pub remote_addr: String,
    pub remote_port: u16,
    pub pid: u32,
    pub app: String,
    pub state: String,
}

/// The four kinds of filesystem change that are reported.
#[derive(Debug, Clone, Copy, PartialEq, Eq, Structural)]
pub enum FsEventKind {
    Create,
    Delete,
    Rename,
    Modify,
}

impl FsEventKind {
    /// The name of the kind as it appears in a record.
    pub fn name(&self) -> (r: &'static str)
        ensures
            r@ == fs_event_kind_name(*self),
    {
        match self {
            FsEventKind::Create => "Create",
            FsEventKind::Delete => "Delete",
            FsEventKind::Rename => "Rename",
            FsEventKind::Modify => "Modify",
        }
    }
}

/// The name of each kind of filesystem change.
pub open spec fn fs_event_kind_name(k: FsEventKind) -> Seq<char> {
    match k {
        FsEventKind::Create => "Create"@,
        FsEventKind::Delete => "Delete"@,
        FsEventKind::Rename => "Rename"@,
        FsEventKind::Modify => "Modify"@,
    }
}

#[derive(Debug, Clone, PartialEq, Eq)]
pub struct FSEvent {
    pub path: String,
    pub kind: FsEventKind,
    /// Microseconds since the Unix epoch.
    pub ts: u64,
}

#[derive(Debug, Clone, Copy, PartialEq, Eq, Structural)]
pub struct Point {
    pub x: i32,
    pub y: i32,
}

#[derive(Debug, Clone, Copy, PartialEq, Eq, Structural)]
pub struct Bounds {
    pub x: i32,
    pub y: i32,
    pub w: i32,
    pub h: i32,
}

} // verus!
