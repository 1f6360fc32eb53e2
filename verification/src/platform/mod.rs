//! What the platforms share, and the decisions each of them makes on bytes and
//! values that its own calls return.
use vstd::prelude::*;

pub mod icon;
pub mod mac;
pub mod mac_system;
pub mod processes;
pub mod registry;
pub mod volumes;
pub mod win;

verus! {

/// One entry of a directory listing, before any rule of a scan is applied.
#[derive(Clone, Debug)]
pub struct DirEntryData {
    /// The name in UTF-16 units.
    pub name: Vec<u16>,
    pub is_dir: bool,
    /// Bytes of content.
    pub logical: u64,
    /// Bytes taken on disk.
    pub on_disk: u64,
    /// Unix seconds (0: unknown).
    pub modified: i64,
    /// Unix seconds (0: unknown).
    pub created: i64,
    /// The tag of a reparse point.
    pub reparse_tag: Option<u32>,
    /// The content is not on this machine.
    pub cloud: bool,
    /// Identity of the file on its volume (0: unknown).
    pub file_id: u64,
}

/// What a directory entry says, as plain values.
pub struct Listed {
    pub name: Seq<u16>,
    pub is_dir: bool,
    pub logical: nat,
    pub on_disk: nat,
    pub modified: int,
    pub created: int,
    pub reparse_tag: Option<u32>,
    pub cloud: bool,
    pub file_id: nat,
}

impl DirEntryData {
    /// The entry as plain values.
    pub open spec fn listed(&self) -> Listed {
        Listed {
            name: self.name@,
            is_dir: self.is_dir,
            logical: self.logical as nat,
            on_disk: self.on_disk as nat,
            modified: self.modified as int,
            created: self.created as int,
            reparse_tag: self.reparse_tag,
            cloud: self.cloud,
            file_id: self.file_id as nat,
        }
    }
}

/// The entries as plain values.
pub open spec fn listed(entries: Seq<DirEntryData>) -> Seq<Listed> {
    entries.map_values(|e: DirEntryData| e.listed())
}

/// Why a directory was not listed to its end.
#[derive(Clone, Debug)]
pub enum ListError {
    AccessDenied,
    /// The directory went away.
    Vanished,
    Other(String),
}

/// The same, with the text as characters.
pub enum Failure {
    AccessDenied,
    Vanished,
    Other(Seq<char>),
}

/// A listing error as a plain value.
pub open spec fn failure(e: Option<ListError>) -> Option<Failure> {
    match e {
        None => None,
        Some(ListError::AccessDenied) => Some(Failure::AccessDenied),
        Some(ListError::Vanished) => Some(Failure::Vanished),
        Some(ListError::Other(t)) => Some(Failure::Other(t@)),
    }
}

/// A directory's entries, and the error that cut the listing short.
#[derive(Clone, Debug)]
pub struct DirListing {
    pub entries: Vec<DirEntryData>,
    pub error: Option<ListError>,
}

/// What a drive does with deleted items.
#[derive(Clone, Copy, Debug, PartialEq, Eq, Structural)]
pub struct BinPolicy {
    /// Deleted items are gone at once.
    pub nuke_on_delete: bool,
    /// Capacity of the bin in MB, where one is set.
    pub max_capacity_mb: Option<u64>,
}

/// A short UTF-16 label.
#[derive(Clone, Debug)]
pub struct String16(pub Vec<u16>);

/// The space on a volume.
#[derive(Clone, Debug)]
pub struct StorageSnapshot {
    /// Volume label (empty when unavailable).
    pub label: String16,
    pub total: u64,
    /// `total` less `free`.
    pub used: u64,
    pub free: u64,
}

/// The figures of an NTFS volume that a raw scan needs.
#[derive(Clone, Copy, Debug, PartialEq, Eq, Structural)]
pub struct TurboGeometry {
    pub bytes_per_sector: u32,
    pub bytes_per_cluster: u32,
    pub bytes_per_record: u32,
    pub mft_valid_data_length: u64,
}

/// Processor time counters; `kernel` contains `idle`.
#[derive(Clone, Copy, Debug, PartialEq, Eq, Structural)]
pub struct CpuTicks {
    pub idle: u64,
    pub kernel: u64,
    pub user: u64,
}

/// One mounted volume.
#[derive(Clone, Debug)]
pub struct VolumeSample {
    pub root: String,
    pub label: String,
    pub total: u64,
    pub free: u64,
}

/// One process: id, name, kernel and user time in units of 100 ns, and bytes of
/// memory in use.
pub struct Proc {
    pub pid: nat,
    pub name: Seq<char>,
    pub kernel: nat,
    pub user: nat,
    pub memory: nat,
}

/// Process rows as plain values.
pub open spec fn procs(v: Seq<(u32, String, u64, u64, u64)>) -> Seq<Proc> {
    v.map_values(
        |p: (u32, String, u64, u64, u64)|
            Proc {
                pid: p.0 as nat,
                name: p.1@,
                kernel: p.2 as nat,
                user: p.3 as nat,
                memory: p.4 as nat,
            },
    )
}

/// One raw snapshot of the machine; differences between two of them are the
/// caller's to take.
#[derive(Clone, Debug)]
pub struct RawMonitor {
    pub ticks: CpuTicks,
    pub threads: u32,
    pub processes: u32,
    pub mem_total: u64,
    pub mem_available: u64,
    pub kernel_paged: u64,
    pub kernel_nonpaged: u64,
    pub system_cache: u64,
    pub commit_total: u64,
    pub commit_limit: u64,
    /// Memory held by the compressor, where known.
    pub compressed_ws: Option<u64>,
    pub net_in: u64,
    pub net_out: u64,
    pub volumes: Vec<VolumeSample>,
    /// Id, name, kernel time, user time, memory in use.
    pub procs: Vec<(u32, String, u64, u64, u64)>,
}

/// A folder that the system knows by name.
#[derive(Clone, Copy, Debug, PartialEq, Eq, Structural)]
pub enum KnownFolder {
    LocalAppData,
    RoamingAppData,
    ProgramData,
    ProgramFiles,
    ProgramFilesX86,
    ProgramFilesWindowsApps,
    UserPrograms,
    Profile,
}

/// The text of a result's error.
pub open spec fn outcome<T>(r: Result<T, String>) -> Result<T, Seq<char>> {
    match r {
        Ok(v) => Ok(v),
        Err(t) => Err(t@),
    }
}

/// One raw uninstall entry of the registry.
#[derive(Clone, Debug)]
pub struct RawRegistryApp {
    /// Hive and subkey, the stable id.
    pub id: String,
    pub name: String,
    pub publisher: String,
    pub version: String,
    pub install_location: String,
    pub uninstall_string: String,
    pub quiet_uninstall_string: String,
    /// Path of the icon ("" when absent).
    pub display_icon: String,
}

/// One raw Store package.
#[derive(Clone, Debug)]
pub struct RawMsixApp {
    /// Package full name, the stable id.
    pub id: String,
    pub name: String,
    pub publisher: String,
    pub version: String,
    pub install_location: String,
    pub family_name: String,
}

} // verus!
