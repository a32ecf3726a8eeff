use vstd::prelude::*;

verus! {

/// The port the daemon listens on unless told otherwise.
pub const DEFAULT_PORT: u16 = 9126;

/// The address the daemon binds to unless told otherwise.
pub const DEFAULT_BIND: &'static str = "127.0.0.1";

/// The version segment of the HTTP API's paths.
pub const API_VERSION: &'static str = "v1";

/// Space figures of one mounted filesystem, in bytes. `free_bytes` is the
/// space available to unprivileged users, as `df` reports it.
#[derive(Clone, Copy, Debug, PartialEq, Eq, Structural)]
pub struct Usage {
    pub used_bytes: u64,
    pub free_bytes: u64,
    pub total_bytes: u64,
}

impl Usage {
    /// The figures that `statvfs` yields for a filesystem with `blocks`
    /// fragments in all, `blocks_available` of them free to unprivileged
    /// users, each `fragment_size` bytes long. The used space is the total
    /// less the free space, floored at zero. Where the total or the free
    /// space does not fit in 64 bits there are no figures, and the mount is
    /// reported as unreadable.
    pub fn from_block_counts(blocks: u64, blocks_available: u64, fragment_size: u64) -> (r: Option<Usage>)
        ensures
            r is None <==> (blocks * fragment_size > u64::MAX || blocks_available * fragment_size
                > u64::MAX),
            r matches Some(u) ==> {
                &&& u.total_bytes == blocks * fragment_size
                &&& u.free_bytes == blocks_available * fragment_size
                &&& u.used_bytes == (if u.total_bytes >= u.free_bytes {
                    u.total_bytes - u.free_bytes
                } else {
                    0
                })
            },
    {
        let total_bytes = match blocks.checked_mul(fragment_size) {
            Some(t) => t,
            None => return None,
        };
        let free_bytes = match blocks_available.checked_mul(fragment_size) {
            Some(f) => f,
            None => return None,
        };
        let used_bytes = total_bytes.saturating_sub(free_bytes);
        Some(Usage { used_bytes, free_bytes, total_bytes })
    }
}

/// What a file entry denotes: its path and its size.
pub struct FileEntryView {
    pub path: Seq<char>,
    pub size_bytes: u64,
}

/// One file of a mount's largest-files list.
#[derive(Clone, Debug, PartialEq, Eq)]
pub struct FileEntry {
    pub path: String,
    pub size_bytes: u64,
}

impl View for FileEntry {
    type V = FileEntryView;

    open spec fn view(&self) -> FileEntryView {
        FileEntryView { path: self.path@, size_bytes: self.size_bytes }
    }
}

/// The views of a list of file entries.
pub open spec fn file_views(files: Seq<FileEntry>) -> Seq<FileEntryView> {
    files.map_values(|f: FileEntry| f@)
}

impl FileEntry {
    /// A copy of this entry with the same path and size.
    pub fn duplicate(&self) -> (r: FileEntry)
        ensures
            r@ == self@,
    {
        FileEntry { path: self.path.clone(), size_bytes: self.size_bytes }
    }
}

/// A copy of a list of file entries, entry by entry.
pub fn duplicate_files(files: &Vec<FileEntry>) -> (r: Vec<FileEntry>)
    ensures
        file_views(r@) == file_views(files@),
{
    let mut r: Vec<FileEntry> = Vec::new();
    for i in 0..files.len()
        invariant
            r@.len() == i,
            forall|j: int| 0 <= j < i ==> #[trigger] r@[j]@ == files@[j]@,
    {
        r.push(files[i].duplicate());
    }
    assert(file_views(r@) =~= file_views(files@));
    r
}

/// What a mount denotes, with its strings taken as character sequences.
pub struct MountView {
    pub mount_point: Seq<char>,
    pub device: Seq<char>,
    pub fs_type: Seq<char>,
    pub usage: Usage,
    pub largest_files: Seq<FileEntryView>,
    pub largest_files_scanned_at: Option<Seq<char>>,
}

/// One mounted filesystem as the monitor reports it.
#[derive(Clone, Debug, PartialEq, Eq)]
pub struct Mount {
    pub mount_point: String,
    pub device: String,
    pub fs_type: String,
    pub usage: Usage,
    pub largest_files: Vec<FileEntry>,
    pub largest_files_scanned_at: Option<String>,
}

/// The view of an optional string.
pub open spec fn opt_text(s: Option<String>) -> Option<Seq<char>> {
    match s {
        Some(t) => Some(t@),
        None => None,
    }
}

impl View for Mount {
    type V = MountView;

    open spec fn view(&self) -> MountView {
        MountView {
            mount_point: self.mount_point@,
            device: self.device@,
            fs_type: self.fs_type@,
            usage: self.usage,
            largest_files: file_views(self.largest_files@),
            largest_files_scanned_at: opt_text(self.largest_files_scanned_at),
        }
    }
}

/// The views of a list of mounts.
pub open spec fn mount_views(mounts: Seq<Mount>) -> Seq<MountView> {
    mounts.map_values(|m: Mount| m@)
}

impl Mount {
    /// A copy of this mount, field by field.
    pub fn duplicate(&self) -> (r: Mount)
        ensures
            r@ == self@,
    {
        let scanned_at = match &self.largest_files_scanned_at {
            Some(s) => Some(s.clone()),
            None => None,
        };
        Mount {
            mount_point: self.mount_point.clone(),
            device: self.device.clone(),
            fs_type: self.fs_type.clone(),
            usage: self.usage,
            largest_files: duplicate_files(&self.largest_files),
            largest_files_scanned_at: scanned_at,
        }
    }
}

/// A copy of a list of mounts, mount by mount.
pub fn duplicate_mounts(mounts: &Vec<Mount>) -> (r: Vec<Mount>)
    ensures
        mount_views(r@) == mount_views(mounts@),
{
    let mut r: Vec<Mount> = Vec::new();
    for i in 0..mounts.len()
        invariant
            r@.len() == i,
            forall|j: int| 0 <= j < i ==> #[trigger] r@[j]@ == mounts@[j]@,
    {
        r.push(mounts[i].duplicate());
    }
    assert(mount_views(r@) =~= mount_views(mounts@));
    r
}

/// One reading of every reported mount of a host.
#[derive(Clone, Debug, PartialEq, Eq)]
pub struct Snapshot {
    pub timestamp: String,
    pub host: String,
    pub mounts: Vec<Mount>,
}

} // verus!
