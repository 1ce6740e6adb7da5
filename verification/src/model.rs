//! The data read from `dnf`: pending package updates and transaction sizes.
use vstd::prelude::*;

verus! {

/// One package that `dnf upgrade` would replace.
#[derive(Debug)]
pub struct PackageUpdate {
    pub name: String,
    pub arch: String,
    pub old_version: String,
    pub new_version: String,
    pub old_repo: String,
    pub new_repo: String,
    pub download_size: u64,
}

/// What a `PackageUpdate` holds, with its texts as character sequences.
pub struct UpdateView {
    pub name: Seq<char>,
    pub arch: Seq<char>,
    pub old_version: Seq<char>,
    pub new_version: Seq<char>,
    pub old_repo: Seq<char>,
    pub new_repo: Seq<char>,
    pub download_size: u64,
}

impl View for PackageUpdate {
    type V = UpdateView;

    open spec fn view(&self) -> UpdateView {
        UpdateView {
            name: self.name@,
            arch: self.arch@,
            old_version: self.old_version@,
            new_version: self.new_version@,
            old_repo: self.old_repo@,
            new_repo: self.new_repo@,
            download_size: self.download_size,
        }
    }
}

/// The views of a sequence of updates.
pub open spec fn update_views(s: Seq<PackageUpdate>) -> Seq<UpdateView> {
    s.map_values(|u: PackageUpdate| u@)
}

/// The sizes `dnf` reports for a whole transaction.
pub struct SizeInfo {
    /// Bytes to download, when reported.
    pub download: Option<u64>,
    /// Change of disk usage in bytes (negative when space is freed), when reported.
    pub net_disk: Option<i64>,
}

impl Default for SizeInfo {
    fn default() -> (r: SizeInfo)
        ensures
            r.download is None,
            r.net_disk is None,
    {
        SizeInfo { download: None, net_disk: None }
    }
}

} // verus!
