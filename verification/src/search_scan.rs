//! Finding files directory by directory, and which volumes are read instead.

use crate::order;
use crate::paths::Platform;
use crate::search_files;
use crate::search_files::{
    indexed_file, is_excluded, reads_directory, scan_entry, EntryType, FileStat, IndexedFile, ScanStep,
    SCAN_REPORT_FILES, SCAN_WRITE_BATCH,
};
use crate::text;
use crate::text::copy_texts;
use crate::usn;
use crate::usn::{scan_order, VolumeSize};
use vstd::prelude::*;

verus! {

/// What a scan does next.
#[derive(Debug, PartialEq, Eq)]
pub enum ScanTask {
    /// It was stopped.
    Cancelled,
    /// It asks whether a root is a directory.
    CheckRoot(String),
    /// It asks for the entries of a directory.
    ReadDirectory(String),
    Finished,
}

/// What a scan does when it took up a file.
#[derive(Debug, Clone, Copy, PartialEq, Eq, Structural)]
pub struct ScanNotice {
    /// The pending files are written.
    pub write: bool,
    /// The progress is shown.
    pub report: bool,
}

/// A scan of directories.
#[verifier::ext_equal]
pub struct ScanModel {
    pub platform: Platform,
    pub exclusions: Seq<Seq<char>>,
    /// The roots that are still to come.
    pub roots: Seq<Seq<char>>,
    /// The root that is being read.
    pub root: Seq<char>,
    /// The directories of the root that are still to be read, the next one
    /// last.
    pub directories: Seq<Seq<char>>,
    /// Files that are not written yet.
    pub pending: Seq<search_files::FileModel>,
}

/// A scan of directories, root by root.
#[derive(Debug)]
pub struct FolderScan {
    platform: Platform,
    exclusions: Vec<String>,
    roots: Vec<String>,
    taken: usize,
    root: String,
    directories: Vec<String>,
    pending: Vec<IndexedFile>,
}

impl View for FolderScan {
    type V = ScanModel;

    closed spec fn view(&self) -> ScanModel {
        ScanModel {
            platform: self.platform,
            exclusions: text::texts(self.exclusions@),
            roots: text::texts(self.roots@).skip(self.taken as int),
            root: self.root@,
            directories: text::texts(self.directories@),
            pending: search_files::file_models(self.pending@),
        }
    }
}

/// No directory that is still to be read is excluded.
pub open spec fn reads_nothing_excluded(m: ScanModel) -> bool {
    forall|i: int|
        0 <= i < m.directories.len() ==> !search_files::excluded(
            m.platform,
            #[trigger] m.directories[i],
            m.exclusions,
        )
}

impl FolderScan {
    pub closed spec fn well_formed(self) -> bool {
        &&& self.taken <= self.roots@.len()
        &&& reads_nothing_excluded(self@)
    }

    pub fn new(platform: Platform, exclusions: &Vec<String>, roots: &Vec<String>) -> (r: Self)
        ensures
            r.well_formed(),
            r@ == (ScanModel {
                platform,
                exclusions: text::texts(exclusions@),
                roots: text::texts(roots@),
                root: Seq::empty(),
                directories: Seq::empty(),
                pending: Seq::empty(),
            }),
    {
        let r = FolderScan {
            platform,
            exclusions: copy_texts(exclusions),
            roots: copy_texts(roots),
            taken: 0,
            root: String::new(),
            directories: Vec::new(),
            pending: Vec::new(),
        };
        assert(r@.roots =~= text::texts(roots@));
        assert(r@.directories =~= Seq::empty());
        assert(r@.pending =~= Seq::empty());
        r
    }

    /// A scan of a directory below `root`, unless nothing in it is searched.
    pub fn subtree(platform: Platform, exclusions: &Vec<String>, root: &str, directory: &str) -> (r:
        Self)
        ensures
            r.well_formed(),
            r@ == (ScanModel {
                platform,
                exclusions: text::texts(exclusions@),
                roots: Seq::empty(),
                root: root@,
                directories: if search_files::searched(
                    platform,
                    directory@,
                    text::texts(exclusions@),
                ) {
                    seq![directory@]
                } else {
                    Seq::empty()
                },
                pending: Seq::empty(),
            }),
    {
        let none: Vec<String> = Vec::new();
        let mut r = FolderScan::new(platform, exclusions, &none);
        r.root = root.to_owned();
        assert(r@.roots =~= Seq::empty());
        if reads_directory(platform, directory, exclusions) {
            r.descend(directory.to_owned());
            assert(r@.directories =~= seq![directory@]);
        }
        r
    }

    /// The next thing to do: the directories of a root come before the next
    /// root.
    pub fn next_task(&mut self, cancelled: bool) -> (r: ScanTask)
        requires
            old(self).well_formed(),
        ensures
            final(self).well_formed(),
            ({
                let before = old(self)@;
                if cancelled {
                    r is Cancelled && final(self)@ == before
                } else if before.directories.len() > 0 {
                    &&& r is ReadDirectory && r->ReadDirectory_0@ == before.directories.last()
                    &&& !search_files::excluded(
                        before.platform,
                        r->ReadDirectory_0@,
                        before.exclusions,
                    )
                    &&& final(self)@ == (ScanModel {
                        directories: before.directories.drop_last(),
                        ..before
                    })
                } else if before.roots.len() > 0 {
                    &&& r is CheckRoot && r->CheckRoot_0@ == before.roots[0]
                    &&& final(self)@ == (ScanModel {
                        roots: before.roots.drop_first(),
                        root: before.roots[0],
                        ..before
                    })
                } else {
                    r is Finished && final(self)@ == before
                }
            }),
    {
        let ghost before = self@;
        if cancelled {
            return ScanTask::Cancelled;
        }
        match self.directories.pop() {
            Some(directory) => {
                proof {
                    let last = before.directories.len() - 1;
                    assert(before.directories[last] == directory@);
                    assert(self@.directories =~= before.directories.drop_last());
                    assert forall|i: int| 0 <= i < self@.directories.len() implies
                        !search_files::excluded(
                        self@.platform,
                        #[trigger] self@.directories[i],
                        self@.exclusions,
                    ) by {
                        assert(before.directories[i] == self@.directories[i]);
                    }
                }
                return ScanTask::ReadDirectory(directory);
            },
            None => {},
        }
        assert(self@ =~= before);
        if self.taken < self.roots.len() {
            let root = self.roots[self.taken].clone();
            assert(before.roots[0] == root@);
            self.taken = self.taken + 1;
            self.root = root.clone();
            assert(self@.roots =~= before.roots.drop_first());
            assert(self@ =~= (ScanModel {
                roots: before.roots.drop_first(),
                root: before.roots[0],
                ..before
            }));
            return ScanTask::CheckRoot(root);
        }
        ScanTask::Finished
    }

    /// Says whether the root is a directory; then it is read, unless it is
    /// excluded.
    pub fn root_checked(&mut self, is_dir: bool)
        requires
            old(self).well_formed(),
        ensures
            final(self).well_formed(),
            final(self)@ == if is_dir && !search_files::excluded(
                old(self)@.platform,
                old(self)@.root,
                old(self)@.exclusions,
            ) {
                ScanModel { directories: old(self)@.directories.push(old(self)@.root), ..old(self)@ }
            } else {
                old(self)@
            },
    {
        if is_dir && !is_excluded(self.platform, self.root.as_str(), &self.exclusions) {
            let root = self.root.clone();
            self.descend(root);
        }
    }

    /// Reads one more directory.
    fn descend(&mut self, directory: String)
        requires
            old(self).well_formed(),
            !search_files::excluded(old(self)@.platform, directory@, old(self)@.exclusions),
        ensures
            final(self).well_formed(),
            final(self)@ == (ScanModel {
                directories: old(self)@.directories.push(directory@),
                ..old(self)@
            }),
    {
        let ghost before = self@;
        self.directories.push(directory);
        proof {
            assert(self@.directories =~= before.directories.push(directory@));
            assert forall|i: int| 0 <= i < self@.directories.len() implies !search_files::excluded(
                self@.platform,
                #[trigger] self@.directories[i],
                self@.exclusions,
            ) by {
                if i < before.directories.len() {
                    assert(before.directories[i] == self@.directories[i]);
                }
            }
        }
    }

    /// An entry of the directory: directories are read later, files are
    /// stored when the system has told about them.
    pub fn entry(
        &mut self,
        path: &str,
        entry_type: Option<EntryType>,
        redirects: bool,
        other_device: bool,
    ) -> (r: ScanStep)
        requires
            old(self).well_formed(),
        ensures
            final(self).well_formed(),
            r == search_files::entry_step(
                old(self)@.platform,
                path@,
                entry_type,
                redirects,
                other_device,
                old(self)@.exclusions,
            ),
            final(self)@ == if r == ScanStep::Descend {
                ScanModel { directories: old(self)@.directories.push(path@), ..old(self)@ }
            } else {
                old(self)@
            },
    {
        let step: ScanStep = scan_entry(
            self.platform,
            path,
            entry_type,
            redirects,
            other_device,
            &self.exclusions,
        );
        match step {
            ScanStep::Descend => self.descend(path.to_owned()),
            _ => {},
        }
        step
    }

    /// Takes up a file that the system told about; `scanned` counts those
    /// before it. Nothing is answered where there is no such file.
    pub fn store(&mut self, stat: &FileStat, scanned: u64) -> (r: Option<ScanNotice>)
        requires
            old(self).well_formed(),
            scanned < u64::MAX,
        ensures
            final(self).well_formed(),
            ({
                let before = old(self)@;
                match search_files::stored_file(before.platform, *stat, before.root) {
                    Some(file) => {
                        &&& final(self)@ == (ScanModel {
                            pending: before.pending.push(file),
                            ..before
                        })
                        &&& r == Some(
                            ScanNotice {
                                write: before.pending.len() + 1 >= SCAN_WRITE_BATCH,
                                report: (scanned + 1) % SCAN_REPORT_FILES as int == 0,
                            },
                        )
                    },
                    None => r is None && final(self)@ == before,
                }
            }),
    {
        let ghost before = self@;
        match indexed_file(self.platform, stat, self.root.as_str()) {
            Some(file) => {
                self.pending.push(file);
                assert(self@.pending =~= before.pending.push(file@));
                Some(
                    ScanNotice {
                        write: self.pending.len() >= SCAN_WRITE_BATCH,
                        report: (scanned + 1) % SCAN_REPORT_FILES == 0,
                    },
                )
            },
            None => None,
        }
    }

    /// Hands the pending files out to be written.
    pub fn take_pending(&mut self) -> (files: Vec<IndexedFile>)
        requires
            old(self).well_formed(),
        ensures
            final(self).well_formed(),
            search_files::file_models(files@) == old(self)@.pending,
            final(self)@ == (ScanModel { pending: Seq::empty(), ..old(self)@ }),
    {
        let ghost before = self@;
        let mut files: Vec<IndexedFile> = Vec::new();
        std::mem::swap(&mut files, &mut self.pending);
        assert(self@.pending =~= Seq::empty());
        files
    }
}

/// A root that is a volume of its own.
#[derive(Debug)]
pub struct NtfsRoot {
    pub root: String,
    pub volume: char,
}

/// The roots that are read directory by directory.
pub open spec fn folder_roots(roots: Seq<Seq<char>>, volumes: Seq<Option<char>>) -> Seq<Seq<char>>
    decreases roots.len(),
{
    if roots.len() == 0 {
        Seq::empty()
    } else {
        let earlier = folder_roots(roots.drop_last(), volumes.drop_last());
        if volumes.last() is None {
            earlier.push(roots.last())
        } else {
            earlier
        }
    }
}

/// The roots that are volumes, with the volumes.
pub open spec fn volume_roots(roots: Seq<Seq<char>>, volumes: Seq<Option<char>>) -> Seq<
    (Seq<char>, char),
>
    decreases roots.len(),
{
    if roots.len() == 0 {
        Seq::empty()
    } else {
        let earlier = volume_roots(roots.drop_last(), volumes.drop_last());
        match volumes.last() {
            Some(v) => earlier.push((roots.last(), v)),
            None => earlier,
        }
    }
}

/// A volume that nothing is known of.
pub open spec fn unread(volume: char) -> VolumeSize {
    VolumeSize { volume, record_count: 0 }
}

fn unread_size(volume: char) -> (r: VolumeSize)
    ensures
        r == unread(volume),
{
    VolumeSize { volume, record_count: 0 }
}

/// What orders volumes that nothing is known of.
pub open spec fn unread_volumes(v: Seq<(Seq<char>, char)>) -> Seq<VolumeSize> {
    v.map_values(|p: (Seq<char>, char)| unread(p.1))
}

pub open spec fn root_pairs(v: Seq<NtfsRoot>) -> Seq<(Seq<char>, char)> {
    v.map_values(|r: NtfsRoot| (r.root@, r.volume))
}

/// Divides roots into those that are read directory by directory and those
/// whose volume is read, in the order in which they are: `volumes` tells
/// which roots are volumes.
pub fn split_providers(
    roots: &Vec<String>,
    volumes: &Vec<Option<char>>,
    system_volume: Option<char>,
) -> (r: (Vec<String>, Vec<NtfsRoot>))
    requires
        roots@.len() == volumes@.len(),
    ensures
        text::texts(r.0@) == folder_roots(text::texts(roots@), volumes@),
        ({
            let found = volume_roots(text::texts(roots@), volumes@);
            order::is_stably_sorted(
                found,
                usn::scan_keys(unread_volumes(found), system_volume),
                root_pairs(r.1@),
            )
        }),
{
    let ghost all = text::texts(roots@);
    let mut folders: Vec<String> = Vec::new();
    let mut places: Vec<usize> = Vec::new();
    let mut sizes: Vec<VolumeSize> = Vec::new();
    assert(text::texts(folders@) =~= folder_roots(all.take(0), volumes@.take(0)));
    assert(sizes@ =~= unread_volumes(volume_roots(all.take(0), volumes@.take(0))));
    for i in 0..roots.len()
        invariant
            all == text::texts(roots@),
            roots@.len() == volumes@.len(),
            text::texts(folders@) == folder_roots(all.take(i as int), volumes@.take(i as int)),
            sizes@ =~= unread_volumes(volume_roots(all.take(i as int), volumes@.take(i as int))),
            places@.len() == sizes@.len(),
            forall|j: int|
                0 <= j < places@.len() ==> (#[trigger] places@[j]) < i && volume_roots(
                    all.take(i as int),
                    volumes@.take(i as int),
                )[j] == (all[places@[j] as int], sizes@[j].volume),
    {
        assert(all.take(i + 1).drop_last() =~= all.take(i as int));
        assert(volumes@.take(i + 1).drop_last() =~= volumes@.take(i as int));
        let ghost earlier = volume_roots(all.take(i as int), volumes@.take(i as int));
        let ghost now = volume_roots(all.take(i + 1), volumes@.take(i + 1));
        match volumes[i] {
            Some(volume) => {
                places.push(i);
                let ghost sizes_before = sizes@;
                sizes.push(unread_size(volume));
                assert(sizes@ == sizes_before.push(unread(volume)));
                assert(now =~= earlier.push((all[i as int], volume)));
            },
            None => {
                assert(now == earlier);
                let ghost before = folders@;
                folders.push(roots[i].clone());
                assert(text::texts(folders@) =~= text::texts(before).push(all[i as int]));
            },
        }
    }
    assert(all.take(all.len() as int) =~= all);
    assert(volumes@.take(volumes@.len() as int) =~= volumes@);
    let ghost found = volume_roots(all, volumes@);
    assert(sizes@ =~= unread_volumes(found));
    let order = scan_order(&sizes, system_volume);
    let mut ntfs: Vec<NtfsRoot> = Vec::new();
    for i in 0..order.len()
        invariant
            all == text::texts(roots@),
            found == volume_roots(all, volumes@),
            sizes@ == unread_volumes(found),
            places@.len() == sizes@.len(),
            order::is_stable_order(usn::scan_keys(sizes@, system_volume), order@),
            forall|j: int|
                0 <= j < places@.len() ==> (#[trigger] places@[j]) < roots@.len() && found[j] == (
                    all[places@[j] as int],
                    sizes@[j].volume,
                ),
            root_pairs(ntfs@) =~= order::arranged(found, order@).take(i as int),
    {
        let at: usize = order[i];
        assert(at < sizes@.len());
        let ghost before = ntfs@;
        ntfs.push(NtfsRoot { root: roots[places[at]].clone(), volume: sizes[at].volume });
        assert(root_pairs(ntfs@) =~= root_pairs(before).push(found[at as int]));
        assert(order::arranged(found, order@)[i as int] == found[at as int]);
    }
    assert(order::arranged(found, order@).take(order@.len() as int) =~= order::arranged(
        found,
        order@,
    ));
    assert(order::is_stable_order(
        usn::scan_keys(unread_volumes(found), system_volume),
        order@,
    ));
    (folders, ntfs)
}

/// Every root is searched in one of two ways: as a volume, with that volume,
/// where it is one, and directory by directory otherwise.
pub proof fn every_root_is_searched(roots: Seq<Seq<char>>, volumes: Seq<Option<char>>, i: int)
    requires
        roots.len() == volumes.len(),
        0 <= i < roots.len(),
    ensures
        volumes[i] is None ==> folder_roots(roots, volumes).contains(roots[i]),
        volumes[i] matches Some(v) ==> volume_roots(roots, volumes).contains((roots[i], v)),
        folder_roots(roots, volumes).len() + volume_roots(roots, volumes).len() == roots.len(),
{
    roots_are_shared_out(roots, volumes);
    root_is_searched(roots, volumes, i);
}

proof fn roots_are_shared_out(roots: Seq<Seq<char>>, volumes: Seq<Option<char>>)
    requires
        roots.len() == volumes.len(),
    ensures
        folder_roots(roots, volumes).len() + volume_roots(roots, volumes).len() == roots.len(),
    decreases roots.len(),
{
    if roots.len() > 0 {
        roots_are_shared_out(roots.drop_last(), volumes.drop_last());
    }
}

proof fn root_is_searched(roots: Seq<Seq<char>>, volumes: Seq<Option<char>>, i: int)
    requires
        roots.len() == volumes.len(),
        0 <= i < roots.len(),
    ensures
        volumes[i] is None ==> folder_roots(roots, volumes).contains(roots[i]),
        volumes[i] matches Some(v) ==> volume_roots(roots, volumes).contains((roots[i], v)),
    decreases roots.len(),
{
    let folders = folder_roots(roots, volumes);
    let found = volume_roots(roots, volumes);
    if i < roots.len() - 1 {
        let fewer = folder_roots(roots.drop_last(), volumes.drop_last());
        let earlier = volume_roots(roots.drop_last(), volumes.drop_last());
        root_is_searched(roots.drop_last(), volumes.drop_last(), i);
        match volumes[i] {
            None => {
                let n = choose|n: int| 0 <= n < fewer.len() && fewer[n] == roots[i];
                assert(folders[n] == roots[i]);
            },
            Some(v) => {
                let n = choose|n: int| 0 <= n < earlier.len() && earlier[n] == (roots[i], v);
                assert(found[n] == (roots[i], v));
            },
        }
    } else {
        match volumes[i] {
            None => {
                assert(folders.last() == roots[i]);
            },
            Some(v) => {
                assert(found.last() == (roots[i], v));
            },
        }
    }
}

} // verus!
