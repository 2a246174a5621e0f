//! The mounted filesystem's own state: inodes, open handles and counters.
//!
//! A kernel operation is decided by [`crate::decide`], performed outside, and
//! settled here.
use std::collections::HashMap;
use vstd::prelude::*;
use crate::directory::{Child, ChildView, DirState, DirView, Fill};
use crate::errno::Errno;
use crate::inode::{
    fresh_table, generations_left, seeded, stale_views, InodeTable, Record, RecordView, StaleEntry,
    TableView,
};
use crate::node::{FileType, Node, NodeView, OverlayEntry, OverlayView};
use crate::entry::TreeEntryInfo;
use crate::limits;
use crate::object::{ObjectId, ObjectIdView};
use crate::path::{joined, BytePath};
use crate::subtree::{git_part, git_rel, in_object_namespace, object_namespace};

verus! {

broadcast use vstd::std_specs::hash::group_hash_axioms;

/// How a mount behaves. Times to live are in seconds.
#[derive(Clone, Copy, PartialEq, Eq, Structural, Debug)]
pub struct FsConfig {
    /// How long the kernel may cache attributes and directory entries.
    pub ttl: u64,
    /// How long the kernel may cache the absence of a name.
    pub negative_ttl: u64,
    /// How long the kernel may cache entries and attributes of `.git`, which
    /// the daemon rewrites from behind the mount.
    pub git_ttl: u64,
    /// How long the kernel may cache the absence of a name among objects.
    pub object_negative_ttl: u64,
    pub directory_page_size: u32,
    /// How many base directories are kept as complete listings.
    pub listing_cache_dirs: usize,
    /// How many entries those listings may hold in total.
    pub listing_cache_entries: usize,
    /// Listing misses in a short window that make a walk; zero disables it.
    pub walk_prefetch_threshold: usize,
    pub tree_page_entries: u32,
    /// Entries one recognized walk may prefetch.
    pub tree_prefetch_max_entries: usize,
    /// Distinct files read from one directory that fetch the rest of it; zero
    /// disables it.
    pub read_prefetch_threshold: usize,
    pub read_prefetch_max_bytes: u64,
    pub read_prefetch_max_file_bytes: u64,
    pub read_prefetch_concurrency: usize,
    /// The percentage of the hydration budget prefetching will not spend.
    pub prefetch_budget_reserve_percent: u64,
    /// Attempts for a retryable failure, the first among them.
    pub attempts: u32,
    /// Bytes a job may hydrate before reads are refused; zero is unlimited.
    pub hydration_budget_bytes: u64,
}

/// The configuration a mount has unless told otherwise.
pub open spec fn default_config() -> FsConfig {
    FsConfig {
        ttl: 3600,
        negative_ttl: 1,
        git_ttl: 1,
        object_negative_ttl: 60,
        directory_page_size: limits::DEFAULT_DIRECTORY_PAGE_SIZE,
        listing_cache_dirs: 32768,
        listing_cache_entries: 150000,
        walk_prefetch_threshold: 4,
        tree_page_entries: limits::DEFAULT_TREE_PAGE_ENTRIES,
        tree_prefetch_max_entries: 200000,
        read_prefetch_threshold: 3,
        read_prefetch_max_bytes: 33554432,
        read_prefetch_max_file_bytes: 8388608,
        read_prefetch_concurrency: 4,
        prefetch_budget_reserve_percent: 25,
        attempts: 3,
        hydration_budget_bytes: 1073741824,
    }
}

/// The bounds every prefetch runs inside.
#[derive(Clone, Copy, PartialEq, Eq, Structural, Debug)]
pub struct PrefetchLimits {
    pub tree_page_entries: u32,
    pub tree_max_entries: usize,
    pub content_max_bytes: u64,
    pub content_max_file_bytes: u64,
    pub content_concurrency: usize,
    pub budget_reserve_percent: u64,
}

impl Default for FsConfig {
    fn default() -> (res: FsConfig)
        ensures
            res == default_config(),
    {
        FsConfig {
            ttl: 3600,
            negative_ttl: 1,
            git_ttl: 1,
            object_negative_ttl: 60,
            directory_page_size: limits::DEFAULT_DIRECTORY_PAGE_SIZE,
            listing_cache_dirs: 32768,
            listing_cache_entries: 150000,
            walk_prefetch_threshold: 4,
            tree_page_entries: limits::DEFAULT_TREE_PAGE_ENTRIES,
            tree_prefetch_max_entries: 200000,
            read_prefetch_threshold: 3,
            read_prefetch_max_bytes: 33554432,
            read_prefetch_max_file_bytes: 8388608,
            read_prefetch_concurrency: 4,
            prefetch_budget_reserve_percent: 25,
            attempts: 3,
            hydration_budget_bytes: 1073741824,
        }
    }
}

/// The counters a mount keeps. They wrap.
#[derive(Clone, Copy, PartialEq, Eq, Structural, Debug)]
pub struct FsStats {
    pub lookups: u64,
    pub negative_lookups: u64,
    pub metadata_requests: u64,
    pub directory_pages: u64,
    /// Metadata questions answered from a cached base listing.
    pub listing_hits: u64,
    pub tree_prefetches: u64,
    pub tree_pages: u64,
    pub prefetched_listings: u64,
    pub content_prefetches: u64,
    pub prefetched_blobs: u64,
    pub prefetched_bytes: u64,
    pub opens: u64,
    pub reads: u64,
    pub read_bytes: u64,
    pub writes: u64,
    pub written_bytes: u64,
    /// Reads refused because the hydration budget was spent.
    pub hydration_refusals: u64,
    pub copy_ups: u64,
    pub copy_up_bytes: u64,
    pub errors: u64,
}

/// Counters at zero.
pub open spec fn no_stats() -> FsStats {
    FsStats {
        lookups: 0,
        negative_lookups: 0,
        metadata_requests: 0,
        directory_pages: 0,
        listing_hits: 0,
        tree_prefetches: 0,
        tree_pages: 0,
        prefetched_listings: 0,
        content_prefetches: 0,
        prefetched_blobs: 0,
        prefetched_bytes: 0,
        opens: 0,
        reads: 0,
        read_bytes: 0,
        writes: 0,
        written_bytes: 0,
        hydration_refusals: 0,
        copy_ups: 0,
        copy_up_bytes: 0,
        errors: 0,
    }
}

impl Default for FsStats {
    fn default() -> (res: FsStats)
        ensures
            res == no_stats(),
    {
        FsStats {
            lookups: 0,
            negative_lookups: 0,
            metadata_requests: 0,
            directory_pages: 0,
            listing_hits: 0,
            tree_prefetches: 0,
            tree_pages: 0,
            prefetched_listings: 0,
            content_prefetches: 0,
            prefetched_blobs: 0,
            prefetched_bytes: 0,
            opens: 0,
            reads: 0,
            read_bytes: 0,
            writes: 0,
            written_bytes: 0,
            hydration_refusals: 0,
            copy_ups: 0,
            copy_up_bytes: 0,
            errors: 0,
        }
    }
}

/// What an open descriptor reads from.
#[derive(Debug)]
pub enum OpenFile {
    /// A cached base blob.
    Blob { oid: ObjectId },
    /// A base blob held in memory.
    Memory,
    /// Overlay content.
    Local { content_id: u64, writable: bool },
    /// A real file of `.git`.
    Git { writable: bool },
    /// A file of the projection.
    Odb { path: String },
}

/// What an [`OpenFile`] denotes.
pub enum OpenFileView {
    Blob { oid: ObjectIdView },
    Memory,
    Local { content_id: u64, writable: bool },
    Git { writable: bool },
    Odb { path: Seq<char> },
}

impl View for OpenFile {
    type V = OpenFileView;

    open spec fn view(&self) -> OpenFileView {
        match *self {
            OpenFile::Blob { oid } => OpenFileView::Blob { oid: oid@ },
            OpenFile::Memory => OpenFileView::Memory,
            OpenFile::Local { content_id, writable } => OpenFileView::Local { content_id, writable },
            OpenFile::Git { writable } => OpenFileView::Git { writable },
            OpenFile::Odb { path } => OpenFileView::Odb { path: path@ },
        }
    }
}

/// What the kernel may keep for a descriptor.
#[derive(Clone, Copy, PartialEq, Eq, Structural, Debug)]
pub struct KeepFlags {
    /// Nothing is buffered, so a close needs no flush.
    pub no_flush: bool,
    /// Pages may outlive the descriptor.
    pub keep_cache: bool,
    /// The listing may be cached.
    pub cache_dir: bool,
}

/// What the kernel may keep for a file: a base blob's bytes never change under
/// one inode.
pub open spec fn file_flags(f: OpenFileView) -> KeepFlags {
    KeepFlags { no_flush: true, keep_cache: f is Memory || f is Blob, cache_dir: false }
}

/// What the kernel may keep for a file.
pub fn fopen_flags(state: &OpenFile) -> (res: KeepFlags)
    ensures
        res == file_flags(state@),
{
    let keep_cache = match state {
        OpenFile::Memory | OpenFile::Blob { .. } => true,
        OpenFile::Local { .. } | OpenFile::Git { .. } | OpenFile::Odb { .. } => false,
    };
    KeepFlags { no_flush: true, keep_cache, cache_dir: false }
}

/// What the kernel may keep for a directory: the two trees of `.git` change
/// behind its back.
pub open spec fn dir_flags(node: NodeView) -> KeepFlags {
    let merged = !(node is Git || node is Odb);
    KeepFlags { no_flush: false, keep_cache: merged, cache_dir: merged }
}

/// The inode number of a cached absence.
pub const NEGATIVE_INO: u64 = 0;

/// What a [`Gfs`] denotes.
#[verifier::ext_equal]
pub struct FsView {
    pub table: TableView,
    pub files: Map<u64, OpenFileView>,
    pub dirs: Map<u64, DirView>,
    pub next_handle: u64,
    pub stats: FsStats,
    pub config: FsConfig,
}

impl FsView {
    /// The next handle is fresh.
    pub open spec fn wf(self) -> bool {
        &&& forall|h: u64| #[trigger] self.files.contains_key(h) ==> h < self.next_handle
        &&& forall|h: u64| #[trigger] self.dirs.contains_key(h) ==> h < self.next_handle
        &&& forall|h: u64| !(self.files.contains_key(h) && #[trigger] self.dirs.contains_key(h))
    }

    /// Whether an inode can take one more descriptor.
    pub open spec fn can_open(self, ino: u64) -> bool {
        &&& self.next_handle < u64::MAX
        &&& self.table.records.contains_key(ino) ==> self.table.records[ino].opens < u32::MAX
    }

    /// After a file was opened on an inode.
    pub open spec fn file_opened(self, ino: u64, file: OpenFileView) -> FsView {
        FsView {
            table: self.table.opened(ino),
            files: self.files.insert(self.next_handle, file),
            next_handle: (self.next_handle + 1) as u64,
            stats: FsStats { opens: self.stats.opens.wrapping_add(1), ..self.stats },
            ..self
        }
    }

    /// After a name was found.
    pub open spec fn found(self, path: Seq<u8>, node: NodeView) -> FsView {
        FsView {
            table: self.table.looked_up(path, node),
            stats: FsStats { lookups: self.stats.lookups.wrapping_add(1), ..self.stats },
            ..self
        }
    }

    /// After a row was published without a kernel reference.
    pub open spec fn published(self, path: Seq<u8>, node: NodeView) -> FsView {
        FsView {
            table: self.table.looked_up(path, node).forgotten(
                self.table.lookup_number(path, node),
                1,
            ),
            ..self
        }
    }

    /// After an operation failed.
    pub open spec fn failed(self) -> FsView {
        FsView {
            stats: FsStats { errors: self.stats.errors.wrapping_add(1), ..self.stats },
            ..self
        }
    }

    /// The child a directory handle lists at an offset; the first two offsets
    /// are the directory itself and its parent.
    pub open spec fn child(self, fh: u64, index: u64) -> Option<ChildView> {
        if self.dirs.contains_key(fh) && 2 <= index && index - 2 < self.dirs[fh].children.len() {
            Some(self.dirs[fh].children[index - 2])
        } else {
            None
        }
    }

    /// The path of that child.
    pub open spec fn child_path(self, fh: u64, index: u64) -> Seq<u8> {
        joined(self.dirs[fh].path, self.child(fh, index)->0.name())
    }

    /// How long an absence below a parent may be cached: long among objects,
    /// which nothing creates behind the kernel.
    pub open spec fn absence_ttl(self, parent: RecordView, git: bool) -> u64 {
        if git && object_namespace(git_part_or_root(parent.path)) {
            self.config.object_negative_ttl
        } else {
            self.config.negative_ttl
        }
    }
}

/// A path's part below `.git`, or the empty one.
pub open spec fn git_part_or_root(path: Seq<u8>) -> Seq<u8> {
    match git_part(path) {
        Some(rel) => rel,
        None => Seq::empty(),
    }
}

/// What a write does to the inode it went through: a row that is still there
/// is published as it is now, and a file without a name grows in place.
pub open spec fn after_write(
    s: FsView,
    ino: u64,
    offset: u64,
    written: u64,
    row: Option<OverlayView>,
) -> FsView {
    let counted = FsView {
        stats: FsStats {
            writes: s.stats.writes.wrapping_add(1),
            written_bytes: s.stats.written_bytes.wrapping_add(written),
            ..s.stats
        },
        ..s
    };
    if !s.table.records.contains_key(ino) {
        counted
    } else {
        let r = s.table.records[ino];
        match row {
            Some(row) => counted.published(r.path, NodeView::Overlay(row)),
            None => match r.node {
                NodeView::Overlay(e) => FsView {
                    table: s.table.refreshed(
                        ino,
                        NodeView::Overlay(OverlayView { size: grown(e.size, offset, written), ..e }),
                    ),
                    ..counted
                },
                _ => counted,
            },
        }
    }
}

/// A size after a write.
pub open spec fn grown(size: u64, offset: u64, written: u64) -> u64 {
    let end: u64 = if offset + written > u64::MAX {
        u64::MAX
    } else {
        (offset + written) as u64
    };
    if size >= end {
        size
    } else {
        end
    }
}

/// One entry of a directory reply.
#[derive(Debug)]
pub struct Listed {
    pub ino: u64,
    /// The offset after this entry.
    pub next: u64,
    pub kind: FileType,
    pub name: Vec<u8>,
}

/// The next thing to do for a directory reply.
#[derive(Debug)]
pub enum DirStep {
    BadDescriptor,
    /// Complete the listing first.
    Fill(Fill),
    Entry(Listed),
    End,
}

/// The two entries every directory has before its children.
pub open spec fn dot_entry(ino: u64, index: u64, e: Listed) -> bool {
    e.ino == ino && e.next == index + 1 && e.kind == FileType::Directory && e.name@ == (if index
        == 0 {
        seq![46u8]
    } else {
        seq![46u8, 46u8]
    })
}

/// Open files as their meaning.
pub open spec fn file_views(files: Map<u64, OpenFile>) -> Map<u64, OpenFileView> {
    Map::new(|h: u64| files.contains_key(h), |h: u64| files[h]@)
}

/// Open directories as their meaning.
pub open spec fn dir_views(dirs: Map<u64, DirState>) -> Map<u64, DirView> {
    Map::new(|h: u64| dirs.contains_key(h), |h: u64| dirs[h]@)
}

/// The filesystem's state.
#[derive(Debug)]
pub struct Gfs {
    inodes: InodeTable,
    files: HashMap<u64, OpenFile>,
    dirs: HashMap<u64, DirState>,
    next_handle: u64,
    stats: FsStats,
    config: FsConfig,
}

impl View for Gfs {
    type V = FsView;

    closed spec fn view(&self) -> FsView {
        FsView {
            table: self.inodes@,
            files: file_views(self.files@),
            dirs: dir_views(self.dirs@),
            next_handle: self.next_handle,
            stats: self.stats,
            config: self.config,
        }
    }
}

impl Gfs {
    /// The table is well formed and the next handle is fresh.
    pub closed spec fn wf(&self) -> bool {
        &&& self.inodes.wf()
        &&& forall|h: u64| #[trigger] self.files@.contains_key(h) ==> h < self.next_handle
        &&& forall|h: u64| #[trigger] self.dirs@.contains_key(h) ==> h < self.next_handle
        &&& forall|h: u64|
            !(self.files@.contains_key(h) && #[trigger] self.dirs@.contains_key(h))
    }

    /// What well-formedness promises a caller.
    pub proof fn lemma_wf(&self)
        requires
            self.wf(),
        ensures
            self@.wf(),
    {
    }

    /// A mount on a root, with the numbers the overlay's rows were given
    /// before.
    pub fn new(root: TreeEntryInfo, rows: &[OverlayEntry], config: FsConfig) -> (res: Gfs)
        ensures
            res.wf(),
            res@.table == seeded(fresh_table(root@), rows@, rows@.len()),
            res@.files == Map::<u64, OpenFileView>::empty(),
            res@.dirs == Map::<u64, DirView>::empty(),
            res@.next_handle == 1,
            res@.stats == no_stats(),
            res@.config == config,
    {
        let mut inodes = InodeTable::new(root);
        inodes.seed(rows);
        let files: HashMap<u64, OpenFile> = HashMap::new();
        let dirs: HashMap<u64, DirState> = HashMap::new();
        let res = Gfs { inodes, files, dirs, next_handle: 1, stats: FsStats::default(), config };
        assert(res@.files =~= Map::<u64, OpenFileView>::empty());
        assert(res@.dirs =~= Map::<u64, DirView>::empty());
        res
    }

    /// The record of an inode.
    pub fn record(&self, ino: u64) -> (res: Option<&Record>)
        requires
            self.wf(),
        ensures
            res is Some <==> self@.table.records.contains_key(ino),
            res matches Some(r) ==> r@ == self@.table.records[ino],
    {
        self.inodes.get(ino)
    }

    /// The counters.
    pub fn stats(&self) -> (res: FsStats)
        ensures
            res == self@.stats,
    {
        self.stats
    }

    /// The configuration.
    pub fn config(&self) -> (res: FsConfig)
        ensures
            res == self@.config,
    {
        self.config
    }

    /// The bounds every prefetch runs inside.
    pub fn prefetch_limits(&self) -> (res: PrefetchLimits)
        ensures
            res == (PrefetchLimits {
                tree_page_entries: self@.config.tree_page_entries,
                tree_max_entries: self@.config.tree_prefetch_max_entries,
                content_max_bytes: self@.config.read_prefetch_max_bytes,
                content_max_file_bytes: self@.config.read_prefetch_max_file_bytes,
                content_concurrency: self@.config.read_prefetch_concurrency,
                budget_reserve_percent: self@.config.prefetch_budget_reserve_percent,
            }),
    {
        PrefetchLimits {
            tree_page_entries: self.config.tree_page_entries,
            tree_max_entries: self.config.tree_prefetch_max_entries,
            content_max_bytes: self.config.read_prefetch_max_bytes,
            content_max_file_bytes: self.config.read_prefetch_max_file_bytes,
            content_concurrency: self.config.read_prefetch_concurrency,
            budget_reserve_percent: self.config.prefetch_budget_reserve_percent,
        }
    }

    /// How many files of a directory are read before the rest of it is
    /// fetched; none where that is switched off.
    pub fn read_threshold(&self) -> (res: Option<usize>)
        ensures
            res == (if self@.config.read_prefetch_threshold == 0 {
                None
            } else {
                Some(self@.config.read_prefetch_threshold)
            }),
    {
        if self.config.read_prefetch_threshold == 0 {
            None
        } else {
            Some(self.config.read_prefetch_threshold)
        }
    }

    /// Whether a listing that was not kept is evidence of a walk.
    pub fn recognizes_walks(&self) -> (res: bool)
        ensures
            res == (self@.config.walk_prefetch_threshold > 0),
    {
        self.config.walk_prefetch_threshold > 0
    }

    /// Live inodes and distinct paths ever numbered.
    pub fn inode_counts(&self) -> (res: (usize, usize))
        requires
            self.wf(),
        ensures
            res.0 == self@.table.records.len(),
            res.1 == self@.table.by_path.len(),
    {
        (self.inodes.live(), self.inodes.assigned())
    }

    /// Open file and directory handles.
    pub fn open_handles(&self) -> (res: usize)
        requires
            self@.files.len() + self@.dirs.len() <= usize::MAX,
        ensures
            res == self@.files.len() + self@.dirs.len(),
    {
        proof {
            assert(self@.files.dom() =~= self.files@.dom());
            assert(self@.dirs.dom() =~= self.dirs@.dom());
        }
        self.files.len() + self.dirs.len()
    }

    /// Whether a lookup can be recorded.
    pub fn fits(&self, path: &BytePath, node: &Node) -> (res: bool)
        requires
            self.wf(),
        ensures
            res == self@.table.can_look_up(path@, node@),
    {
        self.inodes.fits(path, node)
    }

    /// Whether an inode can take one more descriptor.
    pub fn can_open(&self, ino: u64) -> (res: bool)
        requires
            self.wf(),
        ensures
            res == self@.can_open(ino),
    {
        if self.next_handle == u64::MAX {
            return false;
        }
        match self.inodes.get(ino) {
            Some(r) => r.opens < u32::MAX,
            None => true,
        }
    }

    /// The number a path is known by, assigned now.
    pub fn number_for(&mut self, path: &BytePath) -> (res: u64)
        requires
            old(self).wf(),
            old(self)@.table.by_path.contains_key(path@) || old(self)@.table.next < u64::MAX,
        ensures
            final(self).wf(),
            res == old(self)@.table.number_of(path@),
            final(self)@ == (FsView {
                table: old(self)@.table.numbered(path@),
                ..old(self)@
            }),
    {
        self.inodes.number_for_path(path)
    }

    /// Settle a lookup that found a node; the answer is the record and how
    /// long it may be cached.
    pub fn found(&mut self, path: BytePath, node: Node, git: bool) -> (res: (Record, u64))
        requires
            old(self).wf(),
            old(self)@.table.can_look_up(path@, node@),
        ensures
            final(self).wf(),
            final(self)@ == old(self)@.found(path@, node@),
            res.0@ == old(self)@.table.lookup_record(path@, node@),
            res.1 == (if git {
                old(self)@.config.git_ttl
            } else {
                old(self)@.config.ttl
            }),
    {
        let record = self.inodes.insert_lookup(path, node);
        self.stats = FsStats { lookups: self.stats.lookups.wrapping_add(1), ..self.stats };
        let ttl = if git {
            self.config.git_ttl
        } else {
            self.config.ttl
        };
        (record, ttl)
    }

    /// Settle a lookup that found nothing; the answer is how long the absence
    /// may be cached.
    pub fn not_found(&mut self, parent: &Record, git: bool) -> (res: u64)
        requires
            old(self).wf(),
        ensures
            final(self).wf(),
            final(self)@ == (FsView {
                stats: FsStats {
                    negative_lookups: old(self)@.stats.negative_lookups.wrapping_add(1),
                    ..old(self)@.stats
                },
                ..old(self)@
            }),
            res == old(self)@.absence_ttl(parent@, git),
    {
        self.stats = FsStats {
            negative_lookups: self.stats.negative_lookups.wrapping_add(1),
            ..self.stats
        };
        let rel = match git_rel(parent.path.as_bytes()) {
            Some(rel) => rel,
            None => Vec::new(),
        };
        assert(rel@ =~= git_part_or_root(parent@.path));
        if git && in_object_namespace(rel.as_slice()) {
            self.config.object_negative_ttl
        } else {
            self.config.negative_ttl
        }
    }

    /// Count a failure.
    pub fn note_error(&mut self)
        requires
            old(self).wf(),
        ensures
            final(self).wf(),
            final(self)@ == old(self)@.failed(),
    {
        self.stats = FsStats { errors: self.stats.errors.wrapping_add(1), ..self.stats };
    }

    /// Count a question about one entry put to the server.
    pub fn note_metadata_request(&mut self)
        requires
            old(self).wf(),
        ensures
            final(self).wf(),
            final(self)@ == (FsView {
                stats: FsStats {
                    metadata_requests: old(self)@.stats.metadata_requests.wrapping_add(1),
                    ..old(self)@.stats
                },
                ..old(self)@
            }),
    {
        self.stats = FsStats {
            metadata_requests: self.stats.metadata_requests.wrapping_add(1),
            ..self.stats
        };
    }

    /// Count a page of a listing fetched from the server.
    pub fn note_directory_page(&mut self)
        requires
            old(self).wf(),
        ensures
            final(self).wf(),
            final(self)@ == (FsView {
                stats: FsStats {
                    directory_pages: old(self)@.stats.directory_pages.wrapping_add(1),
                    ..old(self)@.stats
                },
                ..old(self)@
            }),
    {
        self.stats = FsStats {
            directory_pages: self.stats.directory_pages.wrapping_add(1),
            ..self.stats
        };
    }

    /// Count a question a kept listing answered.
    pub fn note_listing_hit(&mut self)
        requires
            old(self).wf(),
        ensures
            final(self).wf(),
            final(self)@ == (FsView {
                stats: FsStats {
                    listing_hits: old(self)@.stats.listing_hits.wrapping_add(1),
                    ..old(self)@.stats
                },
                ..old(self)@
            }),
    {
        self.stats = FsStats { listing_hits: self.stats.listing_hits.wrapping_add(1), ..self.stats };
    }

    /// Count a read refused for want of budget.
    pub fn note_refusal(&mut self)
        requires
            old(self).wf(),
        ensures
            final(self).wf(),
            final(self)@ == (FsView {
                stats: FsStats {
                    hydration_refusals: old(self)@.stats.hydration_refusals.wrapping_add(1),
                    ..old(self)@.stats
                },
                ..old(self)@
            }),
    {
        self.stats = FsStats {
            hydration_refusals: self.stats.hydration_refusals.wrapping_add(1),
            ..self.stats
        };
    }

    /// Count a copy-up of `size` bytes.
    pub fn note_copy_up(&mut self, size: u64)
        requires
            old(self).wf(),
        ensures
            final(self).wf(),
            final(self)@ == (FsView {
                stats: FsStats {
                    copy_ups: old(self)@.stats.copy_ups.wrapping_add(1),
                    copy_up_bytes: old(self)@.stats.copy_up_bytes.wrapping_add(size),
                    ..old(self)@.stats
                },
                ..old(self)@
            }),
    {
        self.stats = FsStats {
            copy_ups: self.stats.copy_ups.wrapping_add(1),
            copy_up_bytes: self.stats.copy_up_bytes.wrapping_add(size),
            ..self.stats
        };
    }

    /// The kernel dropped references to an inode.
    pub fn forget(&mut self, ino: u64, nlookup: u64)
        requires
            old(self).wf(),
        ensures
            final(self).wf(),
            final(self)@ == (FsView {
                table: old(self)@.table.forgotten(ino, nlookup),
                ..old(self)@
            }),
    {
        self.inodes.forget(ino, nlookup);
    }

    /// Refresh an inode's node; the answer is its record, if it is still live.
    pub fn refresh(&mut self, ino: u64, node: Node) -> (res: Option<&Record>)
        requires
            old(self).wf(),
        ensures
            final(self).wf(),
            final(self)@ == (FsView {
                table: old(self)@.table.refreshed(ino, node@),
                ..old(self)@
            }),
            res is Some <==> old(self)@.table.records.contains_key(ino),
            res matches Some(r) ==> r@ == (RecordView {
                node: node@,
                ..old(self)@.table.records[ino]
            }),
    {
        self.inodes.refresh(ino, node);
        self.inodes.get(ino)
    }

    /// Publish a row without a kernel reference; the answer is its record.
    pub fn republish(&mut self, path: &BytePath, row: OverlayEntry) -> (res: Record)
        requires
            old(self).wf(),
            old(self)@.table.can_look_up(path@, NodeView::Overlay(row@)),
        ensures
            final(self).wf(),
            final(self)@ == old(self)@.published(path@, NodeView::Overlay(row@)),
            res@ == old(self)@.table.lookup_record(path@, NodeView::Overlay(row@)),
    {
        let record = self.inodes.insert_lookup(path.duplicate(), Node::Overlay(Box::new(row)));
        self.inodes.forget(record.ino, 1);
        record
    }

    /// Take a handle for an open file.
    pub fn open_file(&mut self, ino: u64, file: OpenFile) -> (res: (u64, KeepFlags))
        requires
            old(self).wf(),
            old(self)@.can_open(ino),
        ensures
            final(self).wf(),
            final(self)@ == old(self)@.file_opened(ino, file@),
            res.0 == old(self)@.next_handle,
            res.1 == file_flags(file@),
    {
        let flags = fopen_flags(&file);
        let handle = self.next_handle;
        let ghost s = self@;
        self.next_handle = handle + 1;
        self.inodes.open(ino);
        self.files.insert(handle, file);
        self.stats = FsStats { opens: self.stats.opens.wrapping_add(1), ..self.stats };
        proof {
            assert(self@.files =~= s.files.insert(handle, file@));
            assert(!s.dirs.contains_key(handle));
        }
        (handle, flags)
    }

    /// Settle a creation: the new file is found and opened in one step.
    pub fn created(&mut self, path: BytePath, node: Node, file: OpenFile) -> (res: (Record, u64))
        requires
            old(self).wf(),
            old(self)@.table.can_look_up(path@, node@),
            old(self)@.found(path@, node@).can_open(
                old(self)@.table.lookup_record(path@, node@).ino,
            ),
        ensures
            final(self).wf(),
            final(self)@ == old(self)@.found(path@, node@).file_opened(
                old(self)@.table.lookup_record(path@, node@).ino,
                file@,
            ),
            res.0@ == old(self)@.table.lookup_record(path@, node@),
            res.1 == old(self)@.next_handle,
    {
        let ghost s = self@;
        let (record, _) = self.found(path, node, false);
        assert(self@ == s.found(path@, node@));
        let (handle, _) = self.open_file(record.ino, file);
        (record, handle)
    }

    /// What a file handle reads from.
    pub fn file(&self, fh: u64) -> (res: Option<&OpenFile>)
        ensures
            res is Some <==> self@.files.contains_key(fh),
            res matches Some(f) ==> f@ == self@.files[fh],
    {
        self.files.get(&fh)
    }

    /// Count a read.
    pub fn note_read(&mut self, bytes: u64)
        requires
            old(self).wf(),
        ensures
            final(self).wf(),
            final(self)@ == (FsView {
                stats: FsStats {
                    reads: old(self)@.stats.reads.wrapping_add(1),
                    read_bytes: old(self)@.stats.read_bytes.wrapping_add(bytes),
                    ..old(self)@.stats
                },
                ..old(self)@
            }),
    {
        self.stats = FsStats {
            reads: self.stats.reads.wrapping_add(1),
            read_bytes: self.stats.read_bytes.wrapping_add(bytes),
            ..self.stats
        };
    }

    /// Count a write to a real file.
    pub fn note_write(&mut self, bytes: u64)
        requires
            old(self).wf(),
        ensures
            final(self).wf(),
            final(self)@ == (FsView {
                stats: FsStats {
                    writes: old(self)@.stats.writes.wrapping_add(1),
                    written_bytes: old(self)@.stats.written_bytes.wrapping_add(bytes),
                    ..old(self)@.stats
                },
                ..old(self)@
            }),
    {
        self.stats = FsStats {
            writes: self.stats.writes.wrapping_add(1),
            written_bytes: self.stats.written_bytes.wrapping_add(bytes),
            ..self.stats
        };
    }

    /// Settle a write of overlay content: the record the kernel consults for
    /// the size follows it.
    pub fn wrote(&mut self, ino: u64, offset: u64, written: u64, row: Option<OverlayEntry>)
        requires
            old(self).wf(),
            old(self)@.table.records.contains_key(ino) && row is Some
                ==> old(self)@.table.can_look_up(
                old(self)@.table.records[ino].path,
                NodeView::Overlay((row->0)@),
            ),
        ensures
            final(self).wf(),
            final(self)@ == after_write(
                old(self)@,
                ino,
                offset,
                written,
                match row {
                    Some(r) => Some(r@),
                    None => None,
                },
            ),
    {
        self.note_write(written);
        let path = match self.inodes.get(ino) {
            None => return ,
            Some(record) => record.path.duplicate(),
        };
        match row {
            Some(row) => {
                let _ = self.republish(&path, row);
            },
            None => {
                let grown_row = match self.inodes.get(ino) {
                    None => None,
                    Some(record) => match &record.node {
                        Node::Overlay(entry) => {
                            let end = offset.saturating_add(written);
                            let size = if entry.size >= end {
                                entry.size
                            } else {
                                end
                            };
                            let mut copy = entry.duplicate();
                            copy.size = size;
                            Some(copy)
                        },
                        Node::Base(_) | Node::Git(_) | Node::Odb(_) => None,
                    },
                };
                match grown_row {
                    Some(copy) => {
                        self.inodes.refresh(ino, Node::Overlay(Box::new(copy)));
                    },
                    None => {},
                }
            },
        }
    }

    /// Drop a file handle; what it read from comes back, for the caller to
    /// release.
    pub fn release(&mut self, ino: u64, fh: u64) -> (res: Option<OpenFile>)
        requires
            old(self).wf(),
        ensures
            final(self).wf(),
            final(self)@ == (FsView {
                table: old(self)@.table.closed(ino),
                files: old(self)@.files.remove(fh),
                ..old(self)@
            }),
            res is Some <==> old(self)@.files.contains_key(fh),
            res matches Some(f) ==> f@ == old(self)@.files[fh],
    {
        let ghost s = self@;
        let file = self.files.remove(&fh);
        self.inodes.close(ino);
        proof {
            assert(self@.files =~= s.files.remove(fh));
        }
        file
    }

    /// Take a handle for an open directory.
    pub fn open_directory(&mut self, ino: u64, state: DirState) -> (res: (u64, KeepFlags))
        requires
            old(self).wf(),
            old(self)@.can_open(ino),
            old(self)@.table.records.contains_key(ino),
        ensures
            final(self).wf(),
            final(self)@ == (FsView {
                table: old(self)@.table.opened(ino),
                dirs: old(self)@.dirs.insert(old(self)@.next_handle, state@),
                next_handle: (old(self)@.next_handle + 1) as u64,
                ..old(self)@
            }),
            res.0 == old(self)@.next_handle,
            res.1 == dir_flags(old(self)@.table.records[ino].node),
    {
        let ghost s = self@;
        let merged = match self.inodes.get(ino) {
            Some(r) => !(r.node.is_git() || r.node.is_odb()),
            None => true,
        };
        let handle = self.next_handle;
        self.next_handle = handle + 1;
        self.inodes.open(ino);
        self.dirs.insert(handle, state);
        proof {
            assert(self@.dirs =~= s.dirs.insert(handle, state@));
            assert(!s.files.contains_key(handle));
        }
        (handle, KeepFlags { no_flush: false, keep_cache: merged, cache_dir: merged })
    }

    /// Drop a directory handle.
    pub fn release_directory(&mut self, ino: u64, fh: u64)
        requires
            old(self).wf(),
        ensures
            final(self).wf(),
            final(self)@ == (FsView {
                table: old(self)@.table.closed(ino),
                dirs: old(self)@.dirs.remove(fh),
                ..old(self)@
            }),
    {
        let ghost s = self@;
        let _ = self.dirs.remove(&fh);
        self.inodes.close(ino);
        proof {
            assert(self@.dirs =~= s.dirs.remove(fh));
        }
    }

    /// The state of an open directory.
    pub fn directory(&self, fh: u64) -> (res: Option<&DirState>)
        ensures
            res is Some <==> self@.dirs.contains_key(fh),
            res matches Some(d) ==> d@ == self@.dirs[fh],
    {
        self.dirs.get(&fh)
    }

    /// Put a directory's state back, its listing completed.
    pub fn put_directory(&mut self, fh: u64, state: DirState)
        requires
            old(self).wf(),
            fh < old(self)@.next_handle,
            !old(self)@.files.contains_key(fh),
        ensures
            final(self).wf(),
            final(self)@ == (FsView {
                dirs: old(self)@.dirs.insert(fh, state@),
                ..old(self)@
            }),
    {
        let ghost s = self@;
        self.dirs.insert(fh, state);
        proof {
            assert(self@.dirs =~= s.dirs.insert(fh, state@));
        }
    }

    /// Take a directory's state out to complete its listing.
    pub fn take_directory(&mut self, fh: u64) -> (res: Option<DirState>)
        requires
            old(self).wf(),
        ensures
            final(self).wf(),
            final(self)@ == (FsView { dirs: old(self)@.dirs.remove(fh), ..old(self)@ }),
            res is Some <==> old(self)@.dirs.contains_key(fh),
            res matches Some(d) ==> d@ == old(self)@.dirs[fh],
    {
        let ghost s = self@;
        let state = self.dirs.remove(&fh);
        proof {
            assert(self@.dirs =~= s.dirs.remove(fh));
        }
        state
    }

    /// The entry a directory handle lists at an offset.
    ///
    /// A plain listing numbers the child but takes no kernel reference; one
    /// with attributes takes one, which [`Gfs::refused`] gives back.
    pub fn list(&mut self, fh: u64, ino: u64, index: u64, referenced: bool) -> (res: DirStep)
        requires
            old(self).wf(),
            index < u64::MAX,
            old(self)@.child(fh, index) matches Some(c) ==> old(self)@.table.can_look_up(
                old(self)@.child_path(fh, index),
                c.node(),
            ),
        ensures
            final(self).wf(),
            list_outcome(old(self)@, final(self)@, fh, ino, index, referenced, res),
    {
        let ghost s = self@;
        let state = match self.dirs.get(&fh) {
            None => return DirStep::BadDescriptor,
            Some(d) => d,
        };
        assert(state@ == s.dirs[fh]);
        if index == 0 {
            let name: Vec<u8> = vec![46u8];
            assert(name@ =~= seq![46u8]);
            return DirStep::Entry(Listed { ino, next: 1, kind: FileType::Directory, name });
        }
        if index == 1 {
            let name: Vec<u8> = vec![46u8, 46u8];
            assert(name@ =~= seq![46u8, 46u8]);
            return DirStep::Entry(Listed { ino, next: 2, kind: FileType::Directory, name });
        }
        let needs = state.needs();
        match needs {
            Fill::Nothing => {},
            Fill::RealListing(_) | Fill::MergedListing => return DirStep::Fill(needs),
        }
        if index - 2 >= state.children.len() as u64 {
            return DirStep::End;
        }
        let child: &Child = &state.children[(index - 2) as usize];
        assert(child@ == s.dirs[fh].children[index - 2]);
        let name = child.name();
        let kind = child.file_type();
        let node = child.node();
        let path = state.path.join(name.as_slice());
        let record = if referenced {
            self.inodes.insert_readdirplus(path, node)
        } else {
            let record = self.inodes.insert_lookup(path, node);
            self.inodes.forget(record.ino, 1);
            record
        };
        DirStep::Entry(Listed { ino: record.ino, next: index + 1, kind, name })
    }

    /// The kernel took an entry with attributes.
    pub fn accepted(&mut self)
        requires
            old(self).wf(),
        ensures
            final(self).wf(),
            final(self)@ == (FsView {
                stats: FsStats {
                    lookups: old(self)@.stats.lookups.wrapping_add(1),
                    ..old(self)@.stats
                },
                ..old(self)@
            }),
    {
        self.stats = FsStats { lookups: self.stats.lookups.wrapping_add(1), ..self.stats };
    }

    /// The kernel did not take an entry with attributes: its reference is
    /// given back.
    pub fn refused(&mut self, ino: u64)
        requires
            old(self).wf(),
        ensures
            final(self).wf(),
            final(self)@ == (FsView {
                table: old(self)@.table.forgotten(ino, 1),
                ..old(self)@
            }),
    {
        self.inodes.forget(ino, 1);
    }

    /// Follow a rename the kernel has made: every number moves with its path.
    pub fn moved(&mut self, from: &BytePath, to: &BytePath) -> (res: Vec<(u64, BytePath)>)
        requires
            old(self).wf(),
        ensures
            final(self).wf(),
            old(self)@.table.renames(final(self)@.table, from@, to@),
            old(self)@.table.lists_moves(crate::inode::move_views(res@), from@, to@),
            final(self)@ == (FsView { table: final(self)@.table, ..old(self)@ }),
    {
        self.inodes.rename_subtree(from, to)
    }

    /// Whether a re-pin can count one more generation of every file.
    pub fn can_repin(&self) -> (res: bool)
        requires
            self.wf(),
        ensures
            res == generations_left(self@.table),
    {
        self.inodes.can_repin()
    }

    /// Look at a different commit: the numbers stay, open handles are
    /// untouched, and what comes back are the dentries the kernel must drop.
    pub fn repin(&mut self, root: TreeEntryInfo, rows: &[OverlayEntry]) -> (res: Vec<StaleEntry>)
        requires
            old(self).wf(),
            generations_left(seeded(old(self)@.table, rows@, rows@.len())),
        ensures
            final(self).wf(),
            final(self)@ == (FsView {
                table: seeded(old(self)@.table, rows@, rows@.len()).repinned(root@),
                ..old(self)@
            }),
            seeded(old(self)@.table, rows@, rows@.len()).drops(stale_views(res@)),
    {
        self.inodes.seed(rows);
        self.inodes.repin(root)
    }

    /// Note that a path's bytes were replaced behind the kernel.
    pub fn rewritten(&mut self, path: &BytePath) -> (res: Option<StaleEntry>)
        requires
            old(self).wf(),
            generations_left(old(self)@.table),
        ensures
            final(self).wf(),
            final(self)@ == (FsView { table: final(self)@.table, ..old(self)@ }),
            old(self)@.table.rewrites(final(self)@.table, path@, res),
    {
        self.inodes.rewritten_behind_kernel(path)
    }
}

/// What a directory handle lists at an offset.
pub open spec fn list_outcome(
    s: FsView,
    t: FsView,
    fh: u64,
    ino: u64,
    index: u64,
    referenced: bool,
    res: DirStep,
) -> bool {
    if !s.dirs.contains_key(fh) {
        t == s && res is BadDescriptor
    } else if index < 2 {
        t == s && (res matches DirStep::Entry(e) && dot_entry(ino, index, e))
    } else if s.dirs[fh].git_pending is Some || !s.dirs[fh].complete {
        t == s && (res matches DirStep::Fill(f) && (match s.dirs[fh].git_pending {
            Some(rel) => f matches Fill::RealListing(r) && r@ == rel,
            None => f is MergedListing,
        }))
    } else {
        match s.child(fh, index) {
            None => t == s && res is End,
            Some(c) => {
                let path = s.child_path(fh, index);
                let number = s.table.lookup_number(path, c.node());
                let looked_up = s.table.looked_up(path, c.node());
                &&& res matches DirStep::Entry(e) && e.ino == s.table.lookup_record(
                    path,
                    c.node(),
                ).ino && e.next == index + 1 && e.kind == c.listed_type() && e.name@ == c.name()
                &&& t == (FsView {
                    table: if referenced {
                        looked_up
                    } else {
                        looked_up.forgotten(number, 1)
                    },
                    ..s
                })
            },
        }
    }
}

/// The bytes of a blob in memory that a read covers.
pub open spec fn memory_range(len: nat, offset: u64, size: u32) -> (int, int) {
    let start = if offset < len {
        offset as int
    } else {
        len as int
    };
    (
        start,
        if start + size < len {
            start + size
        } else {
            len as int
        },
    )
}

/// The bytes of a blob in memory that a read covers.
pub fn memory_slice(len: usize, offset: u64, size: u32) -> (res: (usize, usize))
    ensures
        res.0 == memory_range(len as nat, offset, size).0,
        res.1 == memory_range(len as nat, offset, size).1,
        res.0 <= res.1 <= len,
{
    let start: usize = if offset < len as u64 {
        offset as usize
    } else {
        len
    };
    let left: u64 = (len - start) as u64;
    let end: usize = if (size as u64) < left {
        start + size as usize
    } else {
        len
    };
    (start, end)
}

/// How a write through a handle is performed.
#[derive(Clone, Copy, PartialEq, Eq, Structural, Debug)]
pub enum WritePlan {
    Refuse(Errno),
    /// Straight to the real file.
    Real,
    /// To this content of the overlay.
    Local(u64),
}

/// How a write through a handle is performed: a descriptor that is not
/// writable is bad, not read-only.
pub open spec fn write_plan(file: Option<OpenFileView>) -> WritePlan {
    match file {
        Some(OpenFileView::Git { writable }) => if writable {
            WritePlan::Real
        } else {
            WritePlan::Refuse(Errno::BadDescriptor)
        },
        Some(OpenFileView::Local { content_id, writable }) => if writable {
            WritePlan::Local(content_id)
        } else {
            WritePlan::Refuse(Errno::BadDescriptor)
        },
        _ => WritePlan::Refuse(Errno::BadDescriptor),
    }
}

/// How a write through a handle is performed.
pub fn plan_write(file: Option<&OpenFile>) -> (res: WritePlan)
    ensures
        res == write_plan(
            match file {
                Some(f) => Some(f@),
                None => None,
            },
        ),
{
    match file {
        Some(OpenFile::Git { writable }) => if *writable {
            WritePlan::Real
        } else {
            WritePlan::Refuse(Errno::BadDescriptor)
        },
        Some(OpenFile::Local { content_id, writable }) => if *writable {
            WritePlan::Local(*content_id)
        } else {
            WritePlan::Refuse(Errno::BadDescriptor)
        },
        _ => WritePlan::Refuse(Errno::BadDescriptor),
    }
}

/// What making a file durable takes.
#[derive(Clone, Copy, PartialEq, Eq, Structural, Debug)]
pub enum SyncPlan {
    /// Nothing is local.
    Nothing,
    /// The real file alone.
    Real,
    /// The content file, then the journal that names it.
    ContentThenJournal(u64),
    /// The journal alone.
    Journal,
}

/// What making a file durable takes.
pub fn plan_fsync(file: Option<&OpenFile>) -> (res: SyncPlan)
    ensures
        res == (match file {
            Some(f) => match f@ {
                OpenFileView::Git { .. } => SyncPlan::Real,
                OpenFileView::Odb { .. } => SyncPlan::Nothing,
                OpenFileView::Memory => SyncPlan::Nothing,
                OpenFileView::Local { content_id, .. } => SyncPlan::ContentThenJournal(content_id),
                OpenFileView::Blob { .. } => SyncPlan::Journal,
            },
            None => SyncPlan::Journal,
        }),
{
    match file {
        Some(OpenFile::Git { .. }) => SyncPlan::Real,
        Some(OpenFile::Odb { .. }) => SyncPlan::Nothing,
        Some(OpenFile::Memory) => SyncPlan::Nothing,
        Some(OpenFile::Local { content_id, .. }) => SyncPlan::ContentThenJournal(*content_id),
        Some(OpenFile::Blob { .. }) => SyncPlan::Journal,
        None => SyncPlan::Journal,
    }
}

/// A handle is never handed out twice: a new one is in use nowhere.
pub proof fn law_handles_are_fresh(s: FsView, ino: u64, file: OpenFileView)
    requires
        s.wf(),
        s.can_open(ino),
    ensures
        !s.files.contains_key(s.next_handle),
        !s.dirs.contains_key(s.next_handle),
        s.file_opened(ino, file).wf(),
        s.file_opened(ino, file).next_handle > s.next_handle,
{
}

/// A published row leaves no kernel reference behind: an inode the kernel does
/// not know, and nothing holds open, is forgotten again.
pub proof fn law_publishing_leaks_nothing(s: FsView, path: Seq<u8>, node: NodeView)
    requires
        s.table.can_look_up(path, node),
        !s.table.records.contains_key(s.table.lookup_number(path, node)),
        s.table.lookup_number(path, node) != crate::inode::ROOT_INO,
    ensures
        s.published(path, node).table.records =~= s.table.records,
{
    let number = s.table.lookup_number(path, node);
    let t = s.table.looked_up(path, node);
    assert(t.records[number].lookups == 1 && t.records[number].opens == 0);
    assert(s.table.adopted(path, node).numbered(path).records == s.table.records);
}

/// A listing with attributes that the kernel refuses leaves the references as
/// a plain listing does.
pub proof fn law_a_refused_entry_is_given_back(
    s: FsView,
    plain: FsView,
    held: FsView,
    fh: u64,
    ino: u64,
    index: u64,
    a: DirStep,
    b: DirStep,
)
    requires
        s.child(fh, index) is Some,
        s.dirs[fh].complete,
        s.dirs[fh].git_pending is None,
        list_outcome(s, plain, fh, ino, index, false, a),
        list_outcome(s, held, fh, ino, index, true, b),
    ensures
        held.table.forgotten(
            s.table.lookup_number(s.child_path(fh, index), s.child(fh, index)->0.node()),
            1,
        ) == plain.table,
{
}

} // verus!
