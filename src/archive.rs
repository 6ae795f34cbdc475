use vstd::prelude::*;

use crate::header::{
    is_file_path, is_joined_file_path, lemma_path_names, lists_files, resolve, views, FileMetadata,
    HeaderEntry, HeaderError, Integrity,
};
use crate::path::{join, join_path, lemma_split_join, path_segments, split_path};

verus! {

/// Where the header's length stands in the prologue.
pub const HEADER_SIZE_POSITION: u64 = 12;

/// Length of the prologue, which ends with the header's length.
pub const PROLOGUE_LEN: u64 = 16;

/// A 32-bit unsigned integer stored least significant byte first.
pub open spec fn le_u32(b: Seq<u8>) -> nat {
    b[0] as nat + 256 * (b[1] as nat) + 65536 * (b[2] as nat) + 16777216 * (b[3] as nat)
}

/// Reads the header's length from the four bytes at `HEADER_SIZE_POSITION`.
pub fn header_size(bytes: &[u8]) -> (r: u32)
    requires
        bytes@.len() == 4,
    ensures
        r as nat == le_u32(bytes@),
{
    bytes[0] as u32 + 256 * (bytes[1] as u32) + 65536 * (bytes[2] as u32) + 16777216 * (
    bytes[3] as u32)
}

/// Read-only asar archive: the header tree and where the data region begins.
pub struct Archive {
    offset: u64,
    header: HeaderEntry,
}

/// The metadata of the file that a path names, if it names a file.
pub open spec fn lookup(root: HeaderEntry, path: Seq<char>) -> Option<FileMetadata> {
    match resolve(root, path_segments(path)) {
        Some(HeaderEntry::File(m)) => Some(m),
        _ => None,
    }
}

impl Archive {
    /// The header tree.
    pub closed spec fn tree(&self) -> HeaderEntry {
        self.header
    }

    /// Where the data region begins.
    pub closed spec fn base(&self) -> u64 {
        self.offset
    }

    /// The root is a well-formed directory and the data region follows the header.
    pub open spec fn wf(&self) -> bool {
        &&& self.tree() is Dir
        &&& self.tree().wf()
        &&& PROLOGUE_LEN <= self.base() <= PROLOGUE_LEN + u32::MAX
    }

    /// Opens an archive from the header's length and its parsed tree; a root
    /// that is a file is malformed.
    pub fn new(header_size: u32, header: HeaderEntry) -> (r: Result<Archive, HeaderError>)
        ensures
            r is Ok <==> header is Dir,
            r is Err ==> r == Err::<Archive, HeaderError>(HeaderError::Malformed),
            r matches Ok(a) ==> a.tree() == header && a.base() == PROLOGUE_LEN + header_size,
            r matches Ok(a) ==> (header.wf() ==> a.wf()),
    {
        match header {
            HeaderEntry::Dir(_) => Ok(Archive { offset: header_size as u64 + PROLOGUE_LEN, header }),
            HeaderEntry::File(_) => Err(HeaderError::Malformed),
        }
    }

    /// Where the data region begins.
    pub fn data_offset(&self) -> (r: u64)
        ensures
            r == self.base(),
    {
        self.offset
    }

    /// The paths of all files in the archive, joined with '/'; directories
    /// are not listed, and the order carries no meaning.
    pub fn file_paths(&self) -> (r: Vec<String>)
        requires
            self.wf(),
        ensures
            lists_files(self.tree(), views(r@)),
    {
        match &self.header {
            HeaderEntry::Dir(d) => d.file_paths(),
            HeaderEntry::File(_) => Vec::new(),
        }
    }

    /// Gets a file by its path. A path that names a directory or nothing
    /// gives `None`. The caller reads the file's bytes from `position()`.
    pub fn get(&self, path: &str) -> (r: Option<File<'_>>)
        requires
            self.wf(),
        ensures
            r is Some <==> lookup(self.tree(), path@) is Some,
            r matches Some(f) ==> {
                &&& f.wf()
                &&& *f.metadata() == lookup(self.tree(), path@)->Some_0
                &&& f.path_view() == join(path_segments(path@))
                &&& f.name_view() == path_segments(path@).last()
                &&& f.start() == self.base() + f.metadata().offset
                &&& f.delivered() == 0
            },
    {
        let segments = split_path(path);
        let found = self.header.search_segments(segments.as_slice());
        match found {
            Some(HeaderEntry::File(metadata)) => {
                proof {
                    lemma_path_names(self.header, views(segments@));
                }
                let full = join_path(&segments);
                let name = segments[segments.len() - 1].clone();
                let position = self.offset + metadata.offset;
                Some(File { path: full, name, metadata, position, delivered: 0 })
            },
            _ => None,
        }
    }
}

/// A file inside an archive, and how much of it has been read.
///
/// It hands out read windows that never reach past the file's size.
#[derive(Debug)]
pub struct File<'a> {
    path: String,
    name: String,
    metadata: &'a FileMetadata,
    position: u64,
    delivered: u64,
}

/// How many bytes a read of `want` may deliver when `delivered` of `size` are gone.
pub open spec fn grant(size: nat, delivered: nat, want: nat) -> nat {
    if want <= size - delivered {
        want
    } else {
        (size - delivered) as nat
    }
}

/// How many bytes a stream has delivered after reads that each asked for
/// the next amount in `wants` and received all that was granted.
pub open spec fn delivered_after(size: nat, wants: Seq<nat>) -> nat
    decreases wants.len(),
{
    if wants.len() == 0 {
        0
    } else {
        let before = delivered_after(size, wants.drop_last());
        before + grant(size, before, wants.last())
    }
}

impl<'a> File<'a> {
    pub closed spec fn path_view(&self) -> Seq<char> {
        self.path@
    }

    pub closed spec fn name_view(&self) -> Seq<char> {
        self.name@
    }

    pub closed spec fn metadata(&self) -> &'a FileMetadata {
        self.metadata
    }

    /// Where the file's first byte stands in the archive.
    pub closed spec fn start(&self) -> u64 {
        self.position
    }

    /// How many bytes have been read so far.
    pub closed spec fn delivered(&self) -> u64 {
        self.delivered
    }

    pub open spec fn wf(&self) -> bool {
        self.delivered() <= self.metadata().size
    }

    /// The file's name: the last segment of its path.
    pub fn name(&self) -> (r: &str)
        ensures
            r@ == self.name_view(),
    {
        self.name.as_str()
    }

    /// The file's path in the archive.
    pub fn path(&self) -> (r: &str)
        ensures
            r@ == self.path_view(),
    {
        self.path.as_str()
    }

    /// The size of the file in bytes.
    pub fn size(&self) -> (r: u64)
        ensures
            r == self.metadata().size,
    {
        self.metadata.size
    }

    /// Whether the file is executable.
    pub fn executable(&self) -> (r: bool)
        ensures
            r == self.metadata().executable,
    {
        self.metadata.executable
    }

    /// Checksums of the file; checking them is left to the caller.
    pub fn integrity(&self) -> (r: Option<&Integrity>)
        ensures
            match r {
                Some(i) => self.metadata().integrity == Some(*i),
                None => self.metadata().integrity is None,
            },
    {
        match &self.metadata.integrity {
            Some(i) => Some(i),
            None => None,
        }
    }

    /// Where the file's first byte stands in the archive.
    pub fn position(&self) -> (r: u64)
        ensures
            r == self.start(),
    {
        self.position
    }

    /// How many bytes are left to read.
    pub fn remaining(&self) -> (r: u64)
        requires
            self.wf(),
        ensures
            r == self.metadata().size - self.delivered(),
    {
        self.metadata.size - self.delivered
    }

    /// How many bytes a read into a buffer of `want` bytes may take: no more
    /// than are left, so a read once all bytes are gone takes none.
    pub fn window(&self, want: usize) -> (r: usize)
        requires
            self.wf(),
        ensures
            r as nat == grant(self.metadata().size as nat, self.delivered() as nat, want as nat),
    {
        let left = self.metadata.size - self.delivered;
        if (want as u64) <= left {
            want
        } else {
            left as usize
        }
    }

    /// Records that a read took `n` bytes of the window it was given.
    pub fn advance(&mut self, n: usize)
        requires
            old(self).wf(),
            n as nat <= old(self).metadata().size - old(self).delivered(),
        ensures
            final(self).wf(),
            final(self).delivered() == old(self).delivered() + n,
            final(self).metadata() == old(self).metadata(),
            final(self).path_view() == old(self).path_view(),
            final(self).name_view() == old(self).name_view(),
            final(self).start() == old(self).start(),
    {
        self.delivered = self.delivered + n as u64;
    }
}

/// A stream never delivers more than the file's size, and once it has
/// delivered all of it, every further read is granted nothing.
pub proof fn lemma_stream_bounded(size: nat, wants: Seq<nat>, next: nat)
    ensures
        delivered_after(size, wants) <= size,
        delivered_after(size, wants) == size ==> grant(size, size, next) == 0,
    decreases wants.len(),
{
    if wants.len() > 0 {
        lemma_stream_bounded(size, wants.drop_last(), next);
    }
}

/// Every path that the listing gives leads `get` to a file, the very one
/// that the listing found, so the stream reports that file's size.
pub proof fn lemma_listed_path_found(a: &Archive, p: Seq<char>)
    requires
        a.wf(),
        is_joined_file_path(a.tree(), p),
    ensures
        lookup(a.tree(), p) is Some,
        exists|segs: Seq<Seq<char>>|
            #![trigger is_file_path(a.tree(), segs)]
            is_file_path(a.tree(), segs) && p == join(segs) && resolve(a.tree(), segs) == Some(
                HeaderEntry::File(lookup(a.tree(), p)->Some_0),
            ),
{
    let segs = choose|segs: Seq<Seq<char>>| #[trigger]
        is_file_path(a.tree(), segs) && p == join(segs);
    lemma_path_names(a.tree(), segs);
    lemma_split_join(segs);
}

/// A path that leads to nothing, or to a directory, gives no file.
pub proof fn lemma_get_misses(a: &Archive, p: Seq<char>)
    requires
        a.wf(),
        !(resolve(a.tree(), path_segments(p)) matches Some(HeaderEntry::File(_))),
    ensures
        lookup(a.tree(), p) is None,
{
}

} // verus!
