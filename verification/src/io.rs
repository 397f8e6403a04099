//! Entries, and the two ways to hold one: a cursor to read it and a buffer
//! to stage a new version of it.
use crate::path::OwnedGfsPath;
use std::marker::PhantomData;
use std::sync::Arc;
use vstd::prelude::*;
use vstd::slice::slice_to_vec;

verus! {

/// An entry as a value: its metadata and the bytes of its content.
pub struct FileView<T> {
    pub metadata: T,
    pub contents: Seq<u8>,
}

/// `Arc::clone` on a byte buffer: the handle that comes back shares the
/// buffer of the handle given, so both hold the same bytes.
#[verifier::external_body]
fn share_bytes(data: &Arc<Vec<u8>>) -> (shared: Arc<Vec<u8>>)
    ensures
        shared@ == data@,
{
    Arc::clone(data)
}

/// An entry: metadata and a shared, immutable byte buffer.
pub struct GfsFile<T> {
    pub metadata: T,
    pub contents: Arc<Vec<u8>>,
}

impl<T> View for GfsFile<T> {
    type V = FileView<T>;

    open spec fn view(&self) -> FileView<T> {
        FileView { metadata: self.metadata, contents: self.contents@ }
    }
}

impl<T: Copy> Clone for GfsFile<T> {
    /// A second handle on the same entry; no byte is copied.
    fn clone(&self) -> (copy: Self)
        ensures
            copy@ == self@,
    {
        GfsFile { metadata: self.metadata, contents: share_bytes(&self.contents) }
    }
}

impl<T: Copy> GfsFile<T> {
    pub fn create(metadata: T, contents: Arc<Vec<u8>>) -> (file: Self)
        ensures
            file.metadata == metadata,
            file.contents == contents,
            file@ == (FileView { metadata, contents: contents@ }),
    {
        GfsFile { metadata, contents }
    }

    /// A private copy of the content.
    pub fn to_vec(&self) -> (bytes: Vec<u8>)
        ensures
            bytes@ == self@.contents,
    {
        slice_to_vec(self.contents.as_slice())
    }
}

/// A read-only cursor over one entry.
pub struct ReadableFile<T> {
    file: GfsFile<T>,
    position: usize,
}

impl<T> ReadableFile<T> {
    #[verifier::type_invariant]
    closed spec fn in_bounds(&self) -> bool {
        self.position <= self.file.contents@.len()
    }
}

impl<T: Copy> ReadableFile<T> {
    /// The entry that the cursor reads.
    pub closed spec fn entry(&self) -> FileView<T> {
        self.file@
    }

    /// How many bytes the cursor has passed.
    pub closed spec fn offset(&self) -> nat {
        self.position as nat
    }

    /// A cursor at the start of `file`.
    pub fn from_file(file: GfsFile<T>) -> (reader: Self)
        ensures
            reader.entry() == file@,
            reader.offset() == 0,
    {
        ReadableFile { file, position: 0 }
    }

    pub fn metadata(&self) -> (metadata: T)
        ensures
            metadata == self.entry().metadata,
    {
        self.file.metadata
    }

    pub fn len(&self) -> (len: usize)
        ensures
            len == self.entry().contents.len(),
    {
        self.file.contents.len()
    }

    pub fn position(&self) -> (position: usize)
        ensures
            position == self.offset(),
            position <= self.entry().contents.len(),
    {
        proof {
            use_type_invariant(self);
        }
        self.position
    }

    /// The byte at `index`, wherever the cursor stands.
    pub fn byte_at(&self, index: usize) -> (byte: Option<u8>)
        ensures
            byte == (if index < self.entry().contents.len() {
                Some(self.entry().contents[index as int])
            } else {
                None
            }),
    {
        if index < self.file.contents.len() {
            Some(self.file.contents[index])
        } else {
            None
        }
    }

    /// Up to `count` bytes from the cursor on; the cursor moves past them.
    pub fn read(&mut self, count: usize) -> (bytes: Vec<u8>)
        ensures
            final(self).entry() == old(self).entry(),
            final(self).offset() == old(self).offset() + bytes@.len(),
            bytes@ == old(self).entry().contents.subrange(
                old(self).offset() as int,
                (old(self).offset() + bytes@.len()) as int,
            ),
            bytes@.len() == (if count <= old(self).entry().contents.len() - old(self).offset() {
                count as int
            } else {
                old(self).entry().contents.len() - old(self).offset()
            }),
    {
        proof {
            use_type_invariant(&*self);
        }
        let total: usize = self.file.contents.len();
        let left: usize = total - self.position;
        let take: usize = if count <= left { count } else { left };
        let start: usize = self.position;
        let mut bytes: Vec<u8> = Vec::new();
        let mut i: usize = 0;
        while i < take
            invariant
                i <= take,
                start + take <= total,
                total == self.file.contents@.len(),
                bytes@ == self.file.contents@.subrange(start as int, start + i),
            decreases take - i,
        {
            bytes.push(self.file.contents[start + i]);
            assert(bytes@ =~= self.file.contents@.subrange(start as int, start + i + 1));
            i = i + 1;
        }
        self.position = start + take;
        bytes
    }
}

/// A staging buffer for the entry at one path of a store of type `S`. Nothing that happens to it
/// reaches a store until its parts are inserted there.
pub struct WritableFile<T, S> {
    path: OwnedGfsPath<T>,
    metadata: T,
    contents: Vec<u8>,
    store: PhantomData<S>,
}

impl<T: Copy, S> WritableFile<T, S> {
    /// The text of the path that the buffer is bound to.
    pub closed spec fn target(&self) -> Seq<char> {
        self.path@
    }

    /// The entry that the buffer holds at the moment.
    pub closed spec fn staged(&self) -> FileView<T> {
        FileView { metadata: self.metadata, contents: self.contents@ }
    }

    pub fn from_owned(path: &OwnedGfsPath<T>, metadata: T, contents: Vec<u8>) -> (writer: Self)
        ensures
            writer.target() == path@,
            writer.staged() == (FileView { metadata, contents: contents@ }),
    {
        WritableFile { path: path.clone(), metadata, contents, store: PhantomData }
    }

    pub fn path(&self) -> (path: &OwnedGfsPath<T>)
        ensures
            path@ == self.target(),
    {
        &self.path
    }

    pub fn metadata(&self) -> (metadata: T)
        ensures
            metadata == self.staged().metadata,
    {
        self.metadata
    }

    pub fn contents(&self) -> (contents: &Vec<u8>)
        ensures
            contents@ == self.staged().contents,
    {
        &self.contents
    }

    pub fn set_metadata(&mut self, metadata: T)
        ensures
            final(self).target() == old(self).target(),
            final(self).staged() == (FileView {
                metadata,
                contents: old(self).staged().contents,
            }),
    {
        self.metadata = metadata;
    }

    /// Appends `bytes` to the staged content.
    pub fn write(&mut self, bytes: &[u8])
        ensures
            final(self).target() == old(self).target(),
            final(self).staged() == (FileView {
                metadata: old(self).staged().metadata,
                contents: old(self).staged().contents + bytes@,
            }),
    {
        let ghost before = self.contents@;
        let mut i: usize = 0;
        while i < bytes.len()
            invariant
                i <= bytes@.len(),
                self.path == old(self).path,
                self.metadata == old(self).metadata,
                self.contents@ == before + bytes@.subrange(0, i as int),
            decreases bytes@.len() - i,
        {
            self.contents.push(bytes[i]);
            assert(self.contents@ =~= before + bytes@.subrange(0, i + 1));
            i = i + 1;
        }
        assert(bytes@.subrange(0, i as int) =~= bytes@);
    }

    /// Empties the staged content.
    pub fn clear(&mut self)
        ensures
            final(self).target() == old(self).target(),
            final(self).staged() == (FileView {
                metadata: old(self).staged().metadata,
                contents: Seq::<u8>::empty(),
            }),
    {
        self.contents.clear();
    }

    /// The staged entry, ready to be inserted: the metadata and the content
    /// in a buffer that can be shared.
    pub fn into_file(self) -> (file: GfsFile<T>)
        ensures
            file@ == self.staged(),
    {
        GfsFile { metadata: self.metadata, contents: Arc::new(self.contents) }
    }
}

} // verus!
