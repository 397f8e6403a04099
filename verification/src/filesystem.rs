//! The two capabilities that a store offers: reading a fixed namespace, and
//! changing it.
use crate::error::{GfsError, GfsResult};
use crate::io::{FileView, GfsFile, ReadableFile, WritableFile};
use crate::namespace::{
    children, is_within, ns_data, ns_drop, ns_entry, ns_insert, ns_meta, ns_rename, ns_seed,
};
use crate::path::{
    is_canonical, lemma_resolve_normalized, normalize, path_segments, resolve, GfsPath,
    OwnedGfsPath,
};
use std::sync::Arc;
use vstd::prelude::*;

verus! {

/// What a store keeps beside the content of an entry: a small value that is
/// copied freely and has a default for entries that are new.
pub trait GfsEntryMeta: Copy + Clone + Default {

}

/// The texts of a list of owned paths, in order.
pub open spec fn path_texts<T>(list: Seq<OwnedGfsPath<T>>) -> Seq<Seq<char>> {
    Seq::new(list.len(), |i: int| list[i]@)
}

/// `value` is what `Default::default` gives for `T`.
pub open spec fn is_default<T: Default>(value: T) -> bool {
    call_ensures(T::default, (), value)
}

/// Read access to a namespace of entries below a root.
pub trait GfsSnapshot<T: GfsEntryMeta>: Sized {
    /// What every operation expects of the store and leaves intact.
    spec fn wf(&self) -> bool;

    /// The text of the root.
    spec fn root_text(&self) -> Seq<char>;

    /// The entries, by the text of their paths.
    spec fn namespace(&self) -> Map<Seq<char>, FileView<T>>;

    /// The order in which the children of a directory are listed.
    spec fn listing(&self, dir: Seq<char>) -> Seq<Seq<char>>;

    /// The root is canonical, and every entry lies under a canonical text
    /// at the root or below it.
    proof fn lemma_entries_below_root(&self)
        requires
            self.wf(),
        ensures
            is_canonical(self.root_text()),
            forall|key: Seq<char>| #[trigger]
                self.namespace().contains_key(key) ==> is_canonical(key) && is_within(
                    self.root_text(),
                    key,
                ),
    ;

    /// The root of the namespace. No operation changes it.
    fn root(&self) -> (root: &OwnedGfsPath<T>)
        requires
            self.wf(),
        ensures
            root@ == self.root_text(),
    ;

    /// The owned path that `path` names below the root.
    fn create_path(&self, path: &GfsPath) -> (owned: OwnedGfsPath<T>)
        requires
            self.wf(),
        ensures
            owned@ == resolve(self.root_text(), path@),
            path_segments(owned@) == path_segments(self.root_text()) + path_segments(path@),
            is_canonical(owned@),
            is_within(self.root_text(), owned@),
    {
        let text = self.normalize_path(path.to_string());
        proof {
            lemma_resolve_normalized(self.root_text(), path@);
            let below = path_segments(self.root_text()) + path_segments(path@);
            assert(path_segments(self.root_text()) =~= below.subrange(
                0,
                path_segments(self.root_text()).len() as int,
            ));
        }
        self.root().join(text.as_str())
    }

    /// The canonical form of a path text.
    fn normalize_path(&self, path: String) -> (text: String)
        ensures
            text@ == normalize(path@),
    ;

    /// The children of the root.
    fn read_root(&self) -> (list: Box<[OwnedGfsPath<T>]>)
        requires
            self.wf(),
        ensures
            path_texts(list@) == self.listing(self.root_text()),
            path_texts(list@).no_duplicates(),
            path_texts(list@).to_set() == children(self.namespace(), self.root_text()),
    {
        self.read_dir(self.root().as_str())
    }

    /// The metadata of the entry that `path` names below the root; `None`
    /// where there is no entry.
    fn read_meta(&self, path: &GfsPath) -> (metadata: Option<T>)
        requires
            self.wf(),
        ensures
            metadata == ns_meta(self.namespace(), resolve(self.root_text(), path@)),
    ;

    /// The content of the entry that `path` names below the root, in the
    /// buffer that the store shares with its readers; `None` where there is
    /// no entry.
    fn read_data(&self, path: &GfsPath) -> (data: Option<Arc<Vec<u8>>>)
        requires
            self.wf(),
        ensures
            data is Some == ns_data(self.namespace(), resolve(self.root_text(), path@)) is Some,
            data matches Some(bytes) ==> Some(bytes@) == ns_data(
                self.namespace(),
                resolve(self.root_text(), path@),
            ),
    ;

    /// The immediate children of the directory whose text `path` is, each
    /// once, in an order that depends on the store's state alone. A
    /// directory that is missing or empty has none.
    fn read_dir(&self, path: &str) -> (list: Box<[OwnedGfsPath<T>]>)
        requires
            self.wf(),
        ensures
            path_texts(list@) == self.listing(normalize(path@)),
            path_texts(list@).no_duplicates(),
            path_texts(list@).to_set() == children(self.namespace(), normalize(path@)),
    ;

    /// Metadata and content together.
    fn read_entry(&self, path: &GfsPath) -> (entry: Option<GfsFile<T>>)
        requires
            self.wf(),
        ensures
            entry is Some == ns_entry(self.namespace(), resolve(self.root_text(), path@)) is Some,
            entry matches Some(file) ==> Some(file@) == ns_entry(
                self.namespace(),
                resolve(self.root_text(), path@),
            ),
    {
        match self.read_meta(path) {
            None => None,
            Some(metadata) => match self.read_data(path) {
                None => None,
                Some(data) => Some(GfsFile::create(metadata, data)),
            },
        }
    }

    /// A cursor at the start of the entry.
    fn entry_reader(&self, path: &GfsPath) -> (reader: Option<ReadableFile<T>>)
        requires
            self.wf(),
        ensures
            reader is Some == ns_entry(self.namespace(), resolve(self.root_text(), path@)) is Some,
            reader matches Some(cursor) ==> cursor.offset() == 0 && Some(cursor.entry())
                == ns_entry(self.namespace(), resolve(self.root_text(), path@)),
    {
        match self.read_entry(path) {
            None => None,
            Some(file) => Some(ReadableFile::from_file(file)),
        }
    }
}

/// Write access on top of read access. A call that fails leaves the
/// namespace as it was.
pub trait GFS<T: GfsEntryMeta>: GfsSnapshot<T> {
    /// Moves the entry at `path` to `new_path`. It fails with `NotFound`
    /// exactly where there is no entry at `path`; a store may refuse a
    /// target with another error.
    fn rename_entry(&mut self, path: &GfsPath, new_path: &GfsPath) -> (done: GfsResult<()>)
        requires
            old(self).wf(),
        ensures
            final(self).wf(),
            final(self).root_text() == old(self).root_text(),
            done is Ok ==> old(self).namespace().contains_key(
                resolve(old(self).root_text(), path@),
            ) && final(self).namespace() == ns_rename(
                old(self).namespace(),
                resolve(old(self).root_text(), path@),
                resolve(old(self).root_text(), new_path@),
            ),
            done matches Err(error) ==> final(self).namespace() == old(self).namespace() && (error
                == GfsError::NotFound <==> !old(self).namespace().contains_key(
                resolve(old(self).root_text(), path@),
            )),
    ;

    /// Removes the entry at `path` and hands it out. It fails with
    /// `NotFound` exactly where there is no entry at `path`.
    fn drop_entry(&mut self, path: &GfsPath) -> (dropped: GfsResult<GfsFile<T>>)
        requires
            old(self).wf(),
        ensures
            final(self).wf(),
            final(self).root_text() == old(self).root_text(),
            dropped matches Ok(file) ==> Some(file@) == ns_entry(
                old(self).namespace(),
                resolve(old(self).root_text(), path@),
            ) && final(self).namespace() == ns_drop(
                old(self).namespace(),
                resolve(old(self).root_text(), path@),
            ),
            dropped matches Err(error) ==> final(self).namespace() == old(self).namespace() && (
            error == GfsError::NotFound <==> !old(self).namespace().contains_key(
                resolve(old(self).root_text(), path@),
            )),
    ;

    /// Removes the entry at `path`.
    fn remove_entry(&mut self, path: &GfsPath) -> (done: GfsResult<()>)
        requires
            old(self).wf(),
        ensures
            final(self).wf(),
            final(self).root_text() == old(self).root_text(),
            done is Ok ==> old(self).namespace().contains_key(
                resolve(old(self).root_text(), path@),
            ) && final(self).namespace() == ns_drop(
                old(self).namespace(),
                resolve(old(self).root_text(), path@),
            ),
            done matches Err(error) ==> final(self).namespace() == old(self).namespace() && (error
                == GfsError::NotFound <==> !old(self).namespace().contains_key(
                resolve(old(self).root_text(), path@),
            )),
    {
        match self.drop_entry(path) {
            Ok(_) => Ok(()),
            Err(error) => Err(error),
        }
    }

    /// A staging buffer for `path`, seeded with a copy of the entry there,
    /// or with default metadata and no content where there is none. The
    /// store is not touched.
    fn entry_writer(&self, path: &GfsPath) -> (writer: WritableFile<T, Self>)
        requires
            self.wf(),
        ensures
            writer.target() == resolve(self.root_text(), path@),
            self.namespace().contains_key(resolve(self.root_text(), path@)) ==> writer.staged()
                == self.namespace()[resolve(self.root_text(), path@)],
            !self.namespace().contains_key(resolve(self.root_text(), path@)) ==> is_default(
                writer.staged().metadata,
            ) && writer.staged().contents == Seq::<u8>::empty(),
            writer.staged() == ns_seed(
                self.namespace(),
                resolve(self.root_text(), path@),
                writer.staged().metadata,
            ),
    {
        let owned_path = self.create_path(path);
        if let Some(entry) = self.read_entry(path) {
            return WritableFile::from_owned(&owned_path, entry.metadata, entry.to_vec());
        }
        WritableFile::from_owned(&owned_path, T::default(), Vec::new())
    }

    /// Publishes an entry at `path` in place of whatever is there, and
    /// hands out a reference to the stored entry. A store may fail, never with `NotFound`.
    fn insert_entry(&mut self, path: &GfsPath, metadata: T, data: Arc<Vec<u8>>) -> (stored:
        GfsResult<&GfsFile<T>>)
        requires
            old(self).wf(),
        ensures
            final(self).wf(),
            final(self).root_text() == old(self).root_text(),
            stored matches Ok(file) ==> file@ == (FileView { metadata, contents: data@ })
                && final(self).namespace() == ns_insert(
                old(self).namespace(),
                resolve(old(self).root_text(), path@),
                FileView { metadata, contents: data@ },
            ),
            stored matches Err(error) ==> final(self).namespace() == old(self).namespace() && error
                != GfsError::NotFound,
    ;
}

} // verus!
