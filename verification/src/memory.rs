//! A store that keeps its entries in memory, in the order in which their
//! paths first appeared.
use crate::error::{GfsError, GfsResult};
use crate::filesystem::{path_texts, GfsEntryMeta, GfsSnapshot, GFS};
use crate::io::{FileView, GfsFile};
use crate::namespace::{child_toward, children, is_below, is_within, ns_insert};
use crate::path::{
    is_canonical, lemma_normalize_idempotent, normalize, path_segments, resolve, GfsPath,
    OwnedGfsPath,
};
use std::sync::Arc;
use vstd::prelude::*;

verus! {

/// The map that pairs each key with the value at the same index.
spec fn table<T>(keys: Seq<Seq<char>>, values: Seq<FileView<T>>) -> Map<
    Seq<char>,
    FileView<T>,
> {
    Map::new(|key: Seq<char>| keys.contains(key), |key: Seq<char>| values[keys.index_of(key)])
}

/// The children of `dir` that the first `n` keys lead to, each where it
/// first appears.
spec fn listing_upto(keys: Seq<Seq<char>>, dir: Seq<char>, n: nat) -> Seq<Seq<char>>
    decreases n,
{
    if n == 0 || n > keys.len() {
        Seq::empty()
    } else {
        let before = listing_upto(keys, dir, (n - 1) as nat);
        let key = keys[n - 1];
        if is_below(dir, key) && !before.contains(child_toward(dir, key)) {
            before.push(child_toward(dir, key))
        } else {
            before
        }
    }
}

/// The entries that a list of files stands for, in order.
spec fn file_views<T>(files: Seq<GfsFile<T>>) -> Seq<FileView<T>> {
    Seq::new(files.len(), |i: int| files[i]@)
}

proof fn lemma_table_at<T>(keys: Seq<Seq<char>>, values: Seq<FileView<T>>, i: int)
    requires
        keys.no_duplicates(),
        0 <= i < keys.len(),
    ensures
        keys.contains(keys[i]),
        keys.index_of(keys[i]) == i,
        table(keys, values).contains_key(keys[i]),
        table(keys, values)[keys[i]] == values[i],
{
    assert(keys.contains(keys[i]));
    let j = keys.index_of(keys[i]);
    assert(0 <= j < keys.len() && keys[j] == keys[i]);
}

proof fn lemma_table_push<T>(
    keys: Seq<Seq<char>>,
    values: Seq<FileView<T>>,
    key: Seq<char>,
    value: FileView<T>,
)
    requires
        keys.no_duplicates(),
        keys.len() == values.len(),
        !keys.contains(key),
    ensures
        keys.push(key).no_duplicates(),
        table(keys.push(key), values.push(value)) == table(keys, values).insert(key, value),
{
    let keys2 = keys.push(key);
    let values2 = values.push(value);
    assert forall|k: Seq<char>| #[trigger] keys2.contains(k) == (keys.contains(k) || k == key) by {
        if keys.contains(k) {
            let i = keys.index_of(k);
            assert(keys2[i] == k);
        }
        if k == key {
            assert(keys2[keys.len() as int] == k);
        }
    }
    assert forall|k: Seq<char>| keys2.contains(k) implies #[trigger] table(keys2, values2)[k] == (
    if k == key {
        value
    } else {
        table(keys, values)[k]
    }) by {
        if k == key {
            lemma_table_at(keys2, values2, keys.len() as int);
        } else {
            let i = keys.index_of(k);
            assert(keys2[i] == k);
            lemma_table_at(keys2, values2, i);
            lemma_table_at(keys, values, i);
        }
    }
    assert(table(keys2, values2) =~= table(keys, values).insert(key, value));
}

proof fn lemma_table_update<T>(
    keys: Seq<Seq<char>>,
    values: Seq<FileView<T>>,
    i: int,
    value: FileView<T>,
)
    requires
        keys.no_duplicates(),
        keys.len() == values.len(),
        0 <= i < keys.len(),
    ensures
        table(keys, values.update(i, value)) == table(keys, values).insert(keys[i], value),
{
    let values2 = values.update(i, value);
    lemma_table_at(keys, values, i);
    assert forall|k: Seq<char>| keys.contains(k) implies #[trigger] table(keys, values2)[k] == (
    if k == keys[i] {
        value
    } else {
        table(keys, values)[k]
    }) by {
        let j = keys.index_of(k);
        lemma_table_at(keys, values2, j);
        lemma_table_at(keys, values, j);
    }
    assert(table(keys, values2) =~= table(keys, values).insert(keys[i], value));
}

proof fn lemma_table_remove<T>(keys: Seq<Seq<char>>, values: Seq<FileView<T>>, i: int)
    requires
        keys.no_duplicates(),
        keys.len() == values.len(),
        0 <= i < keys.len(),
    ensures
        keys.remove(i).no_duplicates(),
        !keys.remove(i).contains(keys[i]),
        table(keys.remove(i), values.remove(i)) == table(keys, values).remove(keys[i]),
{
    let keys2 = keys.remove(i);
    let values2 = values.remove(i);
    assert forall|a: int, b: int| 0 <= a < keys2.len() && 0 <= b < keys2.len() && a != b implies keys2[a]
        != keys2[b] by {
        let a1 = if a < i { a } else { a + 1 };
        let b1 = if b < i { b } else { b + 1 };
        assert(keys2[a] == keys[a1] && keys2[b] == keys[b1]);
    }
    assert forall|k: Seq<char>| #[trigger] keys2.contains(k) == (keys.contains(k) && k != keys[i]) by {
        if keys2.contains(k) {
            let a = keys2.index_of(k);
            let a1 = if a < i { a } else { a + 1 };
            assert(keys[a1] == k);
        }
        if keys.contains(k) && k != keys[i] {
            let j = keys.index_of(k);
            let j2 = if j < i { j } else { j - 1 };
            assert(keys2[j2] == k);
        }
    }
    assert forall|k: Seq<char>| keys2.contains(k) implies #[trigger] table(keys2, values2)[k]
        == table(keys, values)[k] by {
        let a = keys2.index_of(k);
        let a1 = if a < i { a } else { a + 1 };
        assert(keys[a1] == k);
        lemma_table_at(keys2, values2, a);
        lemma_table_at(keys, values, a1);
    }
    assert(table(keys2, values2) =~= table(keys, values).remove(keys[i]));
}

/// A listing names each child once, and names exactly the children that
/// the keys it has seen lead to.
proof fn lemma_listing_upto(keys: Seq<Seq<char>>, dir: Seq<char>, n: nat)
    requires
        n <= keys.len(),
    ensures
        listing_upto(keys, dir, n).no_duplicates(),
        forall|child: Seq<char>| #[trigger]
            listing_upto(keys, dir, n).contains(child) <==> exists|j: int|
                0 <= j < n && is_below(dir, #[trigger] keys[j]) && child_toward(dir, keys[j])
                    == child,
    decreases n,
{
    if n > 0 {
        lemma_listing_upto(keys, dir, (n - 1) as nat);
        let before = listing_upto(keys, dir, (n - 1) as nat);
        let now = listing_upto(keys, dir, n);
        let key = keys[n - 1];
        let fresh = child_toward(dir, key);
        assert forall|child: Seq<char>| #[trigger]
            now.contains(child) <==> exists|j: int|
                0 <= j < n && is_below(dir, #[trigger] keys[j]) && child_toward(dir, keys[j])
                    == child by {
            if now.contains(child) {
                let a = now.index_of(child);
                if a < before.len() {
                    assert(before[a] == child);
                    assert(before.contains(child));
                    let j = choose|j: int|
                        0 <= j < n - 1 && is_below(dir, #[trigger] keys[j]) && child_toward(
                            dir,
                            keys[j],
                        ) == child;
                    assert(0 <= j < n);
                } else {
                    assert(child == fresh && is_below(dir, keys[n - 1]));
                }
            }
            if exists|j: int|
                0 <= j < n && is_below(dir, #[trigger] keys[j]) && child_toward(dir, keys[j])
                    == child {
                let j = choose|j: int|
                    0 <= j < n && is_below(dir, #[trigger] keys[j]) && child_toward(dir, keys[j])
                        == child;
                if j < n - 1 {
                    assert(before.contains(child));
                    let a = before.index_of(child);
                    assert(now[a] == child);
                } else {
                    if before.contains(child) {
                        let a = before.index_of(child);
                        assert(now[a] == child);
                    } else {
                        assert(now[before.len() as int] == child);
                    }
                }
            }
        }
    }
}

/// A store in memory. Inserting at a path that holds an entry replaces it;
/// renaming onto a path that holds an entry replaces that one.
pub struct MemoryFs<T: GfsEntryMeta> {
    root: OwnedGfsPath<T>,
    paths: Vec<OwnedGfsPath<T>>,
    files: Vec<GfsFile<T>>,
}

/// `Vec::into_boxed_slice`: the slice that comes back holds the elements of
/// the vector, in the same order.
#[verifier::external_body]
fn into_boxed_slice<V>(list: Vec<V>) -> (slice: Box<[V]>)
    ensures
        slice@ == list@,
{
    list.into_boxed_slice()
}

/// An index at which `list` holds the location of `key`, if there is one.
fn position_of<T>(list: &Vec<OwnedGfsPath<T>>, key: &OwnedGfsPath<T>) -> (found: Option<
    usize,
>)
    ensures
        found matches Some(i) ==> i < list@.len() && path_texts(list@)[i as int] == key@,
        found is None ==> !path_texts(list@).contains(key@),
{
    let mut i: usize = 0;
    while i < list.len()
        invariant
            i <= list@.len(),
            forall|j: int| 0 <= j < i ==> path_texts(list@)[j] != key@,
        decreases list@.len() - i,
    {
        if list[i].same_as(key) {
            return Some(i);
        }
        i = i + 1;
    }
    None
}

impl<T: GfsEntryMeta> MemoryFs<T> {
    /// The texts of the paths that hold an entry, oldest first.
    spec fn keys(&self) -> Seq<Seq<char>> {
        path_texts(self.paths@)
    }

    /// The entries, each at the index of its path.
    spec fn values(&self) -> Seq<FileView<T>> {
        file_views(self.files@)
    }

    /// An empty store whose root is the canonical form of `root`.
    pub fn new(root: &str) -> (fs: Self)
        ensures
            fs.wf(),
            fs.root_text() == normalize(root@),
            fs.namespace() == Map::<Seq<char>, FileView<T>>::empty(),
    {
        proof {
            lemma_normalize_idempotent(root@);
        }
        let fs = MemoryFs { root: OwnedGfsPath::new(root), paths: Vec::new(), files: Vec::new() };
        assert(fs.namespace() =~= Map::<Seq<char>, FileView<T>>::empty());
        fs
    }

    /// How many entries the store holds.
    pub fn len(&self) -> (count: usize)
        requires
            self.wf(),
        ensures
            count == self.namespace().dom().len(),
            self.namespace().dom().finite(),
    {
        proof {
            self.keys().unique_seq_to_set();
            assert(self.namespace().dom() =~= self.keys().to_set());
        }
        self.paths.len()
    }

    /// Puts `file` at `key`, in place of the entry there if there is one.
    fn store(&mut self, key: OwnedGfsPath<T>, file: GfsFile<T>) -> (index: usize)
        requires
            old(self).wf(),
            is_canonical(key@),
            is_within(old(self).root_text(), key@),
        ensures
            final(self).wf(),
            final(self).root_text() == old(self).root_text(),
            final(self).namespace() == ns_insert(old(self).namespace(), key@, file@),
            index < final(self).values().len(),
            final(self).values()[index as int] == file@,
    {
        match position_of(&self.paths, &key) {
            Some(i) => {
                proof {
                    lemma_table_update(self.keys(), self.values(), i as int, file@);
                }
                self.files.set(i, file);
                assert(self.values() =~= old(self).values().update(i as int, file@));
                i
            },
            None => {
                proof {
                    lemma_table_push(self.keys(), self.values(), key@, file@);
                }
                self.paths.push(key);
                self.files.push(file);
                assert(self.keys() =~= old(self).keys().push(key@));
                assert(self.values() =~= old(self).values().push(file@));
                self.files.len() - 1
            },
        }
    }

    /// Takes out the entry at `index`.
    fn evict(&mut self, index: usize) -> (file: GfsFile<T>)
        requires
            old(self).wf(),
            index < old(self).keys().len(),
        ensures
            final(self).wf(),
            final(self).root_text() == old(self).root_text(),
            file@ == old(self).namespace()[old(self).keys()[index as int]],
            final(self).namespace() == old(self).namespace().remove(
                old(self).keys()[index as int],
            ),
    {
        proof {
            lemma_table_remove(self.keys(), self.values(), index as int);
            lemma_table_at(self.keys(), self.values(), index as int);
        }
        self.paths.remove(index);
        let file = self.files.remove(index);
        assert(self.keys() =~= old(self).keys().remove(index as int));
        assert(self.values() =~= old(self).values().remove(index as int));
        assert forall|i: int| 0 <= i < self.paths@.len() implies is_canonical(
            #[trigger] path_texts(self.paths@)[i],
        ) && is_within(self.root@, path_texts(self.paths@)[i]) by {
            let before = if i < index { i } else { i + 1 };
            assert(self.keys()[i] == old(self).keys()[before]);
        }
        file
    }
}

impl<T: GfsEntryMeta> GfsSnapshot<T> for MemoryFs<T> {
    closed spec fn wf(&self) -> bool {
        &&& self.paths@.len() == self.files@.len()
        &&& path_texts(self.paths@).no_duplicates()
        &&& is_canonical(self.root@)
        &&& forall|i: int|
            0 <= i < self.paths@.len() ==> is_canonical(#[trigger] path_texts(self.paths@)[i])
                && is_within(self.root@, path_texts(self.paths@)[i])
    }

    closed spec fn root_text(&self) -> Seq<char> {
        self.root@
    }

    closed spec fn namespace(&self) -> Map<Seq<char>, FileView<T>> {
        table(path_texts(self.paths@), file_views(self.files@))
    }

    closed spec fn listing(&self, dir: Seq<char>) -> Seq<Seq<char>> {
        listing_upto(path_texts(self.paths@), dir, self.paths@.len())
    }

    proof fn lemma_entries_below_root(&self) {
        let keys = path_texts(self.paths@);
        assert forall|key: Seq<char>| #[trigger]
            self.namespace().contains_key(key) implies is_canonical(key) && is_within(
            self.root_text(),
            key,
        ) by {
            let i = keys.index_of(key);
            assert(keys[i] == key);
        }
    }

    fn root(&self) -> (root: &OwnedGfsPath<T>) {
        &self.root
    }

    fn normalize_path(&self, path: String) -> (text: String) {
        crate::path::normalize_path(path.as_str())
    }

    fn read_meta(&self, path: &GfsPath) -> (metadata: Option<T>) {
        let key = self.create_path(path);
        match position_of(&self.paths, &key) {
            Some(i) => {
                proof {
                    lemma_table_at(self.keys(), self.values(), i as int);
                }
                Some(self.files[i].metadata)
            },
            None => None,
        }
    }

    fn read_data(&self, path: &GfsPath) -> (data: Option<Arc<Vec<u8>>>) {
        let key = self.create_path(path);
        match position_of(&self.paths, &key) {
            Some(i) => {
                proof {
                    lemma_table_at(self.keys(), self.values(), i as int);
                }
                Some(self.files[i].clone().contents)
            },
            None => None,
        }
    }

    fn read_dir(&self, path: &str) -> (list: Box<[OwnedGfsPath<T>]>) {
        let dir = OwnedGfsPath::<T>::new(path);
        let depth = dir.depth();
        let ghost keys = self.keys();
        let mut list: Vec<OwnedGfsPath<T>> = Vec::new();
        let mut i: usize = 0;
        assert(path_texts(list@) =~= listing_upto(keys, dir@, 0));
        while i < self.paths.len()
            invariant
                i <= self.paths@.len(),
                keys == path_texts(self.paths@),
                depth == path_segments(dir@).len(),
                path_texts(list@) == listing_upto(keys, dir@, i as nat),
            decreases self.paths@.len() - i,
        {
            let key = &self.paths[i];
            assert(keys[i as int] == key@);
            if key.depth() > depth && key.starts_with(&dir) {
                let child = key.ancestor(depth + 1);
                assert(child@ == child_toward(dir@, key@));
                if position_of(&list, &child).is_none() {
                    let ghost before = path_texts(list@);
                    list.push(child);
                    assert(path_texts(list@) =~= before.push(child@));
                }
            }
            i = i + 1;
        }
        proof {
            lemma_listing_upto(keys, dir@, keys.len());
            let texts = path_texts(list@);
            let ns = self.namespace();
            assert forall|child: Seq<char>| texts.to_set().contains(child) == children(
                ns,
                dir@,
            ).contains(child) by {
                if texts.contains(child) {
                    let j = choose|j: int|
                        0 <= j < keys.len() && is_below(dir@, #[trigger] keys[j]) && child_toward(
                            dir@,
                            keys[j],
                        ) == child;
                    assert(keys.contains(keys[j]));
                    assert(ns.contains_key(keys[j]));
                }
                if children(ns, dir@).contains(child) {
                    let key = choose|key: Seq<char>|
                        ns.contains_key(key) && is_below(dir@, key) && child_toward(dir@, key)
                            == child;
                    let j = keys.index_of(key);
                    assert(0 <= j < keys.len() && keys[j] == key);
                }
            }
            assert(texts.to_set() =~= children(ns, dir@));
        }
        into_boxed_slice(list)
    }
}

impl<T: GfsEntryMeta> GFS<T> for MemoryFs<T> {
    /// An entry at `new_path` is replaced. The rename succeeds wherever
    /// there is an entry at `path`.
    fn rename_entry(&mut self, path: &GfsPath, new_path: &GfsPath) -> (done: GfsResult<()>)
        ensures
            done is Ok == old(self).namespace().contains_key(
                resolve(old(self).root_text(), path@),
            ),
    {
        let from = self.create_path(path);
        let to = self.create_path(new_path);
        match position_of(&self.paths, &from) {
            None => Err(GfsError::NotFound),
            Some(i) => {
                proof {
                    lemma_table_at(self.keys(), self.values(), i as int);
                }
                let file = self.evict(i);
                let _ = self.store(to, file);
                Ok(())
            },
        }
    }

    /// The drop succeeds wherever there is an entry at `path`.
    fn drop_entry(&mut self, path: &GfsPath) -> (dropped: GfsResult<GfsFile<T>>)
        ensures
            dropped is Ok == old(self).namespace().contains_key(
                resolve(old(self).root_text(), path@),
            ),
    {
        let key = self.create_path(path);
        match position_of(&self.paths, &key) {
            None => Err(GfsError::NotFound),
            Some(i) => {
                proof {
                    lemma_table_at(self.keys(), self.values(), i as int);
                }
                Ok(self.evict(i))
            },
        }
    }

    /// The insert always succeeds.
    fn insert_entry(&mut self, path: &GfsPath, metadata: T, data: Arc<Vec<u8>>) -> (stored:
        GfsResult<&GfsFile<T>>)
        ensures
            stored is Ok,
    {
        let key = self.create_path(path);
        let index = self.store(key, GfsFile::create(metadata, data));
        Ok(&self.files[index])
    }
}

} // verus!
