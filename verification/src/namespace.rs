//! The namespace of a store as a map from canonical path texts to entries,
//! what each operation does to it, and what follows.
use crate::io::FileView;
use crate::path::{
    all_real, is_canonical, is_real_segment, lemma_segments_of_render, lemma_segments_real,
    path_segments, render_path,
};
use vstd::prelude::*;

verus! {

pub open spec fn ns_entry<T>(ns: Map<Seq<char>, FileView<T>>, key: Seq<char>) -> Option<
    FileView<T>,
> {
    if ns.contains_key(key) {
        Some(ns[key])
    } else {
        None
    }
}

pub open spec fn ns_meta<T>(ns: Map<Seq<char>, FileView<T>>, key: Seq<char>) -> Option<T> {
    if ns.contains_key(key) {
        Some(ns[key].metadata)
    } else {
        None
    }
}

pub open spec fn ns_data<T>(ns: Map<Seq<char>, FileView<T>>, key: Seq<char>) -> Option<Seq<u8>> {
    if ns.contains_key(key) {
        Some(ns[key].contents)
    } else {
        None
    }
}

/// Publishing `file` at `key` replaces whatever was there.
pub open spec fn ns_insert<T>(
    ns: Map<Seq<char>, FileView<T>>,
    key: Seq<char>,
    file: FileView<T>,
) -> Map<Seq<char>, FileView<T>> {
    ns.insert(key, file)
}

pub open spec fn ns_drop<T>(ns: Map<Seq<char>, FileView<T>>, key: Seq<char>) -> Map<
    Seq<char>,
    FileView<T>,
> {
    ns.remove(key)
}

/// Moving the entry at `from` to `to` replaces whatever was at `to`.
pub open spec fn ns_rename<T>(
    ns: Map<Seq<char>, FileView<T>>,
    from: Seq<char>,
    to: Seq<char>,
) -> Map<Seq<char>, FileView<T>> {
    ns.remove(from).insert(to, ns[from])
}

/// What a staging buffer for `key` starts with: the entry there, or `fresh`
/// metadata and no content.
pub open spec fn ns_seed<T>(ns: Map<Seq<char>, FileView<T>>, key: Seq<char>, fresh: T) -> FileView<
    T,
> {
    if ns.contains_key(key) {
        ns[key]
    } else {
        FileView { metadata: fresh, contents: Seq::empty() }
    }
}

/// `key` lies at `dir` or below it.
pub open spec fn is_within(dir: Seq<char>, key: Seq<char>) -> bool {
    path_segments(dir).is_prefix_of(path_segments(key))
}

/// `key` lies strictly below `dir`.
pub open spec fn is_below(dir: Seq<char>, key: Seq<char>) -> bool {
    path_segments(dir).len() < path_segments(key).len() && is_within(dir, key)
}

/// The immediate child of `dir` on the way down to `key`.
pub open spec fn child_toward(dir: Seq<char>, key: Seq<char>) -> Seq<char> {
    render_path(path_segments(key).take(path_segments(dir).len() as int + 1))
}

/// The immediate children of `dir`: each is an entry below `dir` or a
/// directory that leads to one.
pub open spec fn children<T>(ns: Map<Seq<char>, FileView<T>>, dir: Seq<char>) -> Set<Seq<char>> {
    Set::new(
        |child: Seq<char>|
            exists|key: Seq<char>|
                ns.contains_key(key) && is_below(dir, key) && child_toward(dir, key) == child,
    )
}

/// A child on the way to `key` has `key` at or below it.
pub proof fn lemma_child_leads_to_key(dir: Seq<char>, key: Seq<char>)
    requires
        is_below(dir, key),
    ensures
        is_within(child_toward(dir, key), key),
        is_below(dir, child_toward(dir, key)),
        path_segments(child_toward(dir, key)) == path_segments(key).take(
            path_segments(dir).len() as int + 1,
        ),
        is_canonical(child_toward(dir, key)),
{
    let k = path_segments(key);
    let d = path_segments(dir);
    let c = k.take(d.len() as int + 1);
    lemma_segments_real(key);
    assert(all_real(c)) by {
        assert forall|i: int| 0 <= i < c.len() implies is_real_segment(#[trigger] c[i]) by {
            assert(c[i] == k[i]);
        }
    }
    lemma_segments_of_render(c);
    assert(c =~= k.subrange(0, c.len() as int));
    assert(d =~= c.subrange(0, d.len() as int));
}

/// What a directory lists is canonical, lies one segment below the
/// directory, and has an entry at it or below it.
pub proof fn lemma_children_are_immediate<T>(
    ns: Map<Seq<char>, FileView<T>>,
    dir: Seq<char>,
    child: Seq<char>,
)
    requires
        children(ns, dir).contains(child),
    ensures
        is_canonical(child),
        is_below(dir, child),
        path_segments(child).len() == path_segments(dir).len() + 1,
        exists|key: Seq<char>| ns.contains_key(key) && is_within(child, key),
{
    let key = choose|key: Seq<char>|
        ns.contains_key(key) && is_below(dir, key) && child_toward(dir, key) == child;
    lemma_child_leads_to_key(dir, key);
    assert(ns.contains_key(key) && is_within(child, key));
}

/// Every entry below a directory has the child that leads to it listed; an
/// entry one segment below the directory is listed itself.
pub proof fn lemma_entry_is_listed<T>(
    ns: Map<Seq<char>, FileView<T>>,
    dir: Seq<char>,
    key: Seq<char>,
)
    requires
        ns.contains_key(key),
        is_below(dir, key),
    ensures
        children(ns, dir).contains(child_toward(dir, key)),
        is_canonical(key) && path_segments(key).len() == path_segments(dir).len() + 1
            ==> children(ns, dir).contains(key),
{
    let k = path_segments(key);
    if k.len() == path_segments(dir).len() + 1 {
        assert(k.take(k.len() as int) =~= k);
    }
}

/// Where nothing is stored at a path or below it, reads find nothing there
/// and no directory lists it.
pub proof fn lemma_absent_is_unseen<T>(ns: Map<Seq<char>, FileView<T>>, path: Seq<char>)
    requires
        forall|key: Seq<char>| ns.contains_key(key) ==> !is_within(path, key),
    ensures
        ns_meta(ns, path) is None,
        ns_data(ns, path) is None,
        ns_entry(ns, path) is None,
        forall|dir: Seq<char>| !children(ns, dir).contains(path),
{
    assert(is_within(path, path)) by {
        let p = path_segments(path);
        assert(p =~= p.subrange(0, p.len() as int));
    }
    assert forall|dir: Seq<char>| !children(ns, dir).contains(path) by {
        if children(ns, dir).contains(path) {
            let key = choose|key: Seq<char>|
                ns.contains_key(key) && is_below(dir, key) && child_toward(dir, key) == path;
            lemma_child_leads_to_key(dir, key);
        }
    }
}

/// A path has metadata exactly where it has content, and then it has an
/// entry made of the two.
pub proof fn lemma_meta_and_data_agree<T>(ns: Map<Seq<char>, FileView<T>>, path: Seq<char>)
    ensures
        ns_meta(ns, path) is Some <==> ns_data(ns, path) is Some,
        ns_entry(ns, path) is Some <==> ns_meta(ns, path) is Some,
        ns_entry(ns, path) matches Some(file) ==> ns_meta(ns, path) == Some(file.metadata)
            && ns_data(ns, path) == Some(file.contents),
{
}

/// After an insert the path reads as what was inserted, and every other
/// path reads as before.
pub proof fn lemma_insert_then_read<T>(
    ns: Map<Seq<char>, FileView<T>>,
    path: Seq<char>,
    file: FileView<T>,
)
    ensures
        ns_meta(ns_insert(ns, path, file), path) == Some(file.metadata),
        ns_data(ns_insert(ns, path, file), path) == Some(file.contents),
        ns_entry(ns_insert(ns, path, file), path) == Some(file),
        forall|other: Seq<char>|
            other != path ==> ns_entry(ns_insert(ns, path, file), other) == ns_entry(ns, other),
{
}

/// After a drop the path reads as absent, and every other path reads as
/// before.
pub proof fn lemma_drop_then_read<T>(ns: Map<Seq<char>, FileView<T>>, path: Seq<char>)
    ensures
        ns_meta(ns_drop(ns, path), path) is None,
        ns_data(ns_drop(ns, path), path) is None,
        ns_entry(ns_drop(ns, path), path) is None,
        forall|other: Seq<char>|
            other != path ==> ns_entry(ns_drop(ns, path), other) == ns_entry(ns, other),
{
}

/// After a rename the entry reads at the new path as it did at the old one,
/// the old path reads as absent, and every third path reads as before.
pub proof fn lemma_rename_then_read<T>(
    ns: Map<Seq<char>, FileView<T>>,
    from: Seq<char>,
    to: Seq<char>,
)
    requires
        ns.contains_key(from),
    ensures
        ns_entry(ns_rename(ns, from, to), to) == ns_entry(ns, from),
        from != to ==> ns_entry(ns_rename(ns, from, to), from) is None,
        from == to ==> ns_rename(ns, from, to) == ns,
        forall|other: Seq<char>|
            other != from && other != to ==> ns_entry(ns_rename(ns, from, to), other) == ns_entry(
                ns,
                other,
            ),
{
    if from == to {
        assert(ns_rename(ns, from, to) =~= ns);
    }
}

/// A staging buffer that is inserted as it was seeded gives back the
/// namespace it was seeded from where the entry existed, and otherwise adds
/// an entry with the fresh metadata and no content.
pub proof fn lemma_seed_round_trip<T>(ns: Map<Seq<char>, FileView<T>>, path: Seq<char>, fresh: T)
    ensures
        ns.contains_key(path) ==> ns_insert(ns, path, ns_seed(ns, path, fresh)) == ns,
        !ns.contains_key(path) ==> ns_seed(ns, path, fresh) == (FileView {
            metadata: fresh,
            contents: Seq::<u8>::empty(),
        }),
        ns_entry(ns_insert(ns, path, ns_seed(ns, path, fresh)), path) == Some(
            ns_seed(ns, path, fresh),
        ),
{
    if ns.contains_key(path) {
        assert(ns_insert(ns, path, ns_seed(ns, path, fresh)) =~= ns);
    }
}

} // verus!
