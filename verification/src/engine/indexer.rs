//! Choosing the files to index, and numbering the indexed images.
use vstd::prelude::*;

use super::preprocessor::{is_image_path, is_supported_image};
use crate::key_index::{keys_view, KeyIndex};
use crate::paths::{key_view, path_key, path_key_of, same_path};

verus! {

/// An indexed image: its path and the bit patterns of its embedding's `f32`
/// components.
pub struct IndexedImage {
    pub path: String,
    pub embedding: Vec<u32>,
}

/// The views of a list of strings.
pub open spec fn views(s: Seq<String>) -> Seq<Seq<char>> {
    s.map_values(|p: String| p@)
}

/// `p` names the same path as some entry of `paths`.
pub open spec fn listed(paths: Seq<Seq<char>>, p: Seq<char>) -> bool {
    exists|j: int| 0 <= j < paths.len() && same_path(#[trigger] paths[j], p)
}

/// The paths of `paths` that `done` does not list, in order.
pub open spec fn unindexed(paths: Seq<Seq<char>>, done: Seq<Seq<char>>) -> Seq<Seq<char>> {
    paths.filter(|p: Seq<char>| !listed(done, p))
}

/// The paths left to index are the paths that are not already indexed: none
/// of them is listed, and each unlisted path is among them.
pub proof fn lemma_unindexed_exact(paths: Seq<Seq<char>>, done: Seq<Seq<char>>)
    ensures
        forall|i: int|
            0 <= i < unindexed(paths, done).len() ==> !listed(done, #[trigger] unindexed(paths, done)[i]),
        forall|i: int|
            0 <= i < paths.len() && !listed(done, #[trigger] paths[i]) ==> unindexed(
                paths,
                done,
            ).contains(paths[i]),
{
    let pred = |p: Seq<char>| !listed(done, p);
    assert forall|i: int| 0 <= i < unindexed(paths, done).len() implies !listed(
        done,
        #[trigger] unindexed(paths, done)[i],
    ) by {
        paths.lemma_filter_pred(pred, i);
    }
    assert forall|i: int| 0 <= i < paths.len() && !listed(done, #[trigger] paths[i]) implies unindexed(
        paths,
        done,
    ).contains(paths[i]) by {
        paths.lemma_filter_contains(pred, i);
    }
}

/// The files among `files` that have a supported image extension, in order.
pub fn image_files(files: Vec<String>) -> (r: Vec<String>)
    ensures
        views(r@) == views(files@).filter(|p: Seq<char>| is_image_path(p)),
{
    let ghost fs = views(files@);
    let ghost pred = |p: Seq<char>| is_image_path(p);
    let mut r: Vec<String> = Vec::new();
    proof {
        reveal(Seq::filter);
        assert(fs.take(0) =~= Seq::<Seq<char>>::empty());
        assert(views(r@) =~= fs.take(0).filter(pred));
    }
    for f in it: files.into_iter()
        invariant
            it.seq() == files@,
            fs == views(files@),
            pred == (|p: Seq<char>| is_image_path(p)),
            views(r@) == fs.take(it.index() as int).filter(pred),
    {
        let ghost idx = it.index() as int;
        let ghost before = r@;
        let ghost fv = f@;
        proof {
            reveal(Seq::filter);
            assert(fs.take(idx + 1).drop_last() =~= fs.take(idx));
            assert(fs.take(idx + 1).last() == fv);
        }
        if is_supported_image(f.as_str()) {
            r.push(f);
            assert(views(r@) =~= views(before).push(fv));
        }
    }
    assert(fs.take(fs.len() as int) =~= fs);
    r
}

/// The keys of `paths`, in order.
fn keys_of(paths: &Vec<String>) -> (r: Vec<Vec<Vec<char>>>)
    ensures
        r@.len() == paths@.len(),
        forall|j: int| 0 <= j < r@.len() ==> key_view(#[trigger] r@[j]@) == path_key(paths@[j]@),
{
    let n = paths.len();
    let mut r: Vec<Vec<Vec<char>>> = Vec::new();
    let mut i: usize = 0;
    while i < n
        invariant
            0 <= i <= n,
            n == paths@.len(),
            r@.len() == i,
            forall|j: int| 0 <= j < i ==> key_view(#[trigger] r@[j]@) == path_key(paths@[j]@),
        decreases n - i,
    {
        r.push(path_key_of(paths[i].as_str()));
        i = i + 1;
    }
    r
}

/// The paths of `image_paths` that are not already indexed, in order.
pub fn unindexed_paths(image_paths: &Vec<String>, already_indexed: &Vec<String>) -> (r: Vec<
    String,
>)
    ensures
        views(r@) == unindexed(views(image_paths@), views(already_indexed@)),
{
    let ghost ps = views(image_paths@);
    let ghost done = views(already_indexed@);
    let ghost pred = |p: Seq<char>| !listed(done, p);
    let mut r: Vec<String> = Vec::new();
    proof {
        reveal(Seq::filter);
        assert(ps.take(0) =~= Seq::<Seq<char>>::empty());
        assert(views(r@) =~= ps.take(0).filter(pred));
    }
    let done_keys = keys_of(already_indexed);
    let done_index = KeyIndex::of_keys(&done_keys);
    let n = image_paths.len();
    let mut i: usize = 0;
    while i < n
        invariant
            0 <= i <= n,
            n == image_paths@.len(),
            ps == views(image_paths@),
            done_keys@.len() == already_indexed@.len(),
            done_index.indexes(keys_view(done_keys@)),
            forall|j: int|
                0 <= j < done_keys@.len() ==> key_view(#[trigger] done_keys@[j]@) == path_key(
                    already_indexed@[j]@,
                ),
            done == views(already_indexed@),
            pred == (|p: Seq<char>| !listed(done, p)),
            views(r@) == ps.take(i as int).filter(pred),
        decreases n - i,
    {
        let p = &image_paths[i];
        let ghost before = r@;
        proof {
            reveal(Seq::filter);
            assert(ps.take(i + 1).drop_last() =~= ps.take(i as int));
            assert(ps.take(i + 1).last() == p@);
        }
        let key = path_key_of(p.as_str());
        let found = done_index.holds(&done_keys, &key);
        assert(found == listed(done, p@)) by {
            if found {
                let j = choose|j: int|
                    0 <= j < done_keys@.len() && key_view(#[trigger] done_keys@[j]@) == key_view(
                        key@,
                    );
                assert(same_path(done[j], p@));
            }
            if listed(done, p@) {
                let j = choose|j: int| 0 <= j < done.len() && same_path(#[trigger] done[j], p@);
                assert(key_view(done_keys@[j]@) == key_view(key@));
            }
        }
        if !found {
            r.push(p.clone());
            assert(views(r@) =~= views(before).push(p@));
        }
        i = i + 1;
    }
    assert(ps.take(n as int) =~= ps);
    r
}

/// The indexed images numbered from `first_id` on, in order, each as its
/// id, path and embedding.
pub fn number_images(first_id: usize, images: Vec<IndexedImage>) -> (r: Vec<(usize, String, Vec<u32>)>)
    requires
        first_id + images@.len() <= usize::MAX,
    ensures
        r@.len() == images@.len(),
        forall|k: int|
            0 <= k < r@.len() ==> (#[trigger] r@[k]).0 == first_id + k && r@[k].1@ == images@[k].path@
                && r@[k].2@ == images@[k].embedding@,
{
    let mut r: Vec<(usize, String, Vec<u32>)> = Vec::new();
    let mut next_id = first_id;
    let ghost all = images@;
    for item in it: images.into_iter()
        invariant
            it.seq() == all,
            first_id + all.len() <= usize::MAX,
            r@.len() == it.index(),
            next_id == first_id + it.index(),
            forall|k: int|
                0 <= k < r@.len() ==> (#[trigger] r@[k]).0 == first_id + k && r@[k].1@
                    == all[k].path@ && r@[k].2@ == all[k].embedding@,
    {
        r.push((next_id, item.path, item.embedding));
        next_id = next_id + 1;
    }
    r
}

} // verus!
