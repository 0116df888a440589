//! The index of images: which file path each image id names, the reverse
//! lookup from a path to its id, and the folders that have been indexed.
use vstd::prelude::*;

use std::collections::HashMap;

use super::assoc::{
    assoc_map, has_key, keys_unique, lemma_assoc_contains, lemma_assoc_len, lemma_assoc_take_step,
    lemma_assoc_update, lemma_assoc_value, lemma_unique_push,
};
use crate::key_index::{keys_view, KeyIndex};
use crate::paths::{
    key_has_prefix, key_prefix, key_view, keys_equal, path_key, path_key_of,
    path_starts_with, same_path, PathKey,
};

verus! {

broadcast use vstd::std_specs::hash::group_hash_axioms;

/// An image id and the path it names, with the path's key.
struct IdEntry {
    id: usize,
    path: String,
    key: Vec<Vec<char>>,
}

/// A path (by its key), the spelling it was first stored under, and its id.
struct PathEntry {
    key: Vec<Vec<char>>,
    path: String,
    id: usize,
}

spec fn id_of() -> spec_fn(IdEntry) -> usize {
    |e: IdEntry| e.id
}

spec fn path_of() -> spec_fn(IdEntry) -> Seq<char> {
    |e: IdEntry| e.path@
}

spec fn key_of() -> spec_fn(PathEntry) -> PathKey {
    |e: PathEntry| key_view(e.key@)
}

spec fn target_of() -> spec_fn(PathEntry) -> (Seq<char>, usize) {
    |e: PathEntry| (e.path@, e.id)
}

/// The keys of the entries of `s`, in order.
spec fn path_keys(s: Seq<PathEntry>) -> Seq<PathKey> {
    s.map_values(|e: PathEntry| key_view(e.key@))
}

/// `pos` maps each id of `s` to the position of its entry.
spec fn positions_of(pos: Map<usize, usize>, s: Seq<IdEntry>) -> bool {
    &&& forall|id: usize| #[trigger]
        pos.contains_key(id) ==> pos[id] < s.len() && s[pos[id] as int].id == id
    &&& forall|i: int| 0 <= i < s.len() ==> pos.contains_key((#[trigger] s[i]).id)
}

/// The position of each entry of `entries`, by its id.
fn positions(entries: &Vec<IdEntry>) -> (r: HashMap<usize, usize>)
    requires
        keys_unique(entries@, id_of()),
    ensures
        positions_of(r@, entries@),
{
    let ghost s = entries@;
    let n = entries.len();
    let mut r: HashMap<usize, usize> = HashMap::new();
    let mut i: usize = 0;
    while i < n
        invariant
            0 <= i <= n,
            n == s.len(),
            s == entries@,
            keys_unique(s, id_of()),
            forall|id: usize| #[trigger]
                r@.contains_key(id) ==> r@[id] < i && s[r@[id] as int].id == id,
            forall|j: int| 0 <= j < i ==> r@.contains_key((#[trigger] s[j]).id),
        decreases n - i,
    {
        let ghost before = r@;
        let id = entries[i].id;
        r.insert(id, i);
        assert forall|id2: usize| #[trigger]
            r@.contains_key(id2) implies r@[id2] < i + 1 && s[r@[id2] as int].id == id2 by {
            if id2 != id {
                assert(before.contains_key(id2));
            }
        }
        assert forall|j: int| 0 <= j < i + 1 implies r@.contains_key((#[trigger] s[j]).id) by {
            if j < i {
                assert(before.contains_key(s[j].id));
            }
        }
        i = i + 1;
    }
    r
}

/// The key index of the entries of `entries`.
fn key_index_of(entries: &Vec<PathEntry>) -> (r: KeyIndex)
    ensures
        r.indexes(path_keys(entries@)),
{
    let ghost ks = path_keys(entries@);
    let n = entries.len();
    let mut r = KeyIndex::new();
    let mut i: usize = 0;
    assert(ks.take(0) =~= Seq::<PathKey>::empty());
    while i < n
        invariant
            0 <= i <= n,
            n == entries@.len(),
            ks == path_keys(entries@),
            r.indexes(ks.take(i as int)),
        decreases n - i,
    {
        r.add(Ghost(ks.take(i as int)), &entries[i].key, i);
        assert(ks.take(i as int).push(key_view(entries@[i as int].key@)) =~= ks.take(i + 1));
        i = i + 1;
    }
    assert(ks.take(n as int) =~= ks);
    r
}

/// The images of `ids` whose path lies under `folder`.
pub open spec fn images_under(ids: Map<usize, Seq<char>>, folder: Seq<char>) -> Set<usize> {
    ids.dom().filter(|id: usize| path_starts_with(ids[id], folder))
}

/// `ids` without the images that lie under `folder`.
pub open spec fn ids_outside(ids: Map<usize, Seq<char>>, folder: Seq<char>) -> Map<
    usize,
    Seq<char>,
> {
    Map::new(|id: usize| ids.contains_key(id) && !path_starts_with(ids[id], folder), |id: usize| ids[id])
}

/// The keys of the paths of the images of `ids` that lie under `folder`.
pub open spec fn keys_under(ids: Map<usize, Seq<char>>, folder: Seq<char>) -> Set<PathKey> {
    Set::new(
        |k: PathKey|
            exists|id: usize|
                #![trigger ids[id]]
                ids.contains_key(id) && path_starts_with(ids[id], folder) && path_key(ids[id]) == k,
    )
}

/// The reverse lookup after storing `id` for `path`: a path that is already
/// there keeps the spelling it was first stored under.
pub open spec fn store_path(
    paths: Map<PathKey, (Seq<char>, usize)>,
    path: Seq<char>,
    id: usize,
) -> Map<PathKey, (Seq<char>, usize)> {
    let k = path_key(path);
    if paths.contains_key(k) {
        paths.insert(k, (paths[k].0, id))
    } else {
        paths.insert(k, (path, id))
    }
}

/// The reverse lookup built by storing the pairs of `s` in order.
pub open spec fn paths_of_pairs(s: Seq<(Seq<char>, usize)>) -> Map<PathKey, (Seq<char>, usize)>
    decreases s.len(),
{
    if s.len() == 0 {
        Map::empty()
    } else {
        store_path(paths_of_pairs(s.drop_last()), s.last().0, s.last().1)
    }
}

/// The id map built by storing the pairs of `s` in order.
pub open spec fn ids_of_pairs(s: Seq<(usize, Seq<char>)>) -> Map<usize, Seq<char>> {
    assoc_map(s, |e: (usize, Seq<char>)| e.0, |e: (usize, Seq<char>)| e.1)
}

/// Adding a new image to `m0` adds it to the images under `folder` exactly
/// when its path lies under `folder`.
proof fn lemma_under_step(m0: Map<usize, Seq<char>>, id: usize, p: Seq<char>, folder: Seq<char>)
    requires
        !m0.contains_key(id),
        images_under(m0, folder).finite(),
    ensures
        images_under(m0.insert(id, p), folder).finite(),
        images_under(m0.insert(id, p), folder).len() == images_under(m0, folder).len() + if path_starts_with(p, folder) {
            1int
        } else {
            0int
        },
{
    let m1 = m0.insert(id, p);
    if path_starts_with(p, folder) {
        assert(images_under(m1, folder) =~= images_under(m0, folder).insert(id));
    } else {
        assert(images_under(m1, folder) =~= images_under(m0, folder));
    }
}

/// `r` lists each path of `paths` once, in the spelling it was stored
/// under.
pub open spec fn lists_paths(r: Seq<Seq<char>>, paths: Map<PathKey, (Seq<char>, usize)>) -> bool {
    &&& r.len() == paths.len()
    &&& forall|i: int|
        0 <= i < r.len() ==> paths.contains_key(path_key(#[trigger] r[i])) && paths[path_key(
            r[i],
        )].0 == r[i]
    &&& forall|i: int, j: int|
        0 <= i < r.len() && 0 <= j < r.len() && i != j ==> path_key(#[trigger] r[i]) != path_key(
            #[trigger] r[j],
        )
    &&& forall|k: PathKey| #[trigger]
        paths.contains_key(k) ==> exists|i: int| 0 <= i < r.len() && path_key(#[trigger] r[i]) == k
}

/// The folder list after adding `folder`: unchanged when the same folder is
/// listed, else with `folder` at the end.
pub open spec fn folder_added(folders: Seq<Seq<char>>, folder: Seq<char>) -> Seq<Seq<char>> {
    if exists|i: int| 0 <= i < folders.len() && same_path(#[trigger] folders[i], folder) {
        folders
    } else {
        folders.push(folder)
    }
}

/// The index of images.
pub struct ImageMetadata {
    id_to_path: Vec<IdEntry>,
    /// The position in `id_to_path` of each id.
    id_pos: HashMap<usize, usize>,
    path_to_id: Vec<PathEntry>,
    /// The positions in `path_to_id`, by the hash of their key.
    path_pos: KeyIndex,
    indexed_folders: Vec<String>,
}

impl ImageMetadata {
    /// Image id → file path.
    pub closed spec fn ids(&self) -> Map<usize, Seq<char>> {
        assoc_map(self.id_to_path@, id_of(), path_of())
    }

    /// Path key → (the spelling the path was stored under, its image id).
    pub closed spec fn paths(&self) -> Map<PathKey, (Seq<char>, usize)> {
        assoc_map(self.path_to_id@, key_of(), target_of())
    }

    /// The indexed folders, in the order they were added.
    pub closed spec fn folders(&self) -> Seq<Seq<char>> {
        self.indexed_folders@.map_values(|f: String| f@)
    }

    /// Each id and each path occurs once, each stored key is the key of its
    /// path, and the lookups by id and by key find the entries.
    pub closed spec fn wf(&self) -> bool {
        &&& positions_of(self.id_pos@, self.id_to_path@)
        &&& self.path_pos.indexes(path_keys(self.path_to_id@))
        &&& keys_unique(self.id_to_path@, id_of())
        &&& keys_unique(self.path_to_id@, key_of())
        &&& forall|i: int|
            0 <= i < self.id_to_path@.len() ==> key_view(#[trigger] self.id_to_path@[i].key@)
                == path_key(self.id_to_path@[i].path@)
        &&& forall|i: int|
            0 <= i < self.path_to_id@.len() ==> key_view(#[trigger] self.path_to_id@[i].key@)
                == path_key(self.path_to_id@[i].path@)
    }

    /// What every well-formed index satisfies: both maps are finite, and each
    /// path is stored under its own key.
    pub proof fn lemma_wf_model(&self)
        requires
            self.wf(),
        ensures
            self.ids().dom().finite(),
            self.paths().dom().finite(),
            forall|k: PathKey| #[trigger]
                self.paths().contains_key(k) ==> path_key(self.paths()[k].0) == k,
    {
        lemma_assoc_len(self.id_to_path@, id_of(), path_of());
        lemma_assoc_len(self.path_to_id@, key_of(), target_of());
        assert forall|k: PathKey| #[trigger] self.paths().contains_key(k) implies path_key(
            self.paths()[k].0,
        ) == k by {
            lemma_assoc_contains(self.path_to_id@, key_of(), target_of(), k);
            let i = choose|i: int|
                0 <= i < self.path_to_id@.len() && key_of()(#[trigger] self.path_to_id@[i]) == k;
            lemma_assoc_value(self.path_to_id@, key_of(), target_of(), i);
        }
    }

    /// An empty index.
    pub fn new() -> (m: Self)
        ensures
            m.wf(),
            m.ids() == Map::<usize, Seq<char>>::empty(),
            m.paths() == Map::<PathKey, (Seq<char>, usize)>::empty(),
            m.folders() == Seq::<Seq<char>>::empty(),
    {
        let m = ImageMetadata {
            id_to_path: Vec::new(),
            id_pos: HashMap::new(),
            path_to_id: Vec::new(),
            path_pos: KeyIndex::new(),
            indexed_folders: Vec::new(),
        };
        assert(path_keys(m.path_to_id@) =~= Seq::<PathKey>::empty());
        assert(m.folders() =~= Seq::<Seq<char>>::empty());
        m
    }

    /// The position of the entry for `id`.
    fn find_id(&self, id: usize) -> (r: Option<usize>)
        requires
            self.wf(),
        ensures
            match r {
                Some(i) => i < self.id_to_path@.len() && self.id_to_path@[i as int].id == id,
                None => !self.ids().contains_key(id),
            },
    {
        match self.id_pos.get(&id) {
            Some(p) => Some(*p),
            None => {
                proof {
                    let s = self.id_to_path@;
                    if has_key(s, id_of(), id) {
                        let i = choose|i: int| 0 <= i < s.len() && id_of()(#[trigger] s[i]) == id;
                        assert(self.id_pos@.contains_key(s[i].id));
                    }
                    lemma_assoc_contains(s, id_of(), path_of(), id);
                }
                None
            },
        }
    }

    /// The position of the entry for the path whose key is `key`.
    fn find_path(&self, key: &Vec<Vec<char>>) -> (r: Option<usize>)
        requires
            self.wf(),
        ensures
            match r {
                Some(i) => i < self.path_to_id@.len() && key_view(self.path_to_id@[i as int].key@)
                    == key_view(key@),
                None => !self.paths().contains_key(key_view(key@)),
            },
    {
        let ghost ps = self.path_to_id@;
        let np = self.path_to_id.len();
        let cands = self.path_pos.candidates(Ghost(path_keys(ps)), key);
        let m = cands.len();
        let mut t: usize = 0;
        while t < m
            invariant
                0 <= t <= m,
                m == cands@.len(),
                ps == self.path_to_id@,
                np == ps.len(),
                forall|u: int| 0 <= u < m ==> #[trigger] cands@[u] < ps.len(),
                forall|u: int|
                    0 <= u < t ==> key_view(ps[#[trigger] cands@[u] as int].key@) != key_view(
                        key@,
                    ),
            decreases m - t,
        {
            let i = cands[t];
            if keys_equal(&self.path_to_id[i].key, key) {
                return Some(i);
            }
            t = t + 1;
        }
        proof {
            if has_key(ps, key_of(), key_view(key@)) {
                let i = choose|i: int| 0 <= i < ps.len() && key_of()(#[trigger] ps[i]) == key_view(key@);
                assert(path_keys(ps)[i] == key_view(key@));
                assert(cands@.contains(i as usize));
                let u = choose|u: int| 0 <= u < cands@.len() && cands@[u] == i as usize;
                assert(key_view(ps[cands@[u] as int].key@) != key_view(key@));
            }
            lemma_assoc_contains(ps, key_of(), target_of(), key_view(key@));
        }
        None
    }

    /// Stores `id` for `path` in the reverse lookup.
    fn put_path(&mut self, path: String, id: usize)
        requires
            old(self).wf(),
        ensures
            final(self).wf(),
            final(self).ids() == old(self).ids(),
            final(self).paths() == store_path(old(self).paths(), path@, id),
            final(self).folders() == old(self).folders(),
    {
        let key = path_key_of(path.as_str());
        match self.find_path(&key) {
            Some(i) => {
                // The path keeps the spelling it was first stored under.
                let ghost before = self.path_to_id@;
                let first = self.path_to_id[i].path.clone();
                let e = PathEntry { key, path: first, id };
                let ghost e2 = e;
                self.path_to_id.set(i, e);
                proof {
                    lemma_assoc_value(before, key_of(), target_of(), i as int);
                    lemma_assoc_update(before, key_of(), target_of(), i as int, e2);
                    assert(path_keys(self.path_to_id@) =~= path_keys(before));
                }
            },
            None => {
                let ghost before = self.path_to_id@;
                let n = self.path_to_id.len();
                self.path_pos.add(Ghost(path_keys(before)), &key, n);
                let e = PathEntry { key, path, id };
                let ghost e2 = e;
                self.path_to_id.push(e);
                proof {
                    lemma_assoc_contains(before, key_of(), target_of(), key_of()(e2));
                    lemma_unique_push(before, key_of(), e2);
                    assert(self.path_to_id@.drop_last() =~= before);
                    assert(path_keys(self.path_to_id@) =~= path_keys(before).push(key_view(e2.key@)));
                }
            },
        }
    }

    /// Stores `path` for `id` in the id map.
    fn put_id(&mut self, id: usize, path: String)
        requires
            old(self).wf(),
        ensures
            final(self).wf(),
            final(self).ids() == old(self).ids().insert(id, path@),
            final(self).paths() == old(self).paths(),
            final(self).folders() == old(self).folders(),
    {
        let key = path_key_of(path.as_str());
        let ghost before = self.id_to_path@;
        let e = IdEntry { id, path, key };
        let ghost e2 = e;
        match self.find_id(id) {
            Some(i) => {
                self.id_to_path.set(i, e);
                proof {
                    lemma_assoc_update(before, id_of(), path_of(), i as int, e2);
                    let s = self.id_to_path@;
                    assert forall|id2: usize| #[trigger]
                        self.id_pos@.contains_key(id2) implies self.id_pos@[id2] < s.len()
                        && s[self.id_pos@[id2] as int].id == id2 by {
                        assert(before[self.id_pos@[id2] as int].id == id2);
                    }
                    assert forall|j: int| 0 <= j < s.len() implies self.id_pos@.contains_key(
                        (#[trigger] s[j]).id,
                    ) by {
                        assert(self.id_pos@.contains_key(before[j].id));
                    }
                }
            },
            None => {
                let ghost pos0 = self.id_pos@;
                let n = self.id_to_path.len();
                self.id_pos.insert(id, n);
                self.id_to_path.push(e);
                proof {
                    lemma_assoc_contains(before, id_of(), path_of(), id);
                    lemma_unique_push(before, id_of(), e2);
                    let s = self.id_to_path@;
                    assert(s.drop_last() =~= before);
                    assert forall|id2: usize| #[trigger]
                        self.id_pos@.contains_key(id2) implies self.id_pos@[id2] < s.len()
                        && s[self.id_pos@[id2] as int].id == id2 by {
                        if id2 != id {
                            assert(pos0.contains_key(id2));
                            assert(s[pos0[id2] as int] == before[pos0[id2] as int]);
                        }
                    }
                    assert forall|j: int| 0 <= j < s.len() implies self.id_pos@.contains_key(
                        (#[trigger] s[j]).id,
                    ) by {
                        if j < before.len() {
                            assert(s[j] == before[j]);
                            assert(pos0.contains_key(before[j].id));
                        }
                    }
                }
            },
        }
    }

    /// Records that image `id` is the file at `path`.
    pub fn insert(&mut self, id: usize, path: String)
        requires
            old(self).wf(),
        ensures
            final(self).wf(),
            final(self).ids() == old(self).ids().insert(id, path@),
            final(self).paths() == store_path(old(self).paths(), path@, id),
            final(self).folders() == old(self).folders(),
    {
        self.put_path(path.clone(), id);
        self.put_id(id, path);
    }

    /// The file path of image `id`.
    pub fn get_path(&self, id: usize) -> (r: Option<String>)
        requires
            self.wf(),
        ensures
            match r {
                Some(p) => self.ids().contains_key(id) && p@ == self.ids()[id],
                None => !self.ids().contains_key(id),
            },
    {
        match self.find_id(id) {
            Some(i) => {
                proof {
                    lemma_assoc_value(self.id_to_path@, id_of(), path_of(), i as int);
                }
                Some(self.id_to_path[i].path.clone())
            },
            None => None,
        }
    }

    /// The id of the image at `path`.
    pub fn get_id(&self, path: &str) -> (r: Option<usize>)
        requires
            self.wf(),
        ensures
            match r {
                Some(id) => self.paths().contains_key(path_key(path@)) && id == self.paths()[path_key(
                    path@,
                )].1,
                None => !self.paths().contains_key(path_key(path@)),
            },
    {
        let key = path_key_of(path);
        match self.find_path(&key) {
            Some(i) => {
                proof {
                    lemma_assoc_value(self.path_to_id@, key_of(), target_of(), i as int);
                }
                Some(self.path_to_id[i].id)
            },
            None => None,
        }
    }

    /// Whether the file at `path` is indexed.
    pub fn is_indexed(&self, path: &str) -> (r: bool)
        requires
            self.wf(),
        ensures
            r == self.paths().contains_key(path_key(path@)),
    {
        let key = path_key_of(path);
        match self.find_path(&key) {
            Some(i) => {
                proof {
                    lemma_assoc_value(self.path_to_id@, key_of(), target_of(), i as int);
                }
                true
            },
            None => false,
        }
    }

    /// The indexed paths, one for each path key, each in the spelling it was
    /// stored under.
    pub fn indexed_paths(&self) -> (r: Vec<String>)
        requires
            self.wf(),
        ensures
            lists_paths(r@.map_values(|p: String| p@), self.paths()),
    {
        let n = self.path_to_id.len();
        let mut r: Vec<String> = Vec::new();
        let mut i: usize = 0;
        while i < n
            invariant
                0 <= i <= n,
                n == self.path_to_id@.len(),
                self.wf(),
                r@.len() == i,
                forall|j: int| 0 <= j < i ==> (#[trigger] r@[j])@ == self.path_to_id@[j].path@,
            decreases n - i,
        {
            r.push(self.path_to_id[i].path.clone());
            i = i + 1;
        }
        proof {
            let s = self.path_to_id@;
            let rv = r@.map_values(|p: String| p@);
            lemma_assoc_len(s, key_of(), target_of());
            assert forall|i: int| 0 <= i < rv.len() implies self.paths().contains_key(
                path_key(#[trigger] rv[i]),
            ) && self.paths()[path_key(rv[i])].0 == rv[i] by {
                lemma_assoc_value(s, key_of(), target_of(), i);
            }
            assert forall|i: int, j: int|
                0 <= i < rv.len() && 0 <= j < rv.len() && i != j implies path_key(
                #[trigger] rv[i],
            ) != path_key(#[trigger] rv[j]) by {
                assert(key_of()(s[i]) != key_of()(s[j]));
            }
            assert forall|k: PathKey| #[trigger] self.paths().contains_key(k) implies exists|i: int|
                0 <= i < rv.len() && path_key(#[trigger] rv[i]) == k by {
                lemma_assoc_contains(s, key_of(), target_of(), k);
                let i = choose|i: int| 0 <= i < s.len() && key_of()(#[trigger] s[i]) == k;
                assert(path_key(rv[i]) == k);
            }
        }
        r
    }

    /// The number of indexed images.
    pub fn len(&self) -> (r: usize)
        requires
            self.wf(),
        ensures
            r == self.ids().len(),
    {
        proof {
            lemma_assoc_len(self.id_to_path@, id_of(), path_of());
        }
        self.id_to_path.len()
    }

    /// Whether no image is indexed.
    pub fn is_empty(&self) -> (r: bool)
        requires
            self.wf(),
        ensures
            r == (self.ids().len() == 0),
    {
        proof {
            lemma_assoc_len(self.id_to_path@, id_of(), path_of());
        }
        self.id_to_path.len() == 0
    }

    /// Adds `folder` to the indexed folders unless the same folder is there.
    pub fn add_folder(&mut self, folder: String)
        requires
            old(self).wf(),
        ensures
            final(self).wf(),
            final(self).ids() == old(self).ids(),
            final(self).paths() == old(self).paths(),
            final(self).folders() == folder_added(old(self).folders(), folder@),
    {
        let key = path_key_of(folder.as_str());
        let n = self.indexed_folders.len();
        let mut i: usize = 0;
        while i < n
            invariant
                0 <= i <= n,
                n == self.indexed_folders@.len(),
                n == self.folders().len(),
                self.wf(),
                key_view(key@) == path_key(folder@),
                forall|j: int| 0 <= j < i ==> !same_path(#[trigger] self.folders()[j], folder@),
            decreases n - i,
        {
            let fk = path_key_of(self.indexed_folders[i].as_str());
            if keys_equal(&fk, &key) {
                assert(same_path(self.folders()[i as int], folder@));
                return;
            }
            i = i + 1;
        }
        let ghost before = self.folders();
        self.indexed_folders.push(folder);
        assert(self.folders() =~= before.push(folder@));
    }

    /// Removes `folder` and every image under it from the index.
    pub fn remove_folder(&mut self, folder: &str)
        requires
            old(self).wf(),
        ensures
            final(self).wf(),
            final(self).ids() == ids_outside(old(self).ids(), folder@),
            final(self).paths() == old(self).paths().remove_keys(
                keys_under(old(self).ids(), folder@),
            ),
            final(self).folders() == old(self).folders().filter(
                |f: Seq<char>| !same_path(f, folder@),
            ),
    {
        let ghost old_ids = self.ids();
        let ghost old_paths = self.paths();
        let ghost old_folders = self.folders();
        let fkey = path_key_of(folder);

        // The images under the folder leave the id map; their keys are kept.
        let mut entries: Vec<IdEntry> = Vec::new();
        std::mem::swap(&mut entries, &mut self.id_to_path);
        let ghost s = entries@;
        let n = entries.len();
        let mut kept: Vec<IdEntry> = Vec::new();
        let mut removed: Vec<Vec<Vec<char>>> = Vec::new();
        let mut removed_index = KeyIndex::new();
        assert(keys_view(removed@) =~= Seq::<PathKey>::empty());
        assert(s.take(0) =~= Seq::<IdEntry>::empty());
        assert(assoc_map(kept@, id_of(), path_of()) =~= ids_outside(
            assoc_map(s.take(0), id_of(), path_of()),
            folder@,
        ));
        for e in it: entries.into_iter()
            invariant
                n == s.len(),
                it.seq() == s,
                keys_unique(s, id_of()),
                forall|j: int|
                    0 <= j < s.len() ==> key_view(#[trigger] s[j].key@) == path_key(s[j].path@),
                assoc_map(s, id_of(), path_of()) == old_ids,
                key_view(fkey@) == path_key(folder@),
                removed_index.indexes(keys_view(removed@)),
                keys_unique(kept@, id_of()),
                forall|j: int|
                    0 <= j < kept@.len() ==> key_view(#[trigger] kept@[j].key@) == path_key(
                        kept@[j].path@,
                    ),
                forall|j: int|
                    0 <= j < kept@.len() ==> has_key(
                        s.take(it.index() as int),
                        id_of(),
                        (#[trigger] kept@[j]).id,
                    ),
                assoc_map(kept@, id_of(), path_of()) == ids_outside(
                    assoc_map(s.take(it.index() as int), id_of(), path_of()),
                    folder@,
                ),
                forall|k: PathKey|
                    (exists|j: int|
                        0 <= j < removed@.len() && key_view((#[trigger] removed@[j])@) == k)
                        <==> keys_under(
                        assoc_map(s.take(it.index() as int), id_of(), path_of()),
                        folder@,
                    ).contains(k),
        {
            let ghost idx = it.index() as int;
            let ghost m0 = assoc_map(s.take(idx), id_of(), path_of());
            proof {
                lemma_assoc_take_step(s, id_of(), path_of(), idx);
                assert(e == s[idx]);
                // `e.id` is new to the prefix.
                if has_key(s.take(idx), id_of(), e.id) {
                    let t = choose|t: int|
                        0 <= t < s.take(idx).len() && id_of()(#[trigger] s.take(idx)[t]) == e.id;
                    assert(s.take(idx)[t] == s[t]);
                    assert(id_of()(s[t]) != id_of()(s[idx]));
                }
                lemma_assoc_contains(s.take(idx), id_of(), path_of(), e.id);
            }
            let ghost m1 = assoc_map(s.take(idx + 1), id_of(), path_of());
            let ghost ev = e;
            let ghost rb = removed@;
            let ghost kb = kept@;
            assert forall|j: int| 0 <= j < kb.len() implies has_key(
                s.take(idx + 1),
                id_of(),
                (#[trigger] kb[j]).id,
            ) by {
                let t = choose|t: int|
                    0 <= t < s.take(idx).len() && id_of()(#[trigger] s.take(idx)[t]) == kb[j].id;
                assert(s.take(idx + 1)[t] == s.take(idx)[t]);
            }
            if key_has_prefix(&e.key, &fkey) {
                removed_index.add(Ghost(keys_view(removed@)), &e.key, removed.len());
                removed.push(e.key);
                proof {
                    assert(keys_view(removed@) =~= keys_view(rb).push(key_view(ev.key@)));
                    assert forall|k: PathKey|
                        (exists|j: int|
                            0 <= j < removed@.len() && key_view((#[trigger] removed@[j])@) == k)
                            <==> keys_under(m1, folder@).contains(k) by {
                        if keys_under(m1, folder@).contains(k) {
                            let id = choose|id: usize|
                                #![trigger m1[id]]
                                m1.contains_key(id) && path_starts_with(m1[id], folder@)
                                    && path_key(m1[id]) == k;
                            if id == ev.id {
                                assert(key_view(removed@[rb.len() as int]@) == k);
                            } else {
                                assert(m0.contains_key(id) && m0[id] == m1[id]);
                                assert(keys_under(m0, folder@).contains(k));
                                let j = choose|j: int|
                                    0 <= j < rb.len() && key_view((#[trigger] rb[j])@) == k;
                                assert(removed@[j] == rb[j]);
                            }
                        }
                        if exists|j: int|
                            0 <= j < removed@.len() && key_view((#[trigger] removed@[j])@) == k {
                            let j = choose|j: int|
                                0 <= j < removed@.len() && key_view((#[trigger] removed@[j])@)
                                    == k;
                            if j == rb.len() {
                                assert(m1[ev.id] == ev.path@);
                            } else {
                                assert(removed@[j] == rb[j]);
                                assert(keys_under(m0, folder@).contains(k));
                                let id = choose|id: usize|
                                    #![trigger m0[id]]
                                    m0.contains_key(id) && path_starts_with(m0[id], folder@)
                                        && path_key(m0[id]) == k;
                                assert(m1[id] == m0[id]);
                            }
                        }
                    }
                    assert(assoc_map(kept@, id_of(), path_of()) =~= ids_outside(m1, folder@));
                }
            } else {
                kept.push(e);
                proof {
                    assert(kept@.drop_last() =~= kb);
                    if has_key(kb, id_of(), ev.id) {
                        let t = choose|t: int| 0 <= t < kb.len() && id_of()(#[trigger] kb[t]) == ev.id;
                        lemma_assoc_contains(kb, id_of(), path_of(), ev.id);
                    }
                    lemma_unique_push(kb, id_of(), ev);
                    assert(assoc_map(kept@, id_of(), path_of()) =~= ids_outside(m1, folder@));
                    assert forall|k: PathKey|
                        (exists|j: int|
                            0 <= j < removed@.len() && key_view((#[trigger] removed@[j])@) == k)
                            <==> keys_under(m1, folder@).contains(k) by {
                        if keys_under(m1, folder@).contains(k) {
                            let id = choose|id: usize|
                                #![trigger m1[id]]
                                m1.contains_key(id) && path_starts_with(m1[id], folder@)
                                    && path_key(m1[id]) == k;
                            assert(id != ev.id);
                            assert(m0.contains_key(id) && m0[id] == m1[id]);
                            assert(keys_under(m0, folder@).contains(k));
                        }
                        if keys_under(m0, folder@).contains(k) {
                            let id = choose|id: usize|
                                #![trigger m0[id]]
                                m0.contains_key(id) && path_starts_with(m0[id], folder@)
                                    && path_key(m0[id]) == k;
                            assert(m1[id] == m0[id]);
                        }
                    }
                    assert forall|j: int| 0 <= j < kept@.len() implies has_key(
                        s.take(idx + 1),
                        id_of(),
                        (#[trigger] kept@[j]).id,
                    ) by {
                        if j == kb.len() {
                            assert(s.take(idx + 1)[idx] == ev);
                        } else {
                            assert(kept@[j] == kb[j]);
                        }
                    }
                }
            }
        }
        assert(s.take(n as int) =~= s);
        self.id_pos = positions(&kept);
        self.id_to_path = kept;

        // The paths of the removed images leave the reverse lookup.
        let mut pentries: Vec<PathEntry> = Vec::new();
        std::mem::swap(&mut pentries, &mut self.path_to_id);
        let ghost ps = pentries@;
        let ghost gone = keys_under(old_ids, folder@);
        let mut pkept: Vec<PathEntry> = Vec::new();
        assert(ps.take(0) =~= Seq::<PathEntry>::empty());
        assert(assoc_map(pkept@, key_of(), target_of()) =~= assoc_map(
            ps.take(0),
            key_of(),
            target_of(),
        ).remove_keys(gone));
        for e in it: pentries.into_iter()
            invariant
                it.seq() == ps,
                keys_unique(ps, key_of()),
                forall|j: int|
                    0 <= j < ps.len() ==> key_view(#[trigger] ps[j].key@) == path_key(ps[j].path@),
                assoc_map(ps, key_of(), target_of()) == old_paths,
                removed_index.indexes(keys_view(removed@)),
                forall|k: PathKey|
                    (exists|j: int|
                        0 <= j < removed@.len() && key_view((#[trigger] removed@[j])@) == k)
                        <==> gone.contains(k),
                keys_unique(pkept@, key_of()),
                forall|j: int|
                    0 <= j < pkept@.len() ==> key_view(#[trigger] pkept@[j].key@) == path_key(
                        pkept@[j].path@,
                    ),
                forall|j: int|
                    0 <= j < pkept@.len() ==> has_key(
                        ps.take(it.index() as int),
                        key_of(),
                        key_of()(#[trigger] pkept@[j]),
                    ),
                assoc_map(pkept@, key_of(), target_of()) == assoc_map(
                    ps.take(it.index() as int),
                    key_of(),
                    target_of(),
                ).remove_keys(gone),
        {
            let ghost idx = it.index() as int;
            let ghost kb = pkept@;
            let ghost ev = e;
            proof {
                lemma_assoc_take_step(ps, key_of(), target_of(), idx);
                assert(e == ps[idx]);
                if has_key(ps.take(idx), key_of(), key_of()(ev)) {
                    let t = choose|t: int|
                        0 <= t < ps.take(idx).len() && key_of()(#[trigger] ps.take(idx)[t])
                            == key_of()(ev);
                    assert(ps.take(idx)[t] == ps[t]);
                }
            }
            assert forall|j: int| 0 <= j < kb.len() implies has_key(
                ps.take(idx + 1),
                key_of(),
                key_of()(#[trigger] kb[j]),
            ) by {
                let t = choose|t: int|
                    0 <= t < ps.take(idx).len() && key_of()(#[trigger] ps.take(idx)[t])
                        == key_of()(kb[j]);
                assert(ps.take(idx + 1)[t] == ps.take(idx)[t]);
            }
            if !removed_index.holds(&removed, &e.key) {
                pkept.push(e);
                proof {
                    if has_key(kb, key_of(), key_of()(ev)) {
                        let t = choose|t: int|
                            0 <= t < kb.len() && key_of()(#[trigger] kb[t]) == key_of()(ev);
                    }
                    lemma_unique_push(kb, key_of(), ev);
                    assert(pkept@.drop_last() =~= kb);
                    assert(assoc_map(pkept@, key_of(), target_of()) =~= assoc_map(
                        ps.take(idx + 1),
                        key_of(),
                        target_of(),
                    ).remove_keys(gone));
                    assert forall|j: int| 0 <= j < pkept@.len() implies has_key(
                        ps.take(idx + 1),
                        key_of(),
                        key_of()(#[trigger] pkept@[j]),
                    ) by {
                        if j == kb.len() {
                            assert(ps.take(idx + 1)[idx] == ev);
                        } else {
                            assert(pkept@[j] == kb[j]);
                        }
                    }
                }
            } else {
                proof {
                    assert(gone.contains(key_of()(ev)));
                    assert(assoc_map(pkept@, key_of(), target_of()) =~= assoc_map(
                        ps.take(idx + 1),
                        key_of(),
                        target_of(),
                    ).remove_keys(gone));
                }
            }
        }
        assert(ps.take(ps.len() as int) =~= ps);
        self.path_pos = key_index_of(&pkept);
        self.path_to_id = pkept;

        // The folder leaves the folder list.
        let mut folders: Vec<String> = Vec::new();
        std::mem::swap(&mut folders, &mut self.indexed_folders);
        let ghost fs = folders@;
        let ghost pred = |f: Seq<char>| !same_path(f, folder@);
        let mut fkept: Vec<String> = Vec::new();
        proof {
            reveal(Seq::filter);
            assert(fs.map_values(|f: String| f@).take(0) =~= Seq::<Seq<char>>::empty());
            assert(fkept@.map_values(|f: String| f@) =~= fs.map_values(|f: String| f@).take(
                0,
            ).filter(pred));
        }
        for f in it: folders.into_iter()
            invariant
                it.seq() == fs,
                key_view(fkey@) == path_key(folder@),
                pred == (|f: Seq<char>| !same_path(f, folder@)),
                fkept@.map_values(|f: String| f@) == fs.map_values(|f: String| f@).take(
                    it.index() as int,
                ).filter(pred),
        {
            let ghost idx = it.index() as int;
            let ghost fb = fkept@;
            let ghost fv = f@;
            proof {
                reveal(Seq::filter);
                let vs = fs.map_values(|f: String| f@);
                assert(vs.take(idx + 1).drop_last() =~= vs.take(idx));
                assert(vs.take(idx + 1).last() == fv);
            }
            let k = path_key_of(f.as_str());
            if !keys_equal(&k, &fkey) {
                fkept.push(f);
                assert(fkept@.map_values(|f: String| f@) =~= fb.map_values(|f: String| f@).push(
                    fv,
                ));
            }
        }
        proof {
            assert(fs.map_values(|f: String| f@).take(fs.len() as int) =~= fs.map_values(
                |f: String| f@,
            ));
        }
        self.indexed_folders = fkept;
    }

    /// The indexed folders, in the order they were added.
    pub fn indexed_folders(&self) -> (r: &Vec<String>)
        ensures
            r@.map_values(|f: String| f@) == self.folders(),
    {
        &self.indexed_folders
    }

    /// The number of indexed images under `folder`.
    fn count_under(&self, folder: &str) -> (c: usize)
        requires
            self.wf(),
        ensures
            c == images_under(self.ids(), folder@).len(),
    {
        let fkey = path_key_of(folder);
        let ghost s = self.id_to_path@;
        let n = self.id_to_path.len();
        let mut c: usize = 0;
        let mut i: usize = 0;
        assert(images_under(assoc_map(s.take(0), id_of(), path_of()), folder@) =~= Set::<
            usize,
        >::empty());
        while i < n
            invariant
                0 <= i <= n,
                n == s.len(),
                s == self.id_to_path@,
                self.wf(),
                key_view(fkey@) == path_key(folder@),
                c <= i,
                images_under(assoc_map(s.take(i as int), id_of(), path_of()), folder@).finite(),
                c == images_under(assoc_map(s.take(i as int), id_of(), path_of()), folder@).len(),
            decreases n - i,
        {
            let ghost m0 = assoc_map(s.take(i as int), id_of(), path_of());
            let ghost e = s[i as int];
            proof {
                lemma_assoc_take_step(s, id_of(), path_of(), i as int);
                if has_key(s.take(i as int), id_of(), e.id) {
                    let t = choose|t: int|
                        0 <= t < s.take(i as int).len() && id_of()(#[trigger] s.take(i as int)[t])
                            == e.id;
                    assert(s.take(i as int)[t] == s[t]);
                    assert(id_of()(s[t]) != id_of()(s[i as int]));
                }
                lemma_assoc_contains(s.take(i as int), id_of(), path_of(), e.id);
                lemma_under_step(m0, e.id, e.path@, folder@);
            }
            if key_has_prefix(&self.id_to_path[i].key, &fkey) {
                c = c + 1;
            }
            i = i + 1;
        }
        assert(s.take(n as int) =~= s);
        c
    }

    /// The number of indexed images under each indexed folder, in folder
    /// order.
    pub fn folder_image_counts(&self) -> (r: Vec<(String, usize)>)
        requires
            self.wf(),
        ensures
            r@.len() == self.folders().len(),
            forall|i: int|
                0 <= i < r@.len() ==> (#[trigger] r@[i]).0@ == self.folders()[i] && r@[i].1
                    == images_under(self.ids(), self.folders()[i]).len(),
    {
        let n = self.indexed_folders.len();
        let mut r: Vec<(String, usize)> = Vec::new();
        let mut i: usize = 0;
        while i < n
            invariant
                0 <= i <= n,
                n == self.indexed_folders@.len(),
                self.wf(),
                r@.len() == i,
                forall|j: int|
                    0 <= j < i ==> (#[trigger] r@[j]).0@ == self.folders()[j] && r@[j].1
                        == images_under(self.ids(), self.folders()[j]).len(),
            decreases n - i,
        {
            let folder = &self.indexed_folders[i];
            let c = self.count_under(folder.as_str());
            r.push((folder.clone(), c));
            i = i + 1;
        }
        r
    }

    /// Empties the index.
    pub fn clear(&mut self)
        ensures
            final(self).wf(),
            final(self).ids() == Map::<usize, Seq<char>>::empty(),
            final(self).paths() == Map::<PathKey, (Seq<char>, usize)>::empty(),
            final(self).folders() == Seq::<Seq<char>>::empty(),
    {
        self.id_to_path.clear();
        self.id_pos.clear();
        self.path_to_id.clear();
        self.path_pos = KeyIndex::new();
        self.indexed_folders.clear();
        assert(path_keys(self.path_to_id@) =~= Seq::<PathKey>::empty());
        assert(self.folders() =~= Seq::<Seq<char>>::empty());
    }

    /// An index holding the id map built from `ids`, the reverse lookup built
    /// from `paths` and the folders `folders`, each stored in order.
    pub fn from_parts(ids: Vec<(usize, String)>, paths: Vec<(String, usize)>, folders: Vec<String>) -> (m: Self)
        ensures
            m.wf(),
            m.ids() == ids_of_pairs(ids@.map_values(|e: (usize, String)| (e.0, e.1@))),
            m.paths() == paths_of_pairs(paths@.map_values(|e: (String, usize)| (e.0@, e.1))),
            m.folders() == folders@.map_values(|f: String| f@),
    {
        let mut m = Self::new();
        let ghost iv = ids@.map_values(|e: (usize, String)| (e.0, e.1@));
        let ghost pv = paths@.map_values(|e: (String, usize)| (e.0@, e.1));
        assert(iv.take(0) =~= Seq::<(usize, Seq<char>)>::empty());
        for e in it: ids.into_iter()
            invariant
                it.seq() == ids@,
                iv == ids@.map_values(|e: (usize, String)| (e.0, e.1@)),
                m.wf(),
                m.ids() == ids_of_pairs(iv.take(it.index() as int)),
                m.paths() == Map::<PathKey, (Seq<char>, usize)>::empty(),
        {
            let ghost idx = it.index() as int;
            proof {
                assert(iv.take(idx + 1).drop_last() =~= iv.take(idx));
                assert(iv.take(idx + 1).last() == iv[idx]);
            }
            m.put_id(e.0, e.1);
        }
        assert(iv.take(iv.len() as int) =~= iv);
        assert(pv.take(0) =~= Seq::<(Seq<char>, usize)>::empty());
        for e in it: paths.into_iter()
            invariant
                it.seq() == paths@,
                pv == paths@.map_values(|e: (String, usize)| (e.0@, e.1)),
                m.wf(),
                m.ids() == ids_of_pairs(iv),
                m.paths() == paths_of_pairs(pv.take(it.index() as int)),
        {
            let ghost idx = it.index() as int;
            proof {
                assert(pv.take(idx + 1).drop_last() =~= pv.take(idx));
                assert(pv.take(idx + 1).last() == pv[idx]);
            }
            m.put_path(e.0, e.1);
        }
        assert(pv.take(pv.len() as int) =~= pv);
        m.indexed_folders = folders;
        m
    }

    /// The id map, the reverse lookup and the folders, as pairs from which
    /// `from_parts` rebuilds this index.
    pub fn to_parts(&self) -> (r: (Vec<(usize, String)>, Vec<(String, usize)>, Vec<String>))
        requires
            self.wf(),
        ensures
            ids_of_pairs(r.0@.map_values(|e: (usize, String)| (e.0, e.1@))) == self.ids(),
            paths_of_pairs(r.1@.map_values(|e: (String, usize)| (e.0@, e.1))) == self.paths(),
            r.2@.map_values(|f: String| f@) == self.folders(),
    {
        let ghost s = self.id_to_path@;
        let mut ids: Vec<(usize, String)> = Vec::new();
        let n = self.id_to_path.len();
        let mut i: usize = 0;
        assert(s.take(0) =~= Seq::<IdEntry>::empty());
        assert(ids@.map_values(|e: (usize, String)| (e.0, e.1@)) =~= Seq::<(usize, Seq<char>)>::empty());
        while i < n
            invariant
                0 <= i <= n,
                n == s.len(),
                s == self.id_to_path@,
                ids_of_pairs(ids@.map_values(|e: (usize, String)| (e.0, e.1@))) == assoc_map(
                    s.take(i as int),
                    id_of(),
                    path_of(),
                ),
            decreases n - i,
        {
            let ghost before = ids@.map_values(|e: (usize, String)| (e.0, e.1@));
            let e = &self.id_to_path[i];
            ids.push((e.id, e.path.clone()));
            proof {
                lemma_assoc_take_step(s, id_of(), path_of(), i as int);
                let after = ids@.map_values(|e: (usize, String)| (e.0, e.1@));
                assert(after.drop_last() =~= before);
            }
            i = i + 1;
        }
        assert(s.take(n as int) =~= s);

        let ghost ps = self.path_to_id@;
        let mut paths: Vec<(String, usize)> = Vec::new();
        let pn = self.path_to_id.len();
        let mut j: usize = 0;
        assert(ps.take(0) =~= Seq::<PathEntry>::empty());
        assert(paths@.map_values(|e: (String, usize)| (e.0@, e.1)) =~= Seq::<(Seq<char>, usize)>::empty());
        while j < pn
            invariant
                0 <= j <= pn,
                pn == ps.len(),
                ps == self.path_to_id@,
                self.wf(),
                paths_of_pairs(paths@.map_values(|e: (String, usize)| (e.0@, e.1))) == assoc_map(
                    ps.take(j as int),
                    key_of(),
                    target_of(),
                ),
            decreases pn - j,
        {
            let ghost before = paths@.map_values(|e: (String, usize)| (e.0@, e.1));
            let e = &self.path_to_id[j];
            paths.push((e.path.clone(), e.id));
            proof {
                lemma_assoc_take_step(ps, key_of(), target_of(), j as int);
                let after = paths@.map_values(|e: (String, usize)| (e.0@, e.1));
                assert(after.drop_last() =~= before);
                let ev = ps[j as int];
                if has_key(ps.take(j as int), key_of(), key_of()(ev)) {
                    let t = choose|t: int|
                        0 <= t < ps.take(j as int).len() && key_of()(#[trigger] ps.take(j as int)[t])
                            == key_of()(ev);
                    assert(ps.take(j as int)[t] == ps[t]);
                    assert(key_of()(ps[t]) != key_of()(ps[j as int]));
                }
                lemma_assoc_contains(ps.take(j as int), key_of(), target_of(), key_of()(ev));
            }
            j = j + 1;
        }
        assert(ps.take(pn as int) =~= ps);
        (ids, paths, self.indexed_folders.clone())
    }

    /// A copy of this index.
    pub fn snapshot(&self) -> (r: Self)
        requires
            self.wf(),
        ensures
            r.wf(),
            r.ids() == self.ids(),
            r.paths() == self.paths(),
            r.folders() == self.folders(),
    {
        let (ids, paths, folders) = self.to_parts();
        Self::from_parts(ids, paths, folders)
    }
}

/// After image `id` is recorded at `path`, `id` names `path`, and `path` is
/// indexed under `id`.
pub proof fn lemma_insert_then_lookup(
    ids: Map<usize, Seq<char>>,
    paths: Map<PathKey, (Seq<char>, usize)>,
    id: usize,
    path: Seq<char>,
)
    ensures
        ids.insert(id, path).contains_key(id),
        ids.insert(id, path)[id] == path,
        store_path(paths, path, id).contains_key(path_key(path)),
        store_path(paths, path, id)[path_key(path)].1 == id,
{
}

/// After a folder is removed, no image under it is left, and every image
/// outside it keeps its path.
pub proof fn lemma_remove_folder_leaves_none(ids: Map<usize, Seq<char>>, folder: Seq<char>)
    ensures
        images_under(ids_outside(ids, folder), folder) == Set::<usize>::empty(),
        forall|id: usize|
            ids.contains_key(id) && !path_starts_with(ids[id], folder) ==> #[trigger] ids_outside(
                ids,
                folder,
            ).contains_key(id) && ids_outside(ids, folder)[id] == ids[id],
{
    assert(images_under(ids_outside(ids, folder), folder) =~= Set::<usize>::empty());
}

/// Adding a folder twice is adding it once.
pub proof fn lemma_add_folder_idempotent(folders: Seq<Seq<char>>, folder: Seq<char>)
    ensures
        folder_added(folder_added(folders, folder), folder) == folder_added(folders, folder),
{
    let once = folder_added(folders, folder);
    if !(exists|i: int| 0 <= i < folders.len() && same_path(#[trigger] folders[i], folder)) {
        assert(once[folders.len() as int] == folder);
        assert(same_path(once[folders.len() as int], folder));
    }
}

/// Adding folders never lists the same folder twice.
pub proof fn lemma_add_folder_distinct(folders: Seq<Seq<char>>, folder: Seq<char>)
    requires
        forall|i: int, j: int|
            0 <= i < folders.len() && 0 <= j < folders.len() && i != j ==> !same_path(
                #[trigger] folders[i],
                #[trigger] folders[j],
            ),
    ensures
        forall|i: int, j: int|
            0 <= i < folder_added(folders, folder).len() && 0 <= j < folder_added(
                folders,
                folder,
            ).len() && i != j ==> !same_path(
                #[trigger] folder_added(folders, folder)[i],
                #[trigger] folder_added(folders, folder)[j],
            ),
{
    let once = folder_added(folders, folder);
    if !(exists|i: int| 0 <= i < folders.len() && same_path(#[trigger] folders[i], folder)) {
        assert forall|i: int, j: int|
            0 <= i < once.len() && 0 <= j < once.len() && i != j implies !same_path(
            #[trigger] once[i],
            #[trigger] once[j],
        ) by {
            if i < folders.len() && j < folders.len() {
                assert(once[i] == folders[i] && once[j] == folders[j]);
            } else if i < folders.len() {
                assert(once[i] == folders[i]);
            } else {
                assert(once[j] == folders[j]);
            }
        }
    }
}

/// The number of images under a folder never exceeds the number of images.
pub proof fn lemma_count_bounded(ids: Map<usize, Seq<char>>, folder: Seq<char>)
    requires
        ids.dom().finite(),
    ensures
        images_under(ids, folder).len() <= ids.len(),
{
    ids.dom().lemma_len_filter(|id: usize| path_starts_with(ids[id], folder));
}

/// The id map and the reverse lookup undo each other: each image's path is
/// indexed under that image's id, and each indexed path is the path of the
/// image whose id it is indexed under.
pub open spec fn lookups_inverse(
    ids: Map<usize, Seq<char>>,
    paths: Map<PathKey, (Seq<char>, usize)>,
) -> bool {
    &&& forall|id: usize| #[trigger]
        ids.contains_key(id) ==> paths.contains_key(path_key(ids[id])) && paths[path_key(
            ids[id],
        )].1 == id
    &&& forall|k: PathKey| #[trigger]
        paths.contains_key(k) ==> ids.contains_key(paths[k].1) && path_key(ids[paths[k].1]) == k
}

/// An empty index has lookups that undo each other.
pub proof fn lemma_empty_lookups_inverse()
    ensures
        lookups_inverse(Map::<usize, Seq<char>>::empty(), Map::<PathKey, (Seq<char>, usize)>::empty()),
{
}

/// Where the lookups undo each other, image `id` is at a path the same as
/// `p` exactly when `p` is indexed under `id`.
pub proof fn lemma_lookup_inverse(
    ids: Map<usize, Seq<char>>,
    paths: Map<PathKey, (Seq<char>, usize)>,
    id: usize,
    p: Seq<char>,
)
    requires
        lookups_inverse(ids, paths),
    ensures
        (ids.contains_key(id) && same_path(ids[id], p)) <==> (paths.contains_key(path_key(p))
            && paths[path_key(p)].1 == id),
{
    if paths.contains_key(path_key(p)) {
        assert(ids.contains_key(paths[path_key(p)].1));
    }
    if ids.contains_key(id) {
        assert(paths.contains_key(path_key(ids[id])));
    }
}

/// Recording a new image at a path that is not indexed keeps the lookups
/// undoing each other.
pub proof fn lemma_insert_keeps_inverse(
    ids: Map<usize, Seq<char>>,
    paths: Map<PathKey, (Seq<char>, usize)>,
    id: usize,
    p: Seq<char>,
)
    requires
        lookups_inverse(ids, paths),
        !ids.contains_key(id),
        !paths.contains_key(path_key(p)),
    ensures
        lookups_inverse(ids.insert(id, p), store_path(paths, p, id)),
{
    let ids2 = ids.insert(id, p);
    let paths2 = store_path(paths, p, id);
    assert(paths2 == paths.insert(path_key(p), (p, id)));
    assert forall|i: usize| #[trigger] ids2.contains_key(i) implies paths2.contains_key(
        path_key(ids2[i]),
    ) && paths2[path_key(ids2[i])].1 == i by {
        if i != id {
            assert(ids.contains_key(i));
            assert(paths.contains_key(path_key(ids[i])));
        }
    }
    assert forall|k: PathKey| #[trigger] paths2.contains_key(k) implies ids2.contains_key(
        paths2[k].1,
    ) && path_key(ids2[paths2[k].1]) == k by {
        if k != path_key(p) {
            assert(paths.contains_key(k));
            assert(ids.contains_key(paths[k].1));
        }
    }
}

/// Removing a folder, where the lookups undo each other, keeps them undoing
/// each other; a path stays indexed exactly when it was indexed and does not
/// lie under the folder, and a path outside the folder keeps its id.
pub proof fn lemma_remove_folder_keeps_inverse(
    ids: Map<usize, Seq<char>>,
    paths: Map<PathKey, (Seq<char>, usize)>,
    folder: Seq<char>,
)
    requires
        lookups_inverse(ids, paths),
    ensures
        lookups_inverse(
            ids_outside(ids, folder),
            paths.remove_keys(keys_under(ids, folder)),
        ),
        forall|p: Seq<char>| #[trigger]
            paths.remove_keys(keys_under(ids, folder)).contains_key(path_key(p)) == (
            paths.contains_key(path_key(p)) && !path_starts_with(p, folder)),
        forall|p: Seq<char>|
            !path_starts_with(p, folder) && #[trigger] paths.contains_key(path_key(p)) ==> paths.remove_keys(
                keys_under(ids, folder),
            )[path_key(p)] == paths[path_key(p)],
{
    let gone = keys_under(ids, folder);
    let ids2 = ids_outside(ids, folder);
    let paths2 = paths.remove_keys(gone);
    // A key is gone exactly when it is indexed and lies under the folder.
    assert forall|k: PathKey| #[trigger]
        gone.contains(k) <==> (paths.contains_key(k) && key_prefix(path_key(folder), k)) by {
        if gone.contains(k) {
            let id = choose|id: usize|
                #![trigger ids[id]]
                ids.contains_key(id) && path_starts_with(ids[id], folder) && path_key(ids[id]) == k;
            assert(paths.contains_key(path_key(ids[id])));
        }
        if paths.contains_key(k) && key_prefix(path_key(folder), k) {
            let id = paths[k].1;
            assert(ids.contains_key(id) && path_key(ids[id]) == k);
            assert(path_starts_with(ids[id], folder));
        }
    }
    assert forall|i: usize| #[trigger] ids2.contains_key(i) implies paths2.contains_key(
        path_key(ids2[i]),
    ) && paths2[path_key(ids2[i])].1 == i by {
        assert(ids.contains_key(i) && !path_starts_with(ids[i], folder));
        assert(paths.contains_key(path_key(ids[i])));
        assert(!gone.contains(path_key(ids[i])));
    }
    assert forall|k: PathKey| #[trigger] paths2.contains_key(k) implies ids2.contains_key(
        paths2[k].1,
    ) && path_key(ids2[paths2[k].1]) == k by {
        assert(paths.contains_key(k) && !gone.contains(k));
        let id = paths[k].1;
        assert(ids.contains_key(id) && path_key(ids[id]) == k);
        assert(!path_starts_with(ids[id], folder));
    }
    assert forall|p: Seq<char>| #[trigger]
        paths2.contains_key(path_key(p)) == (paths.contains_key(path_key(p)) && !path_starts_with(
            p,
            folder,
        )) by {
        assert(gone.contains(path_key(p)) <==> (paths.contains_key(path_key(p)) && key_prefix(
            path_key(folder),
            path_key(p),
        )));
    }
    assert forall|p: Seq<char>|
        !path_starts_with(p, folder) && #[trigger] paths.contains_key(path_key(p)) implies paths2[path_key(
            p,
        )] == paths[path_key(p)] by {
        assert(gone.contains(path_key(p)) <==> (paths.contains_key(path_key(p)) && key_prefix(
            path_key(folder),
            path_key(p),
        )));
    }
}

/// Some image of `ids` is at a path the same as `p`.
pub open spec fn is_image_path_of(ids: Map<usize, Seq<char>>, p: Seq<char>) -> bool {
    exists|id: usize| #[trigger] ids.contains_key(id) && same_path(ids[id], p)
}

/// Where the lookups undo each other, a list of the indexed paths holds a
/// path the same as `p` exactly when `p` is indexed, each of its paths is the
/// path of some image, and it has one path per image.
pub proof fn lemma_indexed_paths_complete(
    r: Seq<Seq<char>>,
    ids: Map<usize, Seq<char>>,
    paths: Map<PathKey, (Seq<char>, usize)>,
)
    requires
        lookups_inverse(ids, paths),
        lists_paths(r, paths),
        paths.dom().finite(),
    ensures
        forall|p: Seq<char>|
            (exists|i: int| 0 <= i < r.len() && same_path(#[trigger] r[i], p)) <==> #[trigger] paths.contains_key(
                path_key(p),
            ),
        forall|i: int| 0 <= i < r.len() ==> is_image_path_of(ids, #[trigger] r[i]),
        r.len() == ids.len(),
{
    assert forall|p: Seq<char>|
        (exists|i: int| 0 <= i < r.len() && same_path(#[trigger] r[i], p)) <==> #[trigger] paths.contains_key(
            path_key(p),
        ) by {
        if paths.contains_key(path_key(p)) {
            let i = choose|i: int| 0 <= i < r.len() && path_key(#[trigger] r[i]) == path_key(p);
            assert(same_path(r[i], p));
        }
        if exists|i: int| 0 <= i < r.len() && same_path(#[trigger] r[i], p) {
            let i = choose|i: int| 0 <= i < r.len() && same_path(#[trigger] r[i], p);
            assert(paths.contains_key(path_key(r[i])));
        }
    }
    let f = |k: PathKey| paths[k].1;
    let x = paths.dom();
    assert(vstd::relations::injective_on(f, x)) by {
        assert forall|k1: PathKey, k2: PathKey|
            x.contains(k1) && x.contains(k2) && #[trigger] f(k1) == #[trigger] f(k2) implies k1
            == k2 by {
            assert(paths.contains_key(k1) && paths.contains_key(k2));
            assert(path_key(ids[paths[k1].1]) == k1);
            assert(path_key(ids[paths[k2].1]) == k2);
        }
    }
    assert(x.map(f) =~= ids.dom()) by {
        assert forall|id: usize| #[trigger] ids.dom().contains(id) implies x.map(f).contains(id) by {
            let k = path_key(ids[id]);
            assert(x.contains(k) && f(k) == id);
        }
        assert forall|id: usize| #[trigger] x.map(f).contains(id) implies ids.dom().contains(id) by {
            let k = choose|k: PathKey| x.contains(k) && f(k) == id;
            assert(paths.contains_key(k));
        }
    }
    vstd::set_lib::lemma_map_size(x, ids.dom(), f);
    assert forall|i: int| 0 <= i < r.len() implies is_image_path_of(ids, #[trigger] r[i]) by {
        let k = path_key(r[i]);
        assert(paths.contains_key(k));
        let id = paths[k].1;
        assert(ids.contains_key(id) && path_key(ids[id]) == k);
        assert(same_path(ids[id], r[i]));
    }
}

impl Default for ImageMetadata {
    fn default() -> (m: Self)
        ensures
            m.wf(),
            m.ids() == Map::<usize, Seq<char>>::empty(),
            m.paths() == Map::<PathKey, (Seq<char>, usize)>::empty(),
            m.folders() == Seq::<Seq<char>>::empty(),
    {
        Self::new()
    }
}

} // verus!
