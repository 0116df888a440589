//! The decisions of the application: what starting, finishing and clearing
//! an indexing run or a search does to the application state, and which
//! background work each frame starts.
use vstd::prelude::*;

use crate::db::metadata::{
    folder_added, lemma_add_folder_distinct, lists_paths, store_path, ImageMetadata,
};
use crate::db::vector_store::VectorStore;
use crate::paths::{path_key, same_path, PathKey};

verus! {

/// The tabs of the interface.
#[derive(Debug, Clone, Copy, PartialEq, Eq, Structural)]
pub enum Tab {
    Dashboard,
    Collections,
    VisualSearch,
    IndexNew,
    Settings,
}

/// What the last indexing run has to report.
pub enum IndexNotice {
    /// The run indexed this many images.
    Indexed(usize),
    /// The run failed with this error.
    Failed(String),
    /// No embedding model is loaded, so no run started.
    ModelNotLoaded,
    /// The index was cleared.
    Cleared,
}

/// An indexing run for a background worker: the folders to scan, the paths
/// that are already indexed, and the id to give the first new image.
pub struct IndexJob {
    pub folders: Vec<String>,
    pub already_indexed: Vec<String>,
    pub first_id: usize,
}

/// A search for a background worker: the query image, the number of hits
/// wanted, and copies of the index and the store as they were when the
/// search started.
pub struct SearchJob {
    pub query: String,
    pub top_n: usize,
    pub metadata: ImageMetadata,
    pub store: VectorStore,
}

/// The work that a frame starts.
pub struct FrameActions {
    pub index_job: Option<IndexJob>,
    pub search_job: Option<SearchJob>,
    /// The index was cleared, so the shown search results go too.
    pub cleared: bool,
    /// The index is to be saved.
    pub save: bool,
}

/// The folders after adding each of `added` in turn.
pub open spec fn folders_added(folders: Seq<Seq<char>>, added: Seq<Seq<char>>) -> Seq<Seq<char>>
    decreases added.len(),
{
    if added.len() == 0 {
        folders
    } else {
        folder_added(folders_added(folders, added.drop_last()), added.last())
    }
}

/// The id map after recording each `(id, path)` of `images` in turn.
pub open spec fn ids_recorded(ids: Map<usize, Seq<char>>, images: Seq<(usize, Seq<char>)>) -> Map<
    usize,
    Seq<char>,
>
    decreases images.len(),
{
    if images.len() == 0 {
        ids
    } else {
        ids_recorded(ids, images.drop_last()).insert(images.last().0, images.last().1)
    }
}

/// The reverse lookup after recording each `(id, path)` of `images` in turn.
pub open spec fn paths_recorded(
    paths: Map<PathKey, (Seq<char>, usize)>,
    images: Seq<(usize, Seq<char>)>,
) -> Map<PathKey, (Seq<char>, usize)>
    decreases images.len(),
{
    if images.len() == 0 {
        paths
    } else {
        store_path(paths_recorded(paths, images.drop_last()), images.last().1, images.last().0)
    }
}

/// The next free id after storing embeddings for each of `ids` in turn.
pub open spec fn next_id_after(next: usize, ids: Seq<usize>) -> usize
    decreases ids.len(),
{
    if ids.len() == 0 {
        next
    } else {
        let n = next_id_after(next, ids.drop_last());
        if ids.last() >= n {
            (ids.last() + 1) as usize
        } else {
            n
        }
    }
}

/// The id and path of each numbered image.
pub open spec fn image_pairs(images: Seq<(usize, String, Vec<u32>)>) -> Seq<(usize, Seq<char>)> {
    images.map_values(|e: (usize, String, Vec<u32>)| (e.0, e.1@))
}

/// The id of each numbered image.
pub open spec fn image_ids(images: Seq<(usize, String, Vec<u32>)>) -> Seq<usize> {
    images.map_values(|e: (usize, String, Vec<u32>)| e.0)
}

/// The embedding of each numbered image.
pub open spec fn image_embeddings(images: Seq<(usize, String, Vec<u32>)>) -> Seq<Seq<u32>> {
    images.map_values(|e: (usize, String, Vec<u32>)| e.2@)
}

/// The ids that a run numbers from the store's next free id are new to the
/// store.
pub proof fn lemma_run_ids_fresh(stored: Seq<usize>, next: usize, first_id: usize, k: int)
    requires
        forall|i: int| 0 <= i < stored.len() ==> #[trigger] stored[i] < next,
        first_id == next,
        k >= 0,
    ensures
        forall|i: int| 0 <= i < stored.len() ==> #[trigger] stored[i] != first_id + k,
{
}

/// After a run's images, with distinct ids, are recorded, each image's id
/// names that image's path.
pub proof fn lemma_recorded_lookup(ids: Map<usize, Seq<char>>, images: Seq<(usize, Seq<char>)>, k: int)
    requires
        0 <= k < images.len(),
        forall|a: int, b: int|
            0 <= a < images.len() && 0 <= b < images.len() && a != b ==> (#[trigger] images[a]).0
                != (#[trigger] images[b]).0,
    ensures
        ids_recorded(ids, images).contains_key(images[k].0),
        ids_recorded(ids, images)[images[k].0] == images[k].1,
    decreases images.len(),
{
    let prev = images.drop_last();
    if k < images.len() - 1 {
        assert forall|a: int, b: int|
            0 <= a < prev.len() && 0 <= b < prev.len() && a != b implies (#[trigger] prev[a]).0
                != (#[trigger] prev[b]).0 by {
            assert(prev[a] == images[a] && prev[b] == images[b]);
        }
        lemma_recorded_lookup(ids, prev, k);
        assert(prev[k] == images[k]);
        assert(images.last() == images[images.len() - 1]);
    }
}

/// Recording a run changes only the images the run names: an id that no
/// image of the run has stays as it was (present with the same path, or
/// absent).
pub proof fn lemma_recorded_keeps_other_ids(
    ids: Map<usize, Seq<char>>,
    images: Seq<(usize, Seq<char>)>,
    id: usize,
)
    requires
        forall|k: int| 0 <= k < images.len() ==> (#[trigger] images[k]).0 != id,
    ensures
        ids_recorded(ids, images).contains_key(id) == ids.contains_key(id),
        ids.contains_key(id) ==> ids_recorded(ids, images)[id] == ids[id],
    decreases images.len(),
{
    if images.len() > 0 {
        let prev = images.drop_last();
        assert forall|k: int| 0 <= k < prev.len() implies (#[trigger] prev[k]).0 != id by {
            assert(prev[k] == images[k]);
        }
        lemma_recorded_keeps_other_ids(ids, prev, id);
        assert(images[images.len() - 1] == images.last());
    }
}

/// Recording a run changes the reverse lookup only at the keys of the run's
/// paths: every other key stays as it was.
pub proof fn lemma_recorded_keeps_other_paths(
    paths: Map<PathKey, (Seq<char>, usize)>,
    images: Seq<(usize, Seq<char>)>,
    k: PathKey,
)
    requires
        forall|j: int| 0 <= j < images.len() ==> path_key((#[trigger] images[j]).1) != k,
    ensures
        paths_recorded(paths, images).contains_key(k) == paths.contains_key(k),
        paths.contains_key(k) ==> paths_recorded(paths, images)[k] == paths[k],
    decreases images.len(),
{
    if images.len() > 0 {
        let prev = images.drop_last();
        assert forall|j: int| 0 <= j < prev.len() implies path_key((#[trigger] prev[j]).1) != k by {
            assert(prev[j] == images[j]);
        }
        lemma_recorded_keeps_other_paths(paths, prev, k);
        assert(images[images.len() - 1] == images.last());
    }
}

/// Some entry of `folders` names the same path as `f`.
pub open spec fn folder_listed(folders: Seq<Seq<char>>, f: Seq<char>) -> bool {
    exists|i: int| 0 <= i < folders.len() && same_path(#[trigger] folders[i], f)
}

/// No two entries of `folders` name the same path.
pub open spec fn no_folder_twice(folders: Seq<Seq<char>>) -> bool {
    forall|i: int, j: int|
        0 <= i < folders.len() && 0 <= j < folders.len() && i != j ==> !same_path(
            #[trigger] folders[i],
            #[trigger] folders[j],
        )
}

/// Adding folders never lists a folder twice, keeps the folders already
/// listed in place, and lists each added folder.
pub proof fn lemma_folders_added_distinct(folders: Seq<Seq<char>>, added: Seq<Seq<char>>)
    requires
        no_folder_twice(folders),
    ensures
        no_folder_twice(folders_added(folders, added)),
        folders.len() <= folders_added(folders, added).len(),
        forall|i: int| 0 <= i < folders.len() ==> #[trigger] folders_added(folders, added)[i] == folders[i],
        forall|j: int|
            0 <= j < added.len() ==> folder_listed(folders_added(folders, added), #[trigger] added[j]),
    decreases added.len(),
{
    if added.len() > 0 {
        let prev = added.drop_last();
        lemma_folders_added_distinct(folders, prev);
        let mid = folders_added(folders, prev);
        let last = added.last();
        lemma_add_folder_distinct(mid, last);
        let out = folders_added(folders, added);
        assert(out == folder_added(mid, last));
        assert forall|i: int| 0 <= i < mid.len() implies #[trigger] out[i] == mid[i] by {}
        assert forall|j: int| 0 <= j < added.len() implies folder_listed(out, #[trigger] added[j]) by {
            if j < prev.len() {
                assert(prev[j] == added[j]);
                assert(folder_listed(mid, prev[j]));
                let i = choose|i: int| 0 <= i < mid.len() && same_path(#[trigger] mid[i], prev[j]);
                assert(out[i] == mid[i]);
            } else {
                assert(added[j] == last);
                if folder_listed(mid, last) {
                    let i = choose|i: int| 0 <= i < mid.len() && same_path(#[trigger] mid[i], last);
                    assert(out[i] == mid[i]);
                } else {
                    assert(out[mid.len() as int] == last);
                    assert(same_path(out[mid.len() as int], last));
                }
            }
        }
    }
}

/// Adding folders that are all listed already leaves the folder list as it
/// was.
pub proof fn lemma_folders_added_listed_unchanged(folders: Seq<Seq<char>>, added: Seq<Seq<char>>)
    requires
        forall|j: int| 0 <= j < added.len() ==> folder_listed(folders, #[trigger] added[j]),
    ensures
        folders_added(folders, added) == folders,
    decreases added.len(),
{
    if added.len() > 0 {
        let prev = added.drop_last();
        assert forall|j: int| 0 <= j < prev.len() implies folder_listed(folders, #[trigger] prev[j]) by {
            assert(prev[j] == added[j]);
        }
        lemma_folders_added_listed_unchanged(folders, prev);
        assert(added[added.len() - 1] == added.last());
        assert(folder_listed(folders, added.last()));
    }
}

/// The state that the interface shows and edits.
pub struct AppState {
    pub metadata: ImageMetadata,
    pub store: VectorStore,
    pub pending_folders: Vec<String>,
    pub is_indexing: bool,
    pub start_indexing: bool,
    pub last_index_message: Option<IndexNotice>,
    pub query_image_path: Option<String>,
    pub is_searching: bool,
    pub start_search: bool,
    pub top_n: usize,
    pub needs_save: bool,
    pub clear_index: bool,
    pub switch_tab: Option<Tab>,
    pub model_loaded: bool,
    pub active_tab: Tab,
}

impl AppState {
    /// The state at start-up, over a loaded index and store.
    pub fn new(metadata: ImageMetadata, store: VectorStore, model_loaded: bool) -> (s: Self)
        ensures
            s.metadata == metadata,
            s.store == store,
            s.pending_folders@.len() == 0,
            !s.is_indexing,
            !s.start_indexing,
            s.last_index_message is None,
            s.query_image_path is None,
            !s.is_searching,
            !s.start_search,
            s.top_n == 20,
            !s.needs_save,
            !s.clear_index,
            s.switch_tab is None,
            s.model_loaded == model_loaded,
            s.active_tab == Tab::Dashboard,
    {
        AppState {
            metadata,
            store,
            pending_folders: Vec::new(),
            is_indexing: false,
            start_indexing: false,
            last_index_message: None,
            query_image_path: None,
            is_searching: false,
            start_search: false,
            top_n: 20,
            needs_save: false,
            clear_index: false,
            switch_tab: None,
            model_loaded,
            active_tab: Tab::Dashboard,
        }
    }

    /// The number of stored embeddings.
    pub fn vector_store_len(&self) -> (r: usize)
        ensures
            r == self.store.ids().len(),
    {
        self.store.len()
    }

    /// Starts an indexing run of the pending folders: none without a model
    /// (which is then reported) or without pending folders; else the pending
    /// folders move into the run and into the indexed folders.
    pub fn begin_indexing(&mut self) -> (r: Option<IndexJob>)
        requires
            old(self).metadata.wf(),
        ensures
            final(self).metadata.wf(),
            final(self).metadata.ids() == old(self).metadata.ids(),
            final(self).metadata.paths() == old(self).metadata.paths(),
            final(self).store == old(self).store,
            final(self).query_image_path == old(self).query_image_path,
            final(self).is_searching == old(self).is_searching,
            final(self).start_indexing == old(self).start_indexing,
            final(self).start_search == old(self).start_search,
            final(self).top_n == old(self).top_n,
            final(self).needs_save == old(self).needs_save,
            final(self).clear_index == old(self).clear_index,
            final(self).switch_tab == old(self).switch_tab,
            final(self).model_loaded == old(self).model_loaded,
            final(self).active_tab == old(self).active_tab,
            !old(self).model_loaded ==> {
                &&& r is None
                &&& final(self).last_index_message == Some(IndexNotice::ModelNotLoaded)
                &&& final(self).pending_folders@ == old(self).pending_folders@
                &&& final(self).metadata.folders() == old(self).metadata.folders()
                &&& final(self).is_indexing == old(self).is_indexing
            },
            old(self).model_loaded && old(self).pending_folders@.len() == 0 ==> {
                &&& r is None
                &&& final(self).last_index_message == old(self).last_index_message
                &&& final(self).pending_folders@.len() == 0
                &&& final(self).metadata.folders() == old(self).metadata.folders()
                &&& final(self).is_indexing == old(self).is_indexing
            },
            old(self).model_loaded && old(self).pending_folders@.len() > 0 ==> {
                &&& r matches Some(job) && {
                    &&& job.folders@ == old(self).pending_folders@
                    &&& lists_paths(
                        job.already_indexed@.map_values(|p: String| p@),
                        old(self).metadata.paths(),
                    )
                    &&& job.first_id == old(self).store.spec_next_id()
                }
                &&& final(self).pending_folders@.len() == 0
                &&& final(self).is_indexing
                &&& final(self).last_index_message is None
                &&& final(self).metadata.folders() == folders_added(
                    old(self).metadata.folders(),
                    old(self).pending_folders@.map_values(|f: String| f@),
                )
            },
    {
        if !self.model_loaded {
            self.last_index_message = Some(IndexNotice::ModelNotLoaded);
            return None;
        }
        let mut folders: Vec<String> = Vec::new();
        std::mem::swap(&mut folders, &mut self.pending_folders);
        if folders.len() == 0 {
            return None;
        }
        self.is_indexing = true;
        self.last_index_message = None;
        let already_indexed = self.metadata.indexed_paths();
        let first_id = self.store.next_id();
        let ghost fv = folders@.map_values(|f: String| f@);
        let ghost start = self.metadata.folders();
        let n = folders.len();
        let mut i: usize = 0;
        assert(fv.take(0) =~= Seq::<Seq<char>>::empty());
        while i < n
            invariant
                0 <= i <= n,
                n == folders@.len(),
                fv == folders@.map_values(|f: String| f@),
                self.metadata.wf(),
                self.metadata.ids() == old(self).metadata.ids(),
                self.metadata.paths() == old(self).metadata.paths(),
                self.metadata.folders() == folders_added(start, fv.take(i as int)),
                self.store == old(self).store,
                self.needs_save == old(self).needs_save,
                self.pending_folders@.len() == 0,
                self.is_indexing,
                self.last_index_message is None,
                self.query_image_path == old(self).query_image_path,
                self.is_searching == old(self).is_searching,
                self.start_indexing == old(self).start_indexing,
                self.start_search == old(self).start_search,
                self.top_n == old(self).top_n,
                self.clear_index == old(self).clear_index,
                self.switch_tab == old(self).switch_tab,
                self.model_loaded == old(self).model_loaded,
                self.active_tab == old(self).active_tab,
            decreases n - i,
        {
            assert(fv.take(i + 1).drop_last() =~= fv.take(i as int));
            assert(fv.take(i + 1).last() == folders@[i as int]@);
            self.metadata.add_folder(folders[i].clone());
            i = i + 1;
        }
        assert(fv.take(n as int) =~= fv);
        Some(IndexJob { folders, already_indexed, first_id })
    }

    /// Records the images of a finished indexing run: each embedding is
    /// stored and each path recorded, in order.
    pub fn finish_indexing(&mut self, images: Vec<(usize, String, Vec<u32>)>)
        requires
            old(self).metadata.wf(),
            forall|k: int| 0 <= k < images@.len() ==> (#[trigger] images@[k]).0 < usize::MAX,
        ensures
            final(self).metadata.wf(),
            final(self).metadata.ids() == ids_recorded(
                old(self).metadata.ids(),
                image_pairs(images@),
            ),
            final(self).metadata.paths() == paths_recorded(
                old(self).metadata.paths(),
                image_pairs(images@),
            ),
            final(self).metadata.folders() == old(self).metadata.folders(),
            final(self).store.ids() == old(self).store.ids() + image_ids(images@),
            final(self).store.embeddings() == old(self).store.embeddings()
                + image_embeddings(images@),
            final(self).store.spec_next_id() == next_id_after(
                old(self).store.spec_next_id(),
                image_ids(images@),
            ),
            old(self).store.wf() ==> final(self).store.wf(),
            !final(self).is_indexing,
            final(self).last_index_message == Some(IndexNotice::Indexed(images@.len() as usize)),
            final(self).needs_save,
            final(self).pending_folders == old(self).pending_folders,
            final(self).query_image_path == old(self).query_image_path,
            final(self).is_searching == old(self).is_searching,
            final(self).start_indexing == old(self).start_indexing,
            final(self).start_search == old(self).start_search,
            final(self).top_n == old(self).top_n,
            final(self).clear_index == old(self).clear_index,
            final(self).switch_tab == old(self).switch_tab,
            final(self).model_loaded == old(self).model_loaded,
            final(self).active_tab == old(self).active_tab,
    {
        let count = images.len();
        let ghost all = images@;
        let ghost pairs = image_pairs(all);
        let ghost ids0 = self.metadata.ids();
        let ghost paths0 = self.metadata.paths();
        let ghost sids0 = self.store.ids();
        let ghost sembs0 = self.store.embeddings();
        let ghost next0 = self.store.spec_next_id();
        let ghost wf0 = self.store.wf();
        assert(pairs.take(0) =~= Seq::<(usize, Seq<char>)>::empty());
        assert(image_ids(all).take(0) =~= Seq::<usize>::empty());
        assert(image_embeddings(all).take(0) =~= Seq::<Seq<u32>>::empty());
        assert(sids0 + image_ids(all).take(0) =~= sids0);
        assert(sembs0 + image_embeddings(all).take(0) =~= sembs0);
        for e in it: images.into_iter()
            invariant
                it.seq() == all,
                pairs == image_pairs(all),
                forall|k: int| 0 <= k < all.len() ==> (#[trigger] all[k]).0 < usize::MAX,
                self.metadata.wf(),
                self.metadata.ids() == ids_recorded(ids0, pairs.take(it.index() as int)),
                self.metadata.paths() == paths_recorded(paths0, pairs.take(it.index() as int)),
                self.metadata.folders() == old(self).metadata.folders(),
                self.store.ids() == sids0 + image_ids(all).take(it.index() as int),
                self.store.embeddings() == sembs0 + image_embeddings(all).take(it.index() as int),
                self.store.spec_next_id() == next_id_after(
                    next0,
                    image_ids(all).take(it.index() as int),
                ),
                wf0 ==> self.store.wf(),
                self.pending_folders == old(self).pending_folders,
                self.query_image_path == old(self).query_image_path,
                self.is_searching == old(self).is_searching,
                self.start_indexing == old(self).start_indexing,
                self.start_search == old(self).start_search,
                self.top_n == old(self).top_n,
                self.clear_index == old(self).clear_index,
                self.switch_tab == old(self).switch_tab,
                self.model_loaded == old(self).model_loaded,
                self.active_tab == old(self).active_tab,
        {
            let ghost idx = it.index() as int;
            proof {
                assert(e == all[idx]);
                assert(pairs.take(idx + 1).drop_last() =~= pairs.take(idx));
                assert(pairs.take(idx + 1).last() == (e.0, e.1@));
                let ids = image_ids(all);
                assert(ids.take(idx + 1).drop_last() =~= ids.take(idx));
                assert(ids.take(idx + 1).last() == e.0);
                assert(sids0 + ids.take(idx + 1) =~= (sids0 + ids.take(idx)).push(e.0));
                let embs = image_embeddings(all);
                assert(sembs0 + embs.take(idx + 1) =~= (sembs0 + embs.take(idx)).push(e.2@));
            }
            let (id, path, embedding) = e;
            self.store.insert(id, embedding);
            self.metadata.insert(id, path);
        }
        proof {
            assert(pairs.take(all.len() as int) =~= pairs);
            assert(image_ids(all).take(all.len() as int) =~= image_ids(all));
            assert(image_embeddings(all).take(all.len() as int) =~= image_embeddings(all));
        }
        self.is_indexing = false;
        self.last_index_message = Some(IndexNotice::Indexed(count));
        self.needs_save = true;
    }

    /// Records that an indexing run failed with `err`.
    pub fn fail_indexing(&mut self, err: String)
        ensures
            !final(self).is_indexing,
            final(self).last_index_message == Some(IndexNotice::Failed(err)),
            final(self).metadata == old(self).metadata,
            final(self).store == old(self).store,
            final(self).pending_folders == old(self).pending_folders,
            final(self).query_image_path == old(self).query_image_path,
            final(self).is_searching == old(self).is_searching,
            final(self).start_indexing == old(self).start_indexing,
            final(self).start_search == old(self).start_search,
            final(self).top_n == old(self).top_n,
            final(self).needs_save == old(self).needs_save,
            final(self).clear_index == old(self).clear_index,
            final(self).switch_tab == old(self).switch_tab,
            final(self).model_loaded == old(self).model_loaded,
            final(self).active_tab == old(self).active_tab,
    {
        self.is_indexing = false;
        self.last_index_message = Some(IndexNotice::Failed(err));
    }

    /// Starts a search for the query image: none without a query image or
    /// without a model.
    pub fn begin_search(&mut self) -> (r: Option<SearchJob>)
        requires
            old(self).metadata.wf(),
        ensures
            match r {
                Some(job) => {
                    &&& old(self).query_image_path matches Some(q) && job.query == q
                    &&& old(self).model_loaded
                    &&& job.top_n == old(self).top_n
                    &&& job.metadata.wf()
                    &&& job.metadata.ids() == old(self).metadata.ids()
                    &&& job.metadata.paths() == old(self).metadata.paths()
                    &&& job.metadata.folders() == old(self).metadata.folders()
                    &&& job.store.ids() == old(self).store.ids()
                    &&& job.store.embeddings() == old(self).store.embeddings()
                    &&& job.store.spec_next_id() == old(self).store.spec_next_id()
                    &&& final(self).is_searching
                },
                None => {
                    &&& (old(self).query_image_path is None || !old(self).model_loaded)
                    &&& final(self).is_searching == old(self).is_searching
                },
            },
            final(self).metadata == old(self).metadata,
            final(self).store == old(self).store,
            final(self).pending_folders == old(self).pending_folders,
            final(self).is_indexing == old(self).is_indexing,
            final(self).last_index_message == old(self).last_index_message,
            final(self).query_image_path == old(self).query_image_path,
            final(self).start_indexing == old(self).start_indexing,
            final(self).start_search == old(self).start_search,
            final(self).top_n == old(self).top_n,
            final(self).needs_save == old(self).needs_save,
            final(self).clear_index == old(self).clear_index,
            final(self).switch_tab == old(self).switch_tab,
            final(self).model_loaded == old(self).model_loaded,
            final(self).active_tab == old(self).active_tab,
    {
        let query = match &self.query_image_path {
            Some(p) => p.clone(),
            None => {
                return None;
            },
        };
        if !self.model_loaded {
            return None;
        }
        self.is_searching = true;
        let metadata = self.metadata.snapshot();
        let store = self.store.snapshot();
        Some(SearchJob { query, top_n: self.top_n, metadata, store })
    }

    /// Records that a search has finished, with results or with an error.
    pub fn end_search(&mut self)
        ensures
            !final(self).is_searching,
            final(self).metadata == old(self).metadata,
            final(self).store == old(self).store,
            final(self).pending_folders == old(self).pending_folders,
            final(self).is_indexing == old(self).is_indexing,
            final(self).last_index_message == old(self).last_index_message,
            final(self).query_image_path == old(self).query_image_path,
            final(self).start_indexing == old(self).start_indexing,
            final(self).start_search == old(self).start_search,
            final(self).top_n == old(self).top_n,
            final(self).needs_save == old(self).needs_save,
            final(self).clear_index == old(self).clear_index,
            final(self).switch_tab == old(self).switch_tab,
            final(self).model_loaded == old(self).model_loaded,
            final(self).active_tab == old(self).active_tab,
    {
        self.is_searching = false;
    }

    /// Empties the index and the store, reports it, and asks for a save.
    pub fn clear_all(&mut self)
        ensures
            final(self).metadata.wf(),
            final(self).metadata.ids() == Map::<usize, Seq<char>>::empty(),
            final(self).metadata.paths() == Map::<PathKey, (Seq<char>, usize)>::empty(),
            final(self).metadata.folders() == Seq::<Seq<char>>::empty(),
            final(self).store.wf(),
            final(self).store.ids() == Seq::<usize>::empty(),
            final(self).store.embeddings() == Seq::<Seq<u32>>::empty(),
            final(self).store.spec_next_id() == 0,
            final(self).last_index_message == Some(IndexNotice::Cleared),
            final(self).needs_save,
            final(self).pending_folders == old(self).pending_folders,
            final(self).is_indexing == old(self).is_indexing,
            final(self).query_image_path == old(self).query_image_path,
            final(self).is_searching == old(self).is_searching,
            final(self).start_indexing == old(self).start_indexing,
            final(self).start_search == old(self).start_search,
            final(self).top_n == old(self).top_n,
            final(self).clear_index == old(self).clear_index,
            final(self).switch_tab == old(self).switch_tab,
            final(self).model_loaded == old(self).model_loaded,
            final(self).active_tab == old(self).active_tab,
    {
        self.metadata.clear();
        self.store.clear();
        self.last_index_message = Some(IndexNotice::Cleared);
        self.needs_save = true;
    }

    /// The decisions of one frame, in order: start the requested indexing
    /// run, start the requested search, clear the index if asked, save if
    /// asked, and switch to the requested tab.
    pub fn take_frame_actions(&mut self) -> (r: FrameActions)
        requires
            old(self).metadata.wf(),
        ensures
            final(self).metadata.wf(),
            !final(self).start_indexing,
            !final(self).start_search,
            !final(self).clear_index,
            !final(self).needs_save,
            final(self).switch_tab is None,
            final(self).active_tab == match old(self).switch_tab {
                Some(t) => t,
                None => old(self).active_tab,
            },
            r.cleared == old(self).clear_index,
            r.save == (old(self).needs_save || old(self).clear_index),
            r.index_job is Some <==> (old(self).start_indexing && old(self).model_loaded
                && old(self).pending_folders@.len() > 0),
            r.index_job matches Some(job) ==> {
                &&& job.folders@ == old(self).pending_folders@
                &&& lists_paths(
                    job.already_indexed@.map_values(|p: String| p@),
                    old(self).metadata.paths(),
                )
                &&& job.first_id == old(self).store.spec_next_id()
            },
            r.search_job is Some <==> (old(self).start_search && old(self).query_image_path is Some
                && old(self).model_loaded),
            r.search_job matches Some(job) ==> {
                &&& old(self).query_image_path == Some(job.query)
                &&& job.top_n == old(self).top_n
                &&& job.metadata.wf()
                &&& job.metadata.ids() == old(self).metadata.ids()
                &&& job.metadata.paths() == old(self).metadata.paths()
                &&& job.metadata.folders() == if r.index_job is Some {
                    folders_added(
                        old(self).metadata.folders(),
                        old(self).pending_folders@.map_values(|f: String| f@),
                    )
                } else {
                    old(self).metadata.folders()
                }
                &&& job.store.ids() == old(self).store.ids()
                &&& job.store.embeddings() == old(self).store.embeddings()
                &&& job.store.spec_next_id() == old(self).store.spec_next_id()
            },
            final(self).pending_folders@ == if old(self).start_indexing && old(self).model_loaded {
                Seq::<String>::empty()
            } else {
                old(self).pending_folders@
            },
            final(self).is_indexing == (old(self).is_indexing || r.index_job is Some),
            final(self).is_searching == (old(self).is_searching || r.search_job is Some),
            final(self).query_image_path == old(self).query_image_path,
            final(self).top_n == old(self).top_n,
            final(self).model_loaded == old(self).model_loaded,
            old(self).clear_index ==> {
                &&& final(self).metadata.ids() == Map::<usize, Seq<char>>::empty()
                &&& final(self).metadata.paths() == Map::<PathKey, (Seq<char>, usize)>::empty()
                &&& final(self).metadata.folders() == Seq::<Seq<char>>::empty()
                &&& final(self).store.wf()
                &&& final(self).store.ids() == Seq::<usize>::empty()
                &&& final(self).store.embeddings() == Seq::<Seq<u32>>::empty()
                &&& final(self).store.spec_next_id() == 0
                &&& final(self).last_index_message == Some(IndexNotice::Cleared)
            },
            !old(self).clear_index ==> {
                &&& final(self).metadata.ids() == old(self).metadata.ids()
                &&& final(self).metadata.paths() == old(self).metadata.paths()
                &&& final(self).metadata.folders() == if r.index_job is Some {
                    folders_added(
                        old(self).metadata.folders(),
                        old(self).pending_folders@.map_values(|f: String| f@),
                    )
                } else {
                    old(self).metadata.folders()
                }
                &&& final(self).store == old(self).store
                &&& final(self).last_index_message == if old(self).start_indexing
                    && !old(self).model_loaded {
                    Some(IndexNotice::ModelNotLoaded)
                } else if r.index_job is Some {
                    None
                } else {
                    old(self).last_index_message
                }
            },
    {
        let mut index_job: Option<IndexJob> = None;
        if self.start_indexing {
            self.start_indexing = false;
            index_job = self.begin_indexing();
        }
        let mut search_job: Option<SearchJob> = None;
        if self.start_search {
            self.start_search = false;
            search_job = self.begin_search();
        }
        let cleared = self.clear_index;
        if self.clear_index {
            self.clear_index = false;
            self.clear_all();
        }
        let save = self.needs_save;
        if self.needs_save {
            self.needs_save = false;
        }
        match self.switch_tab {
            Some(tab) => {
                self.switch_tab = None;
                self.active_tab = tab;
            },
            None => {},
        }
        FrameActions { index_job, search_job, cleared, save }
    }
}

} // verus!
