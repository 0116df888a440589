use neptune_lens::app::{AppState, IndexNotice, Tab};
use neptune_lens::db::metadata::ImageMetadata;
use neptune_lens::db::vector_store::VectorStore;

fn state(model_loaded: bool) -> AppState {
    AppState::new(ImageMetadata::new(), VectorStore::new(), model_loaded)
}

#[test]
fn starts_on_the_dashboard() {
    let s = state(true);
    assert_eq!(s.active_tab, Tab::Dashboard);
    assert_eq!(s.top_n, 20);
    assert!(!s.is_indexing && !s.is_searching && !s.needs_save);
    assert_eq!(s.vector_store_len(), 0);
}

#[test]
fn indexing_without_a_model_reports_it() {
    let mut s = state(false);
    s.pending_folders.push(String::from("/p"));
    assert!(s.begin_indexing().is_none());
    assert!(matches!(s.last_index_message, Some(IndexNotice::ModelNotLoaded)));
    assert_eq!(s.pending_folders.len(), 1);
    assert!(!s.is_indexing);
}

#[test]
fn indexing_without_folders_does_nothing() {
    let mut s = state(true);
    assert!(s.begin_indexing().is_none());
    assert!(s.last_index_message.is_none());
    assert!(!s.is_indexing);
}

#[test]
fn indexing_run_takes_the_pending_folders() {
    let mut s = state(true);
    s.store.insert(6, vec![]);
    s.metadata.insert(6, String::from("/old/x.jpg"));
    s.pending_folders.push(String::from("/p"));
    s.pending_folders.push(String::from("/q"));
    let job = s.begin_indexing().unwrap();
    assert_eq!(job.folders, vec![String::from("/p"), String::from("/q")]);
    assert_eq!(job.already_indexed, vec![String::from("/old/x.jpg")]);
    assert_eq!(job.first_id, 7);
    assert!(s.pending_folders.is_empty());
    assert!(s.is_indexing);
    assert_eq!(s.metadata.indexed_folders(), &vec![String::from("/p"), String::from("/q")]);
}

#[test]
fn finished_run_is_recorded() {
    let mut s = state(true);
    s.is_indexing = true;
    s.finish_indexing(vec![
        (0, String::from("/p/a.jpg"), vec![1, 2]),
        (1, String::from("/p/b.jpg"), vec![3, 4]),
    ]);
    assert!(!s.is_indexing);
    assert!(s.needs_save);
    assert!(matches!(s.last_index_message, Some(IndexNotice::Indexed(2))));
    assert_eq!(s.vector_store_len(), 2);
    assert_eq!(s.store.next_id(), 2);
    assert_eq!(s.metadata.get_id("/p/b.jpg"), Some(1));
    assert_eq!(s.metadata.get_path(0), Some(String::from("/p/a.jpg")));
}

#[test]
fn failed_run_is_reported() {
    let mut s = state(true);
    s.is_indexing = true;
    s.fail_indexing(String::from("disk gone"));
    assert!(!s.is_indexing);
    match &s.last_index_message {
        Some(IndexNotice::Failed(e)) => assert_eq!(e, "disk gone"),
        _ => panic!("expected a failure notice"),
    }
}

#[test]
fn search_needs_a_query_and_a_model() {
    let mut s = state(true);
    assert!(s.begin_search().is_none());
    s.query_image_path = Some(String::from("/q.jpg"));
    s.top_n = 7;
    let job = s.begin_search().unwrap();
    assert_eq!(job.query, "/q.jpg");
    assert_eq!(job.top_n, 7);
    assert!(s.is_searching);
    s.end_search();
    assert!(!s.is_searching);

    let mut t = state(false);
    t.query_image_path = Some(String::from("/q.jpg"));
    assert!(t.begin_search().is_none());
    assert!(!t.is_searching);
}

#[test]
fn clearing_empties_index_and_store() {
    let mut s = state(true);
    s.store.insert(3, vec![1]);
    s.metadata.insert(3, String::from("/a.jpg"));
    s.metadata.add_folder(String::from("/"));
    s.clear_all();
    assert!(s.metadata.is_empty());
    assert_eq!(s.vector_store_len(), 0);
    assert_eq!(s.store.next_id(), 0);
    assert!(matches!(s.last_index_message, Some(IndexNotice::Cleared)));
    assert!(s.needs_save);
}

#[test]
fn frame_runs_the_requested_actions_in_order() {
    let mut s = state(true);
    s.pending_folders.push(String::from("/p"));
    s.start_indexing = true;
    s.query_image_path = Some(String::from("/q.jpg"));
    s.start_search = true;
    s.switch_tab = Some(Tab::Settings);
    let actions = s.take_frame_actions();
    assert!(actions.index_job.is_some());
    assert!(actions.search_job.is_some());
    assert!(!actions.cleared);
    assert!(!actions.save);
    assert!(!s.start_indexing && !s.start_search);
    assert_eq!(s.active_tab, Tab::Settings);
    assert!(s.switch_tab.is_none());
    assert!(s.is_indexing && s.is_searching);

    s.clear_index = true;
    let actions = s.take_frame_actions();
    assert!(actions.cleared);
    assert!(actions.save);
    assert!(s.metadata.indexed_folders().is_empty());
    assert!(!s.needs_save && !s.clear_index);

    s.needs_save = true;
    let actions = s.take_frame_actions();
    assert!(actions.save && !actions.cleared);
    assert!(actions.index_job.is_none() && actions.search_job.is_none());
}
