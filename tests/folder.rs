use msg_load_folder::{
    classify, load_assets_from_folder, AssetFolder, AssetFolderHandle, AssetId, FileOutcome,
    FolderAction, FolderMember, LoadState, PassResult,
};

const EXT: &str = ".spell.ron";

fn id(s: &str) -> AssetId {
    AssetId::from(s.to_string())
}

fn member(path: &str, handle: u32, state: Option<LoadState>, content_ready: bool) -> FolderMember<u32> {
    FolderMember { path: path.to_string(), handle, state, content_ready }
}

fn started() -> AssetFolderHandle<u8> {
    let mut folder = AssetFolderHandle::new();
    folder.start_discovery(7);
    folder
}

#[test]
fn test_asset_folder_handle_states() {
    let mut handle: AssetFolderHandle<u8> = AssetFolderHandle::new();

    assert!(!handle.is_loading());
    assert!(!handle.is_loaded());

    handle.handle = Some(0);
    assert!(handle.is_loading());
    assert!(!handle.is_loaded());

    handle.loaded = true;
    assert!(!handle.is_loading());
    assert!(handle.is_loaded());
}

#[test]
fn test_folder_asset_library() {
    let mut library: AssetFolder<u32> = AssetFolder::new();

    assert!(library.is_empty());
    assert_eq!(library.len(), 0);
    assert!(!library.is_ready());

    let key = id("1");
    library.insert(key.duplicate(), 0);

    assert!(!library.is_empty());
    assert_eq!(library.len(), 1);
    assert!(library.is_ready());
    assert!(library.contains(&key));
    assert!(library.get(&key).is_some());

    let keys: Vec<_> = library.keys();
    assert_eq!(keys.len(), 1);

    let iter_count = library.iter().len();
    assert_eq!(iter_count, 1);
}

#[test]
fn insert_replaces_and_returns_previous() {
    let mut library: AssetFolder<u32> = AssetFolder::default();
    assert_eq!(library.insert(id("a"), 1), None);
    assert_eq!(library.insert(id("b"), 2), None);
    assert_eq!(library.insert(id("a"), 3), Some(1));
    assert_eq!(library.len(), 2);
    assert_eq!(library.get(&id("a")), Some(&3));
    assert_eq!(library.get(&id("b")), Some(&2));
    assert_eq!(library.get(&id("c")), None);
    let mut entries: Vec<(String, u32)> = library.iter().into_iter().map(|(k, h)| (k.0, *h)).collect();
    entries.sort();
    assert_eq!(entries, vec![("a".to_string(), 3), ("b".to_string(), 2)]);
}

#[test]
fn classify_each_report() {
    assert_eq!(classify(Some(LoadState::Loaded), true), FileOutcome::Ready);
    assert_eq!(classify(Some(LoadState::Loaded), false), FileOutcome::Pending);
    assert_eq!(classify(Some(LoadState::Failed), true), FileOutcome::Failed);
    assert_eq!(classify(Some(LoadState::Loading), true), FileOutcome::Pending);
    assert_eq!(classify(Some(LoadState::NotLoaded), false), FileOutcome::Pending);
    assert_eq!(classify(None, true), FileOutcome::Pending);
}

#[test]
fn discovery_is_requested_first() {
    let mut folder: AssetFolderHandle<u8> = AssetFolderHandle::default();
    let mut library: AssetFolder<u32> = AssetFolder::new();
    assert_eq!(folder.next_action(), FolderAction::RequestDiscovery);
    let members = vec![member("a.spell.ron", 1, Some(LoadState::Loaded), true)];
    assert_eq!(load_assets_from_folder(&mut folder, &mut library, Some(members), EXT), PassResult::NotStarted);
    assert!(library.is_empty());
    folder.start_discovery(3);
    folder.start_discovery(4);
    assert_eq!(folder.handle, Some(3));
    assert_eq!(folder.next_action(), FolderAction::Reconcile);
    assert!(folder.is_loading());
    assert_eq!(load_assets_from_folder(&mut folder, &mut library, None, EXT), PassResult::FolderPending);
    assert!(!folder.is_loaded());
}

#[test]
fn end_to_end_spell_folder() {
    let mut folder = started();
    let mut library: AssetFolder<u32> = AssetFolder::new();
    let members = vec![
        member("a.spell.ron", 1, Some(LoadState::Loaded), true),
        member("b.spell.ron", 2, Some(LoadState::Failed), false),
        member(".c.spell.ron", 3, Some(LoadState::Loaded), true),
        member("_d.spell.ron", 4, Some(LoadState::Loaded), true),
    ];
    let r = load_assets_from_folder(&mut folder, &mut library, Some(members), EXT);
    assert_eq!(r, PassResult::Completed { loaded: 1, failed: 1 });
    assert_eq!(library.len(), 1);
    assert!(library.contains(&id("a")));
    assert_eq!(library.get(&id("a")), Some(&1));
    assert_eq!(folder.failed_paths, vec!["b.spell.ron".to_string()]);
    assert!(folder.is_loaded());
    assert_eq!(folder.next_action(), FolderAction::Idle);
}

#[test]
fn loaded_folder_is_left_alone() {
    let mut folder = started();
    let mut library: AssetFolder<u32> = AssetFolder::new();
    let members = vec![member("a.spell.ron", 1, Some(LoadState::Loaded), true)];
    load_assets_from_folder(&mut folder, &mut library, Some(members), EXT);
    assert!(folder.is_loaded());
    for _ in 0..3 {
        let more = vec![
            member("a.spell.ron", 9, Some(LoadState::Loaded), true),
            member("z.spell.ron", 8, Some(LoadState::Failed), true),
        ];
        let r = load_assets_from_folder(&mut folder, &mut library, Some(more), EXT);
        assert_eq!(r, PassResult::AlreadyLoaded);
        assert_eq!(library.len(), 1);
        assert_eq!(library.get(&id("a")), Some(&1));
        assert!(folder.failed_paths.is_empty());
        assert!(folder.is_loaded());
    }
}

#[test]
fn pending_files_keep_the_folder_loading() {
    let mut folder = started();
    let mut library: AssetFolder<u32> = AssetFolder::new();
    let first = vec![
        member("a.spell.ron", 1, Some(LoadState::Loaded), true),
        member("b.spell.ron", 2, Some(LoadState::Loading), false),
        member("c.spell.ron", 3, Some(LoadState::Loaded), false),
        member("d.spell.ron", 4, None, false),
        member("e.spell.ron", 5, Some(LoadState::NotLoaded), false),
    ];
    let r = load_assets_from_folder(&mut folder, &mut library, Some(first), EXT);
    assert_eq!(r, PassResult::Pending { pending: 4 });
    assert!(folder.is_loading());
    assert_eq!(library.len(), 1);

    let second = vec![
        member("a.spell.ron", 1, Some(LoadState::Loaded), true),
        member("b.spell.ron", 2, Some(LoadState::Loaded), true),
        member("c.spell.ron", 3, Some(LoadState::Loaded), true),
        member("d.spell.ron", 4, Some(LoadState::Failed), false),
        member("e.spell.ron", 5, Some(LoadState::Failed), false),
    ];
    let r = load_assets_from_folder(&mut folder, &mut library, Some(second), EXT);
    assert_eq!(r, PassResult::Completed { loaded: 3, failed: 2 });
    assert_eq!(library.len(), 3);
    assert_eq!(folder.failed_paths.len(), 2);
    assert!(folder.is_loaded());
}

#[test]
fn failed_file_is_never_tried_again() {
    let mut folder = started();
    let mut library: AssetFolder<u32> = AssetFolder::new();
    let first = vec![
        member("a.spell.ron", 1, Some(LoadState::Failed), false),
        member("b.spell.ron", 2, Some(LoadState::Loading), false),
    ];
    let r = load_assets_from_folder(&mut folder, &mut library, Some(first), EXT);
    assert_eq!(r, PassResult::Pending { pending: 1 });
    assert_eq!(folder.failed_paths, vec!["a.spell.ron".to_string()]);
    assert!(!folder.needs_poll(&library, &"a.spell.ron".to_string(), EXT));
    assert!(folder.needs_poll(&library, &"b.spell.ron".to_string(), EXT));

    let second = vec![
        member("a.spell.ron", 1, Some(LoadState::Loaded), true),
        member("b.spell.ron", 2, Some(LoadState::Loaded), true),
    ];
    let r = load_assets_from_folder(&mut folder, &mut library, Some(second), EXT);
    assert_eq!(r, PassResult::Completed { loaded: 1, failed: 1 });
    assert!(!library.contains(&id("a")));
    assert!(library.contains(&id("b")));
    assert_eq!(folder.failed_paths, vec!["a.spell.ron".to_string()]);
    assert!(!folder.needs_poll(&library, &"b.spell.ron".to_string(), EXT));
}

#[test]
fn first_ready_file_wins_a_collision() {
    let mut folder = started();
    let mut library: AssetFolder<u32> = AssetFolder::new();
    let members = vec![
        member("one/fire.spell.ron", 1, Some(LoadState::Loaded), true),
        member("two/fire.spell.ron", 2, Some(LoadState::Loaded), true),
    ];
    let r = load_assets_from_folder(&mut folder, &mut library, Some(members), EXT);
    assert_eq!(r, PassResult::Completed { loaded: 2, failed: 0 });
    assert_eq!(library.len(), 1);
    assert_eq!(library.get(&id("fire")), Some(&1));
}

#[test]
fn collision_across_passes_keeps_the_earlier_entry() {
    let mut folder = started();
    let mut library: AssetFolder<u32> = AssetFolder::new();
    let first = vec![
        member("one/fire.spell.ron", 1, Some(LoadState::Loading), false),
        member("two/fire.spell.ron", 2, Some(LoadState::Loaded), true),
    ];
    let r = load_assets_from_folder(&mut folder, &mut library, Some(first), EXT);
    assert_eq!(r, PassResult::Pending { pending: 1 });
    let second = vec![
        member("one/fire.spell.ron", 1, Some(LoadState::Loaded), true),
        member("two/fire.spell.ron", 2, Some(LoadState::Loaded), true),
    ];
    let r = load_assets_from_folder(&mut folder, &mut library, Some(second), EXT);
    assert_eq!(r, PassResult::Completed { loaded: 2, failed: 0 });
    assert_eq!(library.len(), 1);
    assert_eq!(library.get(&id("fire")), Some(&2));
}

#[test]
fn empty_folder_is_loaded_at_once() {
    let mut folder = started();
    let mut library: AssetFolder<u32> = AssetFolder::new();
    let r = load_assets_from_folder(&mut folder, &mut library, Some(Vec::new()), EXT);
    assert_eq!(r, PassResult::Completed { loaded: 0, failed: 0 });
    assert!(folder.is_loaded());
    assert!(library.is_empty());
}

#[test]
fn folder_without_candidates_is_loaded_at_once() {
    let mut folder = started();
    let mut library: AssetFolder<u32> = AssetFolder::new();
    let members = vec![
        member("notes.txt", 1, None, false),
        member(".c.spell.ron", 2, None, false),
        member("_d.spell.ron", 3, Some(LoadState::Loading), false),
    ];
    let r = load_assets_from_folder(&mut folder, &mut library, Some(members), EXT);
    assert_eq!(r, PassResult::Completed { loaded: 0, failed: 0 });
    assert!(folder.is_loaded());
}

#[test]
fn settled_folder_converges_with_counts() {
    let mut folder = started();
    let mut library: AssetFolder<u32> = AssetFolder::new();
    let members = vec![
        member("a.spell.ron", 1, Some(LoadState::Loaded), true),
        member("b.spell.ron", 2, Some(LoadState::Failed), false),
        member("c.spell.ron", 3, Some(LoadState::Loaded), true),
        member("d.spell.ron", 4, Some(LoadState::Failed), false),
        member("e.spell.ron", 5, Some(LoadState::Loaded), true),
    ];
    let r = load_assets_from_folder(&mut folder, &mut library, Some(members), EXT);
    assert_eq!(r, PassResult::Completed { loaded: 3, failed: 2 });
    assert_eq!(library.len(), 3);
    assert_eq!(folder.failed_paths.len(), 2);
    let mut keys: Vec<String> = library.keys().into_iter().map(|k| k.0).collect();
    keys.sort();
    assert_eq!(keys, vec!["a".to_string(), "c".to_string(), "e".to_string()]);
}

#[test]
fn index_and_failures_only_grow() {
    let mut folder = started();
    let mut library: AssetFolder<u32> = AssetFolder::new();
    let states = [
        [Some(LoadState::NotLoaded), Some(LoadState::NotLoaded), Some(LoadState::NotLoaded)],
        [Some(LoadState::Loaded), Some(LoadState::Loading), Some(LoadState::Loading)],
        [Some(LoadState::Loaded), Some(LoadState::Failed), Some(LoadState::Loading)],
        [Some(LoadState::Loaded), Some(LoadState::Failed), Some(LoadState::Loaded)],
    ];
    let mut last_len = 0;
    let mut last_failed = 0;
    for row in states.iter() {
        let members = vec![
            member("a.spell.ron", 1, row[0], true),
            member("b.spell.ron", 2, row[1], true),
            member("c.spell.ron", 3, row[2], true),
        ];
        load_assets_from_folder(&mut folder, &mut library, Some(members), EXT);
        assert!(library.len() >= last_len);
        assert!(folder.failed_paths.len() >= last_failed);
        last_len = library.len();
        last_failed = folder.failed_paths.len();
    }
    assert!(folder.is_loaded());
    assert_eq!(last_len, 2);
    assert_eq!(last_failed, 1);
}

#[test]
fn only_open_candidates_need_polling() {
    let mut folder = started();
    let mut library: AssetFolder<u32> = AssetFolder::new();
    library.insert(id("a"), 1);
    folder.failed_paths.push("b.spell.ron".to_string());
    assert!(!folder.needs_poll(&library, &"a.spell.ron".to_string(), EXT));
    assert!(!folder.needs_poll(&library, &"other/a.spell.ron".to_string(), EXT));
    assert!(!folder.needs_poll(&library, &"b.spell.ron".to_string(), EXT));
    assert!(folder.needs_poll(&library, &"other/b.spell.ron".to_string(), EXT));
    assert!(!folder.needs_poll(&library, &"_c.spell.ron".to_string(), EXT));
    assert!(!folder.needs_poll(&library, &"c.txt".to_string(), EXT));
    assert!(folder.needs_poll(&library, &"c.spell.ron".to_string(), EXT));
    assert!(folder.is_failed(&"b.spell.ron".to_string()));
    assert!(!folder.is_failed(&"other/b.spell.ron".to_string()));
}

#[test]
fn assets_lists_each_entry_once() {
    let mut library: AssetFolder<u32> = AssetFolder::new();
    library.insert(id("x"), 10);
    library.insert(id("y"), 20);
    library.insert(id("x"), 30);
    let mut entries: Vec<(String, u32)> = library.assets().iter().map(|(k, h)| (k.0.clone(), *h)).collect();
    entries.sort();
    assert_eq!(entries, vec![("x".to_string(), 30), ("y".to_string(), 20)]);
}
