use std::sync::atomic::Ordering;

use wpaperd::filelist_cache::{invalidates, ChangeKind, FilelistCache, Listing, PathRequest};
use wpaperd::image_filter::{filter_images, is_image_path, DirEntry};
use wpaperd::wallpaper_info::Recursive;

fn file(path: &str) -> DirEntry {
    DirEntry { path: path.to_string(), is_dir: false }
}

fn dir(path: &str) -> DirEntry {
    DirEntry { path: path.to_string(), is_dir: true }
}

fn listing(path: &str, recursive: Recursive, entries: Vec<DirEntry>) -> Listing {
    Listing { path: path.to_string(), recursive, entries }
}

fn request(path: &str, recursive: Recursive, is_dir: bool) -> PathRequest {
    PathRequest { path: path.to_string(), recursive, is_dir }
}

fn lookup(cache: &FilelistCache, path: &str, recursive: Recursive) -> Vec<String> {
    cache.get(&path.to_string(), recursive).as_ref().clone()
}

#[test]
fn lookup_returns_only_images() {
    let mut cache = FilelistCache::new();
    assert!(cache.register("/wp".to_string(), Recursive::Off, true));
    cache.update_cache(vec![listing(
        "/wp",
        Recursive::Off,
        vec![dir("/wp"), file("/wp/a.png"), file("/wp/b.txt"), file("/wp/c.jpg")],
    )]);
    assert_eq!(lookup(&cache, "/wp", Recursive::Off), vec!["/wp/a.png", "/wp/c.jpg"]);
}

#[test]
fn directories_are_not_listed() {
    let entries = vec![dir("/wp/album.png"), file("/wp/album/x.png"), file("/wp/notes")];
    assert_eq!(filter_images(entries), vec!["/wp/album/x.png"]);
}

#[test]
fn image_classification_by_extension() {
    assert!(is_image_path(&"/a/b.png".to_string()));
    assert!(is_image_path(&"/a/b.JPG".to_string()));
    assert!(!is_image_path(&"/a/b.txt".to_string()));
    assert!(!is_image_path(&"/a/png".to_string()));
}

#[test]
fn register_twice_keeps_the_list() {
    let mut cache = FilelistCache::new();
    assert!(cache.register("/wp".to_string(), Recursive::On, true));
    cache.update_cache(vec![listing("/wp", Recursive::On, vec![file("/wp/a.png")])]);
    assert!(!cache.register("/wp".to_string(), Recursive::On, true));
    assert_eq!(cache.len(), 1);
    assert_eq!(lookup(&cache, "/wp", Recursive::On), vec!["/wp/a.png"]);
}

#[test]
fn same_path_other_recursion_is_another_entry() {
    let mut cache = FilelistCache::new();
    assert!(cache.register("/wp".to_string(), Recursive::On, true));
    assert!(cache.register("/wp".to_string(), Recursive::Off, true));
    assert_eq!(cache.len(), 2);
    cache.update_cache(vec![
        listing("/wp", Recursive::Off, vec![file("/wp/a.png")]),
        listing("/wp", Recursive::On, vec![file("/wp/a.png"), file("/wp/sub/b.png")]),
    ]);
    assert_eq!(lookup(&cache, "/wp", Recursive::Off), vec!["/wp/a.png"]);
    assert_eq!(lookup(&cache, "/wp", Recursive::On), vec!["/wp/a.png", "/wp/sub/b.png"]);
}

#[test]
fn nonexistent_path_is_skipped() {
    let mut cache = FilelistCache::new();
    assert!(!cache.register("/missing".to_string(), Recursive::Off, false));
    assert_eq!(cache.len(), 0);
    let changes = cache.update_paths(vec![request("/missing", Recursive::Off, false)]);
    assert!(changes.unwatch.is_empty());
    assert!(changes.watch.is_empty());
    let changes = cache.update_paths(vec![]);
    assert!(changes.unwatch.is_empty());
    assert_eq!(cache.len(), 0);
}

#[test]
fn update_paths_converges_to_the_requested_set() {
    let mut cache = FilelistCache::new();
    cache.update_paths(vec![
        request("/a", Recursive::Off, true),
        request("/b", Recursive::Off, true),
    ]);
    cache.update_cache(vec![listing("/b", Recursive::Off, vec![file("/b/x.png")])]);
    let changes = cache.update_paths(vec![
        request("/b", Recursive::Off, true),
        request("/c", Recursive::On, true),
        request("/d", Recursive::Off, false),
    ]);
    assert_eq!(changes.unwatch, vec!["/a"]);
    assert_eq!(changes.watch, vec![1]);
    assert_eq!(cache.len(), 2);
    assert_eq!(cache.position(&"/a".to_string(), Recursive::Off), None);
    assert_eq!(cache.position(&"/b".to_string(), Recursive::Off), Some(0));
    assert_eq!(cache.position(&"/c".to_string(), Recursive::On), Some(1));
    assert_eq!(cache.position(&"/d".to_string(), Recursive::Off), None);
    assert_eq!(lookup(&cache, "/b", Recursive::Off), vec!["/b/x.png"]);
    assert!(lookup(&cache, "/c", Recursive::On).is_empty());
    assert_eq!(cache.key_at(1), ("/c".to_string(), Recursive::On));
}

#[test]
fn update_paths_drops_a_root_that_is_gone() {
    let mut cache = FilelistCache::new();
    cache.update_paths(vec![request("/a", Recursive::Off, true)]);
    let changes = cache.update_paths(vec![request("/a", Recursive::Off, false)]);
    assert_eq!(changes.unwatch, vec!["/a"]);
    assert_eq!(cache.len(), 0);
}

#[test]
fn refresh_follows_the_outdated_flags() {
    let mut cache = FilelistCache::new();
    cache.register("/wp".to_string(), Recursive::Off, true);
    // a new entry is due for its first walk until one is installed
    assert_eq!(cache.outdated_paths(), vec![("/wp".to_string(), Recursive::Off)]);
    assert_eq!(cache.outdated_paths(), vec![("/wp".to_string(), Recursive::Off)]);
    cache.update_cache(vec![listing("/wp", Recursive::Off, vec![file("/wp/a.png")])]);
    assert!(cache.outdated_paths().is_empty());
    // a change reported by the watcher
    cache.outdated_flag(0).store(true, Ordering::Release);
    let due = cache.outdated_paths();
    assert_eq!(due, vec![("/wp".to_string(), Recursive::Off)]);
    cache.update_cache(vec![listing(
        "/wp",
        Recursive::Off,
        vec![file("/wp/a.png"), file("/wp/b.gif")],
    )]);
    assert_eq!(lookup(&cache, "/wp", Recursive::Off), vec!["/wp/a.png", "/wp/b.gif"]);
}

#[test]
fn snapshot_survives_a_refresh() {
    let mut cache = FilelistCache::new();
    cache.register("/wp".to_string(), Recursive::Off, true);
    cache.update_cache(vec![listing("/wp", Recursive::Off, vec![file("/wp/a.png")])]);
    let snapshot = cache.get(&"/wp".to_string(), Recursive::Off);
    cache.update_cache(vec![listing("/wp", Recursive::Off, vec![])]);
    assert_eq!(*snapshot, vec!["/wp/a.png"]);
    assert!(lookup(&cache, "/wp", Recursive::Off).is_empty());
}

#[test]
fn refresh_takes_the_first_listing_and_ignores_unknown_roots() {
    let mut cache = FilelistCache::new();
    cache.register("/wp".to_string(), Recursive::Off, true);
    cache.update_cache(vec![
        listing("/other", Recursive::Off, vec![file("/other/z.png")]),
        listing("/wp", Recursive::Off, vec![file("/wp/first.png")]),
        listing("/wp", Recursive::Off, vec![file("/wp/second.png")]),
    ]);
    assert_eq!(cache.len(), 1);
    assert_eq!(lookup(&cache, "/wp", Recursive::Off), vec!["/wp/first.png"]);
}

#[test]
fn a_path_kept_by_another_recursion_stays_watched() {
    let mut cache = FilelistCache::new();
    let changes = cache.update_paths(vec![
        request("/p", Recursive::Off, true),
        request("/p", Recursive::On, true),
    ]);
    // one watcher for the path
    assert_eq!(changes.watch, vec![0]);
    assert!(changes.unwatch.is_empty());
    let changes = cache.update_paths(vec![request("/p", Recursive::Off, true)]);
    assert!(changes.unwatch.is_empty());
    assert!(changes.watch.is_empty());
    assert_eq!(cache.len(), 1);
}

#[test]
fn a_path_is_unwatched_once() {
    let mut cache = FilelistCache::new();
    cache.update_paths(vec![
        request("/p", Recursive::Off, true),
        request("/p", Recursive::On, true),
        request("/q", Recursive::Off, true),
    ]);
    let changes = cache.update_paths(vec![request("/q", Recursive::Off, true)]);
    assert_eq!(changes.unwatch, vec!["/p"]);
    assert!(changes.watch.is_empty());
}

#[test]
fn a_path_switching_recursion_is_watched_again() {
    let mut cache = FilelistCache::new();
    cache.update_paths(vec![request("/p", Recursive::Off, true)]);
    let changes = cache.update_paths(vec![request("/p", Recursive::On, true)]);
    assert!(changes.unwatch.is_empty());
    assert_eq!(changes.watch, vec![0]);
    assert_eq!(cache.key_at(0), ("/p".to_string(), Recursive::On));
}

#[test]
fn entries_on_one_path_share_a_flag() {
    let mut cache = FilelistCache::new();
    cache.update_paths(vec![
        request("/p", Recursive::Off, true),
        request("/p", Recursive::On, true),
    ]);
    cache.update_cache(vec![
        listing("/p", Recursive::Off, vec![file("/p/a.png")]),
        listing("/p", Recursive::On, vec![file("/p/a.png")]),
    ]);
    cache.outdated_paths();
    assert!(cache.outdated_paths().is_empty());
    cache.outdated_flag(0).store(true, Ordering::Release);
    assert_eq!(
        cache.outdated_paths(),
        vec![("/p".to_string(), Recursive::Off), ("/p".to_string(), Recursive::On)]
    );
    assert!(cache.outdated_paths().is_empty());
}

#[test]
fn which_changes_invalidate() {
    assert!(invalidates(ChangeKind::Create));
    assert!(invalidates(ChangeKind::Remove));
    assert!(invalidates(ChangeKind::Modify));
    assert!(!invalidates(ChangeKind::Other));
}
