use std::sync::atomic::{AtomicBool, Ordering};
use std::sync::Arc;
use vstd::prelude::*;

use crate::image_filter::{
    all_images, filter_images, image_paths, lemma_image_paths_all_images, strings_view, DirEntry,
};
use crate::wallpaper_info::Recursive;

verus! {

/// The cached image list of one watched directory.
///
/// The list sits behind an `Arc` and is replaced as a whole, so a reader
/// holding a snapshot never sees a list being rebuilt. The `outdated` flag is
/// shared with the thread that watches the directory, which sets it on every
/// change; the refresh pass clears it. Entries on one path share one flag, as
/// a path has one watcher. `listed` tells whether a walk was ever installed.
pub struct Filelist {
    path: String,
    recursive: Recursive,
    filelist: Arc<Vec<String>>,
    outdated: Arc<AtomicBool>,
    listed: bool,
}

/// The kind of a change that a directory watcher reports.
#[derive(PartialEq, Eq, Structural, Clone, Copy, Debug)]
pub enum ChangeKind {
    Create,
    Remove,
    /// Also a rename.
    Modify,
    Other,
}

/// Whether a change of this kind makes a walk due. Which file changed does
/// not matter: notifications may be missed, so the whole root is walked.
pub fn invalidates(kind: ChangeKind) -> (r: bool)
    ensures
        r == (kind != ChangeKind::Other),
{
    match kind {
        ChangeKind::Other => false,
        _ => true,
    }
}

/// A directory that the configuration asks to be cached, and whether it is,
/// at the time of asking, an existing directory.
pub struct PathRequest {
    pub path: String,
    pub recursive: Recursive,
    pub is_dir: bool,
}

/// A fresh walk of one cached directory.
pub struct Listing {
    pub path: String,
    pub recursive: Recursive,
    pub entries: Vec<DirEntry>,
}

/// What the caller has to do with the file watcher after `update_paths`:
/// stop watching the `unwatch` paths, and watch the path of each entry of
/// `watch`, setting that entry's flag on a change.
pub struct WatchChanges {
    pub unwatch: Vec<String>,
    pub watch: Vec<usize>,
}

/// One image list for each registered (path, recursion) pair.
pub struct FilelistCache {
    cache: Vec<Filelist>,
}

impl Filelist {
    pub closed spec fn key(&self) -> (Seq<char>, Recursive) {
        (self.path@, self.recursive)
    }

    pub closed spec fn files(&self) -> Seq<Seq<char>> {
        strings_view(self.filelist@)
    }

    /// The flag that the watcher of the entry's path sets.
    pub closed spec fn flag(&self) -> Arc<AtomicBool> {
        self.outdated
    }

    /// Whether the entry's list comes from a walk.
    pub closed spec fn listed(&self) -> bool {
        self.listed
    }

    /// A new entry with an empty list, not listed yet, watched through
    /// `outdated`.
    fn new(path: String, recursive: Recursive, outdated: Arc<AtomicBool>) -> (r: Filelist)
        ensures
            r.key() == (path@, recursive),
            r.files() == Seq::<Seq<char>>::empty(),
            r.flag() == outdated,
            !r.listed(),
    {
        let r = Filelist { path, recursive, filelist: Arc::new(Vec::new()), outdated, listed: false };
        assert(r.files() =~= Seq::<Seq<char>>::empty());
        r
    }

    /// Replaces the list with the images of a fresh walk.
    fn populate(&mut self, entries: Vec<DirEntry>)
        ensures
            final(self).key() == old(self).key(),
            final(self).files() == image_paths(entries@),
            final(self).flag() == old(self).flag(),
            final(self).listed(),
    {
        self.filelist = Arc::new(filter_images(entries));
        self.listed = true;
    }
}

/// Whether some entry of `s` has the key `(path, recursive)`.
pub open spec fn has_key(s: Seq<Filelist>, path: Seq<char>, recursive: Recursive) -> bool {
    exists|i: int| 0 <= i < s.len() && #[trigger] s[i].key() == (path, recursive)
}

/// Whether some request asks for `(path, recursive)` and names an existing
/// directory.
pub open spec fn requested(reqs: Seq<PathRequest>, path: Seq<char>, recursive: Recursive) -> bool {
    exists|j: int|
        0 <= j < reqs.len() && #[trigger] reqs[j].path@ == path && reqs[j].recursive == recursive
            && reqs[j].is_dir
}

/// The list of the entry of `s` with the key `(path, recursive)`.
pub open spec fn files_in(s: Seq<Filelist>, path: Seq<char>, recursive: Recursive) -> Seq<Seq<char>> {
    let i = choose|i: int| 0 <= i < s.len() && #[trigger] s[i].key() == (path, recursive);
    s[i].files()
}

/// With distinct keys, the list of a key is that of the one entry holding it.
proof fn lemma_files_in(s: Seq<Filelist>, i: int)
    requires
        unique_keys(s),
        0 <= i < s.len(),
    ensures
        files_in(s, s[i].key().0, s[i].key().1) == s[i].files(),
{
    let k = choose|k: int| 0 <= k < s.len() && #[trigger] s[k].key() == s[i].key();
    assert(s[k].key() == s[i].key());
}

/// What holds of the entries of a cache.
pub open spec fn entries_wf(s: Seq<Filelist>) -> bool {
    &&& unique_keys(s)
    &&& forall|i: int| 0 <= i < s.len() ==> all_images(#[trigger] s[i].files())
    &&& forall|i: int, j: int|
        0 <= i < s.len() && 0 <= j < s.len() && #[trigger] s[i].key().0 == #[trigger] s[j].key().0
            ==> s[i].flag() == s[j].flag()
}

/// The entries of `s` have pairwise distinct keys.
pub open spec fn unique_keys(s: Seq<Filelist>) -> bool {
    forall|i: int, j: int|
        0 <= i < s.len() && 0 <= j < s.len() && i != j ==> #[trigger] s[i].key() != #[trigger] s[j].key()
}

/// Relies on `Arc::clone`: the clone points at the same value.
#[verifier::external_body]
fn share<T>(a: &Arc<T>) -> (r: Arc<T>)
    ensures
        r == *a,
{
    a.clone()
}

impl FilelistCache {
    /// The cached entries, in the order of registration.
    pub closed spec fn entries(&self) -> Seq<Filelist> {
        self.cache@
    }

    /// No two entries share a key, every cached path is an image, and the
    /// entries on one path share one flag.
    pub open spec fn wf(&self) -> bool {
        entries_wf(self.entries())
    }

    pub open spec fn contains(&self, path: Seq<char>, recursive: Recursive) -> bool {
        has_key(self.entries(), path, recursive)
    }

    /// The list cached for a registered pair.
    pub open spec fn files_of(&self, path: Seq<char>, recursive: Recursive) -> Seq<Seq<char>> {
        files_in(self.entries(), path, recursive)
    }

    pub fn new() -> (r: FilelistCache)
        ensures
            r.wf(),
            r.entries().len() == 0,
    {
        FilelistCache { cache: Vec::new() }
    }

    pub fn len(&self) -> (r: usize)
        ensures
            r == self.entries().len(),
    {
        self.cache.len()
    }

    /// The index of the entry with the key `(path, recursive)`, if any.
    pub fn position(&self, path: &String, recursive: Recursive) -> (r: Option<usize>)
        ensures
            r.is_some() == self.contains(path@, recursive),
            r.is_some() ==> r.unwrap() < self.entries().len() && self.entries()[r.unwrap() as int].key()
                == (path@, recursive),
    {
        find_key(&self.cache, path, recursive)
    }

    /// The current snapshot of the image list of a registered pair.
    pub fn get(&self, path: &String, recursive: Recursive) -> (r: Arc<Vec<String>>)
        requires
            self.wf(),
            self.contains(path@, recursive),
        ensures
            strings_view(r@) == self.files_of(path@, recursive),
            all_images(strings_view(r@)),
    {
        let i = find_key(&self.cache, path, recursive).unwrap();
        proof {
            lemma_files_in(self.cache@, i as int);
            assert(all_images(self.cache@[i as int].files()));
        }
        share(&self.cache[i].filelist)
    }

    /// Registers `(path, recursive)` with an empty list, not listed yet, so
    /// that the next refresh pass lists it. It shares the flag of an entry on
    /// the same path, if there is one. Nothing happens where the pair is
    /// registered already, or where `is_dir` says that the path is not an
    /// existing directory. Returns whether an entry was added; it is then the
    /// last one, and its directory should be watched.
    pub fn register(&mut self, path: String, recursive: Recursive, is_dir: bool) -> (r: bool)
        requires
            old(self).wf(),
        ensures
            final(self).wf(),
            r == (is_dir && !old(self).contains(path@, recursive)),
            final(self).contains(path@, recursive) == (is_dir || old(self).contains(path@, recursive)),
            !r ==> final(self).entries() == old(self).entries(),
            r ==> final(self).entries().len() == old(self).entries().len() + 1,
            r ==> final(self).entries().drop_last() == old(self).entries(),
            r ==> final(self).entries().last().key() == (path@, recursive),
            r ==> final(self).entries().last().files() == Seq::<Seq<char>>::empty(),
            r ==> !final(self).entries().last().listed(),
    {
        if !is_dir {
            return false;
        }
        let ghost p = path@;
        match find_key(&self.cache, &path, recursive) {
            Some(_) => false,
            None => {
                let flag = match find_path(&self.cache, &path) {
                    Some(j) => share(&self.cache[j].outdated),
                    None => Arc::new(AtomicBool::new(true)),
                };
                let f = Filelist::new(path, recursive, flag);
                self.cache.push(f);
                proof {
                    assert(self.cache@[self.cache@.len() - 1].key() == (p, recursive));
                    assert(self.cache@.drop_last() =~= old(self).cache@);
                    assert forall|i: int, j: int|
                        0 <= i < self.cache@.len() && 0 <= j < self.cache@.len() && i != j implies #[trigger] self.cache@[i].key()
                        != #[trigger] self.cache@[j].key() by {
                        if i < old(self).cache@.len() && j < old(self).cache@.len() {
                        } else if i < old(self).cache@.len() {
                            assert(old(self).cache@[i] == self.cache@[i]);
                        } else {
                            assert(old(self).cache@[j] == self.cache@[j]);
                        }
                    }
                }
                true
            },
        }
    }

    /// Brings the registered pairs to exactly those of `paths` that name an
    /// existing directory: the other entries are dropped, the missing ones are
    /// registered, unlisted, and the entries kept keep their lists. A path has
    /// one watcher, shared by its entries through their common flag. Returns,
    /// once each, the paths that no entry is on any more, to stop watching,
    /// and the index of the first new entry on each path that no kept entry
    /// is on, to watch (again). A refresh pass should follow.
    pub fn update_paths(&mut self, paths: Vec<PathRequest>) -> (r: WatchChanges)
        requires
            old(self).wf(),
        ensures
            final(self).wf(),
            forall|p: Seq<char>, rec: Recursive|
                #[trigger] final(self).contains(p, rec) == requested(paths@, p, rec),
            forall|p: Seq<char>, rec: Recursive|
                #![trigger final(self).files_of(p, rec)]
                final(self).contains(p, rec) && old(self).contains(p, rec) ==> final(self).files_of(p, rec)
                    == old(self).files_of(p, rec),
            forall|p: Seq<char>, rec: Recursive|
                #![trigger final(self).files_of(p, rec)]
                final(self).contains(p, rec) && !old(self).contains(p, rec) ==> final(self).files_of(p, rec)
                    == Seq::<Seq<char>>::empty(),
            forall|w: int|
                0 <= w < r.watch@.len() ==> #[trigger] r.watch@[w] < final(self).entries().len()
                    && !old(self).contains(
                    final(self).entries()[r.watch@[w] as int].key().0,
                    final(self).entries()[r.watch@[w] as int].key().1,
                ) && first_on_path(final(self).entries(), r.watch@[w] as int),
            forall|i: int|
                0 <= i < final(self).entries().len() && !old(self).contains(
                    final(self).entries()[i].key().0,
                    final(self).entries()[i].key().1,
                ) && first_on_path(final(self).entries(), i) ==> #[trigger] r.watch@.contains(i as usize),
            forall|i: int|
                0 <= i < final(self).entries().len() && !old(self).contains(
                    #[trigger] final(self).entries()[i].key().0,
                    final(self).entries()[i].key().1,
                ) ==> !final(self).entries()[i].listed(),
            strings_view(r.unwatch@).no_duplicates(),
            forall|p: Seq<char>|
                #[trigger] strings_view(r.unwatch@).contains(p) == (is_cached_path(old(self).entries(), p)
                    && !is_cached_path(final(self).entries(), p)),
    {
        let ghost orig = self.cache@;
        let mut rest: Vec<Filelist> = Vec::new();
        std::mem::swap(&mut rest, &mut self.cache);
        let (kept, dropped) = split_requested(rest, &paths);
        proof {
            lemma_kept_entries(orig, paths@);
            lemma_dropped_paths_are_cached(orig, paths@);
            lemma_dropped_paths_complete(orig, paths@);
            let kv = kept@;
            assert forall|k: int| 0 <= k < kv.len() implies all_images(#[trigger] kv[k].files()) by {
                assert(requested(paths@, kv[k].key().0, kv[k].key().1));
                assert(orig.contains(kv[k]));
            }
            assert forall|a: int, b: int|
                0 <= a < kv.len() && 0 <= b < kv.len() && #[trigger] kv[a].key().0 == #[trigger] kv[b].key().0
                    implies kv[a].flag() == kv[b].flag() by {
                assert(requested(paths@, kv[a].key().0, kv[a].key().1));
                assert(requested(paths@, kv[b].key().0, kv[b].key().1));
                assert(orig.contains(kv[a]));
                assert(orig.contains(kv[b]));
                let m = choose|m: int| 0 <= m < orig.len() && orig[m] == kv[a];
                let n = choose|n: int| 0 <= n < orig.len() && orig[n] == kv[b];
                assert(orig[m].key().0 == orig[n].key().0);
            }
        }
        self.cache = kept;
        let ghost kept = self.cache@;
        let kept_len = self.cache.len();
        self.add_requested(&paths);
        let watch = self.firsts_on_path(kept_len);
        let unwatch = self.unused_paths(dropped);
        proof {
            let fin = self.cache@;
            assert(fin == self.entries());
            assert forall|k: int| 0 <= k < kept_len implies #[trigger] fin[k] == kept[k] by {
                assert(fin.subrange(0, kept_len as int)[k] == fin[k]);
            }
            assert forall|p: Seq<char>, rec: Recursive|
                #[trigger] has_key(fin, p, rec) == requested(paths@, p, rec) by {
                if requested(paths@, p, rec) {
                    let q = choose|q: int|
                        0 <= q < paths@.len() && #[trigger] paths@[q].path@ == p && paths@[q].recursive
                            == rec && paths@[q].is_dir;
                    assert(paths@[q].is_dir);
                }
                if has_key(fin, p, rec) {
                    let k = choose|k: int| 0 <= k < fin.len() && #[trigger] fin[k].key() == (p, rec);
                    if k < kept_len {
                        assert(fin[k] == kept[k]);
                    }
                    assert(requested(paths@, fin[k].key().0, fin[k].key().1));
                }
            }
            assert forall|k: int| kept_len <= k < fin.len() implies !has_key(
                orig,
                #[trigger] fin[k].key().0,
                fin[k].key().1,
            ) by {
                if has_key(orig, fin[k].key().0, fin[k].key().1) {
                    let m = choose|m: int|
                        0 <= m < orig.len() && #[trigger] orig[m].key() == (fin[k].key().0, fin[k].key().1);
                    assert(requested(paths@, orig[m].key().0, orig[m].key().1));
                    let k2 = choose|k2: int| 0 <= k2 < kept.len() && kept[k2] == orig[m];
                    assert(fin[k2] == kept[k2]);
                }
            }
            assert forall|p: Seq<char>, rec: Recursive|
                #![trigger files_in(fin, p, rec)]
                has_key(fin, p, rec) ==> (has_key(orig, p, rec) ==> files_in(fin, p, rec) == files_in(
                    orig,
                    p,
                    rec,
                )) && (!has_key(orig, p, rec) ==> files_in(fin, p, rec) == Seq::<Seq<char>>::empty()) by {
                if has_key(fin, p, rec) {
                    let k = choose|k: int| 0 <= k < fin.len() && #[trigger] fin[k].key() == (p, rec);
                    lemma_files_in(fin, k);
                    if k < kept_len {
                        assert(fin[k] == kept[k]);
                        let m = choose|m: int| 0 <= m < orig.len() && orig[m] == kept[k];
                        assert(orig[m] == fin[k]);
                        lemma_files_in(orig, m);
                    } else {
                        assert(fin[k].files() == Seq::<Seq<char>>::empty());
                    }
                }
            }
            assert forall|i: int|
                #![trigger fin[i]]
                0 <= i < fin.len() implies (!has_key(orig, fin[i].key().0, fin[i].key().1) <==> i
                    >= kept_len) by {
                if i < kept_len {
                    assert(fin[i] == kept[i]);
                    assert(requested(paths@, kept[i].key().0, kept[i].key().1));
                    assert(orig.contains(kept[i]));
                    let m = choose|m: int| 0 <= m < orig.len() && orig[m] == kept[i];
                    assert(orig[m].key() == fin[i].key());
                }
            }
            assert forall|p: Seq<char>|
                #[trigger] strings_view(unwatch@).contains(p) == (is_cached_path(orig, p) && !is_cached_path(fin, p)) by {
                if is_cached_path(orig, p) && !is_cached_path(fin, p) {
                    let m = choose|m: int| 0 <= m < orig.len() && (#[trigger] orig[m]).key().0 == p;
                    if requested(paths@, orig[m].key().0, orig[m].key().1) {
                        assert(kept.contains(orig[m]));
                        let k = choose|k: int| 0 <= k < kept.len() && kept[k] == orig[m];
                        assert(fin[k] == kept[k]);
                    }
                    assert(dropped_paths(orig, paths@).contains(p));
                }
                if strings_view(unwatch@).contains(p) {
                    let u = choose|u: int| 0 <= u < dropped_paths(orig, paths@).len() && dropped_paths(orig, paths@)[u] == p;
                    assert(is_cached_path(orig, dropped_paths(orig, paths@)[u]));
                }
            }
        }
        WatchChanges { unwatch, watch }
    }

    /// Registers each pair of `paths` that names an existing directory and is
    /// not registered yet.
    fn add_requested(&mut self, paths: &Vec<PathRequest>)
        requires
            old(self).wf(),
        ensures
            final(self).wf(),
            old(self).cache@.len() <= final(self).cache@.len(),
            final(self).cache@.subrange(0, old(self).cache@.len() as int) == old(self).cache@,
            forall|k: int|
                old(self).cache@.len() <= k < final(self).cache@.len() ==> (#[trigger] final(self).cache@[k]).files()
                    == Seq::<Seq<char>>::empty() && !final(self).cache@[k].listed() && !has_key(
                    old(self).cache@,
                    final(self).cache@[k].key().0,
                    final(self).cache@[k].key().1,
                ) && requested(paths@, final(self).cache@[k].key().0, final(self).cache@[k].key().1),
            forall|q: int|
                0 <= q < paths@.len() && (#[trigger] paths@[q]).is_dir ==> has_key(
                    final(self).cache@,
                    paths@[q].path@,
                    paths@[q].recursive,
                ),
    {
        let ghost start = self.cache@;
        let start_len = self.cache.len();
        let mut j: usize = 0;
        while j < paths.len()
            invariant
                j <= paths@.len(),
                start_len == start.len(),
                self.wf(),
                start_len <= self.cache@.len(),
                self.cache@.subrange(0, start_len as int) == start,
                forall|k: int|
                    start_len <= k < self.cache@.len() ==> (#[trigger] self.cache@[k]).files()
                        == Seq::<Seq<char>>::empty() && !self.cache@[k].listed() && !has_key(
                        start,
                        self.cache@[k].key().0,
                        self.cache@[k].key().1,
                    ) && requested(paths@, self.cache@[k].key().0, self.cache@[k].key().1),
                forall|q: int|
                    0 <= q < j && (#[trigger] paths@[q]).is_dir ==> has_key(
                        self.cache@,
                        paths@[q].path@,
                        paths@[q].recursive,
                    ),
            decreases paths@.len() - j,
        {
            let ghost before = self.cache@;
            let req = &paths[j];
            let added = self.register(req.path.clone(), req.recursive, req.is_dir);
            if added {
                proof {
                    let fin = self.cache@;
                    assert(fin.drop_last() == before);
                    assert forall|k: int| 0 <= k < start_len implies fin.subrange(0, start_len as int)[k]
                        == start[k] by {
                        assert(before[k] == fin[k]);
                        assert(before.subrange(0, start_len as int)[k] == before[k]);
                    }
                    assert(fin.subrange(0, start_len as int) =~= start);
                    assert(requested(paths@, paths@[j as int].path@, paths@[j as int].recursive));
                    if has_key(start, req.path@, req.recursive) {
                        let m = choose|m: int|
                            0 <= m < start.len() && #[trigger] start[m].key() == (req.path@, req.recursive);
                        assert(before[m] == start[m]);
                    }
                }
            }
            proof {
                let fin = self.cache@;
                assert forall|k: int|
                    start_len <= k < fin.len() implies (#[trigger] fin[k]).files()
                    == Seq::<Seq<char>>::empty() && !fin[k].listed() && !has_key(start, fin[k].key().0, fin[k].key().1)
                    && requested(paths@, fin[k].key().0, fin[k].key().1) by {
                    if k < before.len() {
                        assert(before[k] == fin[k]);
                    }
                }
                assert forall|q: int|
                    0 <= q < j + 1 && (#[trigger] paths@[q]).is_dir implies has_key(
                    fin,
                    paths@[q].path@,
                    paths@[q].recursive,
                ) by {
                    if q < j {
                        let k = choose|k: int|
                            0 <= k < before.len() && #[trigger] before[k].key() == (
                                paths@[q].path@,
                                paths@[q].recursive,
                            );
                        assert(fin[k] == before[k]);
                    } else if added {
                        assert(fin[before.len() as int].key() == (paths@[q].path@, paths@[q].recursive));
                    }
                }
            }
            j = j + 1;
        }
    }

    /// The indices from `from` on of the entries that come first on their
    /// path.
    fn firsts_on_path(&self, from: usize) -> (r: Vec<usize>)
        requires
            from <= self.cache@.len(),
        ensures
            forall|w: int|
                0 <= w < r@.len() ==> from <= #[trigger] r@[w] < self.cache@.len() && first_on_path(
                    self.cache@,
                    r@[w] as int,
                ),
            forall|i: int|
                from <= i < self.cache@.len() && first_on_path(self.cache@, i) ==> #[trigger] r@.contains(
                    i as usize,
                ),
    {
        let mut r: Vec<usize> = Vec::new();
        let mut i: usize = from;
        while i < self.cache.len()
            invariant
                from <= i <= self.cache@.len(),
                forall|w: int|
                    0 <= w < r@.len() ==> from <= #[trigger] r@[w] < i && first_on_path(self.cache@, r@[w] as int),
                forall|k: int| from <= k < i && first_on_path(self.cache@, k) ==> #[trigger] r@.contains(k as usize),
            decreases self.cache@.len() - i,
        {
            let first = find_path(&self.cache, &self.cache[i].path);
            let ghost r0 = r@;
            if first == Some(i) {
                r.push(i);
                proof {
                    assert(r@[r0.len() as int] == i);
                    assert forall|k: int| from <= k < i + 1 && first_on_path(self.cache@, k) implies #[trigger] r@.contains(
                        k as usize,
                    ) by {
                        if k < i {
                            assert(r0.contains(k as usize));
                            let w = choose|w: int| 0 <= w < r0.len() && r0[w] == k as usize;
                            assert(r@[w] == r0[w]);
                        } else {
                            assert(r@[r0.len() as int] == k as usize);
                        }
                    }
                }
            } else {
                proof {
                    if first_on_path(self.cache@, i as int) {
                        assert(self.cache@[first.unwrap() as int].key().0 == self.cache@[i as int].key().0);
                    }
                }
            }
            i = i + 1;
        }
        r
    }

    /// Those of `candidates` that no entry is on, once each.
    fn unused_paths(&self, candidates: Vec<String>) -> (r: Vec<String>)
        ensures
            strings_view(r@).no_duplicates(),
            forall|p: Seq<char>|
                #[trigger] strings_view(r@).contains(p) == (strings_view(candidates@).contains(p)
                    && !is_cached_path(self.cache@, p)),
    {
        let mut r: Vec<String> = Vec::new();
        let mut i: usize = 0;
        while i < candidates.len()
            invariant
                i <= candidates@.len(),
                strings_view(r@).no_duplicates(),
                forall|p: Seq<char>|
                    #[trigger] strings_view(r@).contains(p) == (strings_view(candidates@.subrange(
                        0,
                        i as int,
                    )).contains(p) && !is_cached_path(self.cache@, p)),
            decreases candidates@.len() - i,
        {
            let c = &candidates[i];
            let ghost r0 = strings_view(r@);
            let ghost pre = strings_view(candidates@.subrange(0, i as int));
            let ghost post = strings_view(candidates@.subrange(0, i + 1));
            proof {
                assert(post =~= pre.push(c@));
            }
            if find_path(&self.cache, c).is_none() && !contains_string(&r, c) {
                r.push(c.clone());
                proof {
                    assert(strings_view(r@) =~= r0.push(c@));
                    assert forall|p: Seq<char>| #[trigger] strings_view(r@).contains(p) == (post.contains(p)
                        && !is_cached_path(self.cache@, p)) by {
                        if p == c@ {
                            assert(strings_view(r@)[r0.len() as int] == p);
                            assert(post[pre.len() as int] == p);
                        } else {
                            if strings_view(r@).contains(p) {
                                let k = choose|k: int| 0 <= k < strings_view(r@).len() && strings_view(r@)[k] == p;
                                assert(r0[k] == p);
                            }
                            if post.contains(p) {
                                let k = choose|k: int| 0 <= k < post.len() && post[k] == p;
                                assert(pre[k] == p);
                            }
                            if r0.contains(p) {
                                let k = choose|k: int| 0 <= k < r0.len() && r0[k] == p;
                                assert(strings_view(r@)[k] == p);
                            }
                            if pre.contains(p) {
                                let k = choose|k: int| 0 <= k < pre.len() && pre[k] == p;
                                assert(post[k] == p);
                            }
                        }
                    }
                    assert forall|a: int, b: int|
                        0 <= a < strings_view(r@).len() && 0 <= b < strings_view(r@).len() && a != b implies strings_view(r@)[a]
                        != strings_view(r@)[b] by {
                        if a < r0.len() && b < r0.len() {
                            assert(r0[a] != r0[b]);
                        } else if a < r0.len() {
                            assert(r0.contains(r0[a]));
                        } else if b < r0.len() {
                            assert(r0.contains(r0[b]));
                        }
                    }
                }
            } else {
                proof {
                    assert forall|p: Seq<char>| #[trigger] strings_view(r@).contains(p) == (post.contains(p)
                        && !is_cached_path(self.cache@, p)) by {
                        if post.contains(p) {
                            let k = choose|k: int| 0 <= k < post.len() && post[k] == p;
                            if k < pre.len() {
                                assert(pre[k] == p);
                            }
                        }
                        if pre.contains(p) {
                            let k = choose|k: int| 0 <= k < pre.len() && pre[k] == p;
                            assert(post[k] == p);
                        }
                    }
                }
            }
            i = i + 1;
        }
        proof {
            assert(candidates@.subrange(0, candidates@.len() as int) =~= candidates@);
        }
        r
    }

    /// The pairs to walk again: those whose path's watcher reported a
    /// change since the last call, and those never listed. Each path's flag
    /// is read and cleared once, so a change that comes while the caller walks
    /// is reported again.
    pub fn outdated_paths(&self) -> (r: Vec<(String, Recursive)>)
        requires
            self.wf(),
        ensures
            r@.len() <= self.entries().len(),
            forall|k: int| 0 <= k < r@.len() ==> self.contains(#[trigger] r@[k].0@, r@[k].1),
            forall|i: int|
                0 <= i < self.entries().len() && !(#[trigger] self.entries()[i]).listed() ==> returns_key(
                    r@,
                    self.entries()[i].key(),
                ),
    {
        let mut r: Vec<(String, Recursive)> = Vec::new();
        let mut fired: Vec<bool> = Vec::new();
        let mut i: usize = 0;
        while i < self.cache.len()
            invariant
                i <= self.cache@.len(),
                fired@.len() == i,
                r@.len() <= i,
                forall|k: int| 0 <= k < r@.len() ==> has_key(self.cache@, #[trigger] r@[k].0@, r@[k].1),
                forall|m: int|
                    0 <= m < i && !(#[trigger] self.cache@[m]).listed() ==> returns_key(r@, self.cache@[m].key()),
            decreases self.cache@.len() - i,
        {
            let f = &self.cache[i];
            let first = find_path(&self.cache, &f.path);
            let changed = match first {
                Some(j) if j < i => fired[j],
                _ => f.outdated.swap(false, Ordering::AcqRel),
            };
            fired.push(changed);
            if changed || !f.listed {
                let ghost r0 = r@;
                r.push((f.path.clone(), f.recursive));
                proof {
                    assert((r@[r0.len() as int].0@, r@[r0.len() as int].1) == self.cache@[i as int].key());
                    assert forall|k: int| 0 <= k < r@.len() implies has_key(
                        self.cache@,
                        #[trigger] r@[k].0@,
                        r@[k].1,
                    ) by {
                        if k < r0.len() {
                            assert(r@[k] == r0[k]);
                        } else {
                            assert(self.cache@[i as int].key() == (r@[k].0@, r@[k].1));
                        }
                    }
                    assert forall|m: int|
                        0 <= m < i + 1 && !(#[trigger] self.cache@[m]).listed() implies returns_key(
                        r@,
                        self.cache@[m].key(),
                    ) by {
                        if m < i {
                            let k = choose|k: int| 0 <= k < r0.len() && (r0[k].0@, r0[k].1) == self.cache@[m].key();
                            assert(r@[k] == r0[k]);
                        }
                    }
                }
            }
            i = i + 1;
        }
        r
    }

    /// The refresh pass: each entry for which `listings` holds a walk gets
    /// the images of that walk as its new list; the others keep theirs.
    pub fn update_cache(&mut self, listings: Vec<Listing>)
        requires
            old(self).wf(),
        ensures
            final(self).wf(),
            final(self).entries().len() == old(self).entries().len(),
            forall|i: int|
                0 <= i < old(self).entries().len() ==> (#[trigger] final(self).entries()[i]).key()
                    == old(self).entries()[i].key() && final(self).entries()[i].files() == refreshed(
                    listings@,
                    old(self).entries()[i],
                ) && final(self).entries()[i].flag() == old(self).entries()[i].flag()
                    && final(self).entries()[i].listed() == (old(self).entries()[i].listed()
                    || listing_for(
                    listings@,
                    old(self).entries()[i].key().0,
                    old(self).entries()[i].key().1,
                ).is_some()),
    {
        let ghost orig = self.cache@;
        let ghost ls = listings@;
        let mut rest = listings;
        let n = rest.len();
        while rest.len() > 0
            invariant
                rest@.len() <= n,
                n == ls.len(),
                rest@ == ls.subrange(0, rest@.len() as int),
                self.cache@.len() == orig.len(),
                entries_wf(orig),
                forall|i: int|
                    0 <= i < orig.len() ==> (#[trigger] self.cache@[i]).key() == orig[i].key()
                        && self.cache@[i].files() == refreshed(
                        ls.subrange(rest@.len() as int, n as int),
                        orig[i],
                    ) && self.cache@[i].flag() == orig[i].flag() && all_images(self.cache@[i].files())
                        && self.cache@[i].listed() == (orig[i].listed() || listing_for(
                        ls.subrange(rest@.len() as int, n as int),
                        orig[i].key().0,
                        orig[i].key().1,
                    ).is_some()),
            decreases rest@.len(),
        {
            let ghost k = rest@.len() - 1;
            let ghost before = self.cache@;
            let listing = rest.pop().unwrap();
            proof {
                assert(listing == ls[k]);
                assert(ls.subrange(k, n as int).drop_first() =~= ls.subrange(k + 1, n as int));
                assert(ls.subrange(k, n as int)[0] == ls[k]);
                assert(rest@ =~= ls.subrange(0, k));
            }
            match find_key(&self.cache, &listing.path, listing.recursive) {
                Some(i) => {
                    let ghost walk = listing.entries@;
                    self.cache[i].populate(listing.entries);
                    proof {
                        lemma_image_paths_all_images(walk);
                        assert forall|j: int| 0 <= j < orig.len() implies (#[trigger] self.cache@[j]).key()
                            == orig[j].key() && self.cache@[j].files() == refreshed(
                            ls.subrange(k, n as int),
                            orig[j],
                        ) && self.cache@[j].flag() == orig[j].flag() && all_images(self.cache@[j].files())
                            && self.cache@[j].listed() == (orig[j].listed() || listing_for(
                            ls.subrange(k, n as int),
                            orig[j].key().0,
                            orig[j].key().1,
                        ).is_some()) by {
                            if j != i {
                                assert(self.cache@[j] == before[j]);
                                assert(orig[j].key() != orig[i as int].key());
                            }
                        }
                    }
                },
                None => {
                    proof {
                        assert forall|j: int| 0 <= j < orig.len() implies (#[trigger] self.cache@[j]).key()
                            == orig[j].key() && self.cache@[j].files() == refreshed(
                            ls.subrange(k, n as int),
                            orig[j],
                        ) && self.cache@[j].flag() == orig[j].flag() && all_images(self.cache@[j].files())
                            && self.cache@[j].listed() == (orig[j].listed() || listing_for(
                            ls.subrange(k, n as int),
                            orig[j].key().0,
                            orig[j].key().1,
                        ).is_some()) by {
                            assert(before[j].key() == orig[j].key());
                        }
                    }
                },
            }
        }
        proof {
            assert(ls.subrange(0, n as int) =~= ls);
            let fin = self.cache@;
            assert forall|a: int, b: int|
                0 <= a < fin.len() && 0 <= b < fin.len() && a != b implies #[trigger] fin[a].key()
                != #[trigger] fin[b].key() by {
                assert(orig[a].key() != orig[b].key());
            }
            assert forall|a: int, b: int|
                0 <= a < fin.len() && 0 <= b < fin.len() && #[trigger] fin[a].key().0 == #[trigger] fin[b].key().0
                    implies fin[a].flag() == fin[b].flag() by {
                assert(orig[a].key().0 == orig[b].key().0);
            }
        }
    }

    /// The path and recursion of the entry at `index`.
    pub fn key_at(&self, index: usize) -> (r: (String, Recursive))
        requires
            index < self.entries().len(),
        ensures
            (r.0@, r.1) == self.entries()[index as int].key(),
    {
        (self.cache[index].path.clone(), self.cache[index].recursive)
    }

    /// The flag that the watcher of the entry at `index` sets on a change.
    pub fn outdated_flag(&self, index: usize) -> (r: Arc<AtomicBool>)
        requires
            index < self.entries().len(),
        ensures
            r == self.entries()[index as int].flag(),
    {
        share(&self.cache[index].outdated)
    }
}

/// The walk that `ls` gives for `(path, recursive)`: that of the first
/// listing of the pair.
pub open spec fn listing_for(ls: Seq<Listing>, path: Seq<char>, recursive: Recursive) -> Option<Seq<DirEntry>>
    decreases ls.len(),
{
    if ls.len() == 0 {
        None
    } else if ls[0].path@ == path && ls[0].recursive == recursive {
        Some(ls[0].entries@)
    } else {
        listing_for(ls.drop_first(), path, recursive)
    }
}

/// The list of `f` after a refresh pass with the walks `ls`.
pub open spec fn refreshed(ls: Seq<Listing>, f: Filelist) -> Seq<Seq<char>> {
    match listing_for(ls, f.key().0, f.key().1) {
        Some(entries) => image_paths(entries),
        None => f.files(),
    }
}

/// The entries of `s` whose pair `reqs` asks for, in their order.
pub open spec fn kept_entries(s: Seq<Filelist>, reqs: Seq<PathRequest>) -> Seq<Filelist>
    decreases s.len(),
{
    if s.len() == 0 {
        Seq::empty()
    } else {
        let rest = kept_entries(s.drop_last(), reqs);
        if requested(reqs, s.last().key().0, s.last().key().1) {
            rest.push(s.last())
        } else {
            rest
        }
    }
}

/// The paths of the entries of `s` whose pair `reqs` does not ask for, in
/// their order.
pub open spec fn dropped_paths(s: Seq<Filelist>, reqs: Seq<PathRequest>) -> Seq<Seq<char>>
    decreases s.len(),
{
    if s.len() == 0 {
        Seq::empty()
    } else {
        let rest = dropped_paths(s.drop_last(), reqs);
        if requested(reqs, s.last().key().0, s.last().key().1) {
            rest
        } else {
            rest.push(s.last().key().0)
        }
    }
}

/// Whether some pair of `r` has the key `key`.
pub open spec fn returns_key(r: Seq<(String, Recursive)>, key: (Seq<char>, Recursive)) -> bool {
    exists|k: int| 0 <= k < r.len() && (r[k].0@, r[k].1) == key
}

/// A refresh pass that walks every pair that `outdated_paths` returned
/// leaves no entry unlisted: by `update_cache`, an entry is listed after it
/// when it was before or when a walk of its pair was handed in.
pub proof fn lemma_refresh_lists_every_entry(
    s: Seq<Filelist>,
    due: Seq<(String, Recursive)>,
    ls: Seq<Listing>,
)
    requires
        forall|i: int| 0 <= i < s.len() && !(#[trigger] s[i]).listed() ==> returns_key(due, s[i].key()),
        forall|k: int| 0 <= k < due.len() ==> listing_for(ls, (#[trigger] due[k]).0@, due[k].1).is_some(),
    ensures
        forall|i: int|
            0 <= i < s.len() ==> (#[trigger] s[i]).listed() || listing_for(ls, s[i].key().0, s[i].key().1).is_some(),
{
    assert forall|i: int| 0 <= i < s.len() implies (#[trigger] s[i]).listed() || listing_for(
        ls,
        s[i].key().0,
        s[i].key().1,
    ).is_some() by {
        if !s[i].listed() {
            let k = choose|k: int| 0 <= k < due.len() && (due[k].0@, due[k].1) == s[i].key();
            assert(listing_for(ls, due[k].0@, due[k].1).is_some());
        }
    }
}

/// Whether the entry at `i` is the first of `s` on its path.
pub open spec fn first_on_path(s: Seq<Filelist>, i: int) -> bool {
    forall|j: int| 0 <= j < i ==> (#[trigger] s[j]).key().0 != s[i].key().0
}

/// The path of every entry that `reqs` does not ask for is among the
/// dropped paths.
proof fn lemma_dropped_paths_complete(s: Seq<Filelist>, reqs: Seq<PathRequest>)
    ensures
        forall|m: int|
            0 <= m < s.len() && !requested(reqs, #[trigger] s[m].key().0, s[m].key().1) ==> dropped_paths(
                s,
                reqs,
            ).contains(s[m].key().0),
    decreases s.len(),
{
    if s.len() > 0 {
        let d = s.drop_last();
        lemma_dropped_paths_complete(d, reqs);
        assert forall|m: int|
            0 <= m < s.len() && !requested(reqs, #[trigger] s[m].key().0, s[m].key().1) implies dropped_paths(
            s,
            reqs,
        ).contains(s[m].key().0) by {
            if m < s.len() - 1 {
                assert(d[m] == s[m]);
                assert(!requested(reqs, d[m].key().0, d[m].key().1));
                let u = choose|u: int| 0 <= u < dropped_paths(d, reqs).len() && dropped_paths(d, reqs)[u] == d[m].key().0;
                assert(dropped_paths(s, reqs)[u] == dropped_paths(d, reqs)[u]);
            } else {
                assert(s[m] == s.last());
                let r = dropped_paths(s, reqs);
                assert(r[r.len() - 1] == s.last().key().0);
            }
        }
    }
}

/// Whether some entry of `s` is cached for `path`, with either recursion.
pub open spec fn is_cached_path(s: Seq<Filelist>, path: Seq<char>) -> bool {
    exists|m: int| 0 <= m < s.len() && (#[trigger] s[m]).key().0 == path
}

/// Only cached paths are ever to be unwatched: a path that was skipped at
/// registration, for not being a directory, never shows up there.
pub proof fn lemma_dropped_paths_are_cached(s: Seq<Filelist>, reqs: Seq<PathRequest>)
    ensures
        forall|k: int|
            0 <= k < dropped_paths(s, reqs).len() ==> is_cached_path(s, #[trigger] dropped_paths(s, reqs)[k]),
    decreases s.len(),
{
    if s.len() > 0 {
        let d = s.drop_last();
        lemma_dropped_paths_are_cached(d, reqs);
        assert forall|k: int| 0 <= k < dropped_paths(s, reqs).len() implies is_cached_path(
            s,
            #[trigger] dropped_paths(s, reqs)[k],
        ) by {
            if k < dropped_paths(d, reqs).len() {
                assert(dropped_paths(s, reqs)[k] == dropped_paths(d, reqs)[k]);
                assert(is_cached_path(d, dropped_paths(d, reqs)[k]));
                let m = choose|m: int| 0 <= m < d.len() && (#[trigger] d[m]).key().0 == dropped_paths(d, reqs)[k];
                assert(s[m] == d[m]);
            } else {
                assert(s[s.len() - 1] == s.last());
            }
        }
    }
}

proof fn lemma_kept_entries(s: Seq<Filelist>, reqs: Seq<PathRequest>)
    ensures
        forall|k: int|
            0 <= k < kept_entries(s, reqs).len() ==> requested(
                reqs,
                #[trigger] kept_entries(s, reqs)[k].key().0,
                kept_entries(s, reqs)[k].key().1,
            ) && s.contains(kept_entries(s, reqs)[k]),
        forall|m: int|
            0 <= m < s.len() && requested(reqs, #[trigger] s[m].key().0, s[m].key().1) ==> kept_entries(
                s,
                reqs,
            ).contains(s[m]),
        unique_keys(s) ==> unique_keys(kept_entries(s, reqs)),
    decreases s.len(),
{
    if s.len() > 0 {
        let d = s.drop_last();
        lemma_kept_entries(d, reqs);
        let r0 = kept_entries(d, reqs);
        let r = kept_entries(s, reqs);
        assert forall|k: int| 0 <= k < r.len() implies requested(
            reqs,
            #[trigger] r[k].key().0,
            r[k].key().1,
        ) && s.contains(r[k]) by {
            if k < r0.len() {
                assert(r[k] == r0[k]);
                assert(requested(reqs, r0[k].key().0, r0[k].key().1));
                assert(d.contains(r0[k]));
                let m = choose|m: int| 0 <= m < d.len() && d[m] == r0[k];
                assert(s[m] == d[m]);
            } else {
                assert(r[k] == s.last());
                assert(s[s.len() - 1] == s.last());
            }
        }
        assert forall|m: int|
            0 <= m < s.len() && requested(reqs, #[trigger] s[m].key().0, s[m].key().1) implies r.contains(s[m]) by {
            if m < s.len() - 1 {
                assert(d[m] == s[m]);
                let k = choose|k: int| 0 <= k < r0.len() && r0[k] == d[m];
                if requested(reqs, s.last().key().0, s.last().key().1) {
                    assert(r[k] == r0[k]);
                }
            } else {
                assert(r[r.len() - 1] == s.last());
            }
        }
        if unique_keys(s) {
            assert forall|i: int, j: int| 0 <= i < d.len() && 0 <= j < d.len() && i != j implies #[trigger] d[i].key()
                != #[trigger] d[j].key() by {
                assert(d[i] == s[i] && d[j] == s[j]);
            }
            if requested(reqs, s.last().key().0, s.last().key().1) {
                assert forall|k: int| 0 <= k < r0.len() implies #[trigger] r0[k].key() != s.last().key() by {
                    assert(requested(reqs, r0[k].key().0, r0[k].key().1));
                    assert(d.contains(r0[k]));
                    let m = choose|m: int| 0 <= m < d.len() && d[m] == r0[k];
                    assert(s[m] == d[m]);
                    assert(s[s.len() - 1] == s.last());
                }
                assert forall|i: int, j: int| 0 <= i < r.len() && 0 <= j < r.len() && i != j implies #[trigger] r[i].key()
                    != #[trigger] r[j].key() by {
                    if i < r0.len() {
                        assert(r[i] == r0[i]);
                    }
                    if j < r0.len() {
                        assert(r[j] == r0[j]);
                    }
                }
            }
        }
    }
}

/// Splits `entries` into those whose pair `paths` still asks for, in their
/// order, and the paths of the others.
fn split_requested(entries: Vec<Filelist>, paths: &Vec<PathRequest>) -> (r: (Vec<Filelist>, Vec<String>))
    ensures
        r.0@ == kept_entries(entries@, paths@),
        strings_view(r.1@) == dropped_paths(entries@, paths@),
{
    let ghost orig = entries@;
    let mut rest = entries;
    let mut kept: Vec<Filelist> = Vec::new();
    let mut unwatch: Vec<String> = Vec::new();
    let n = rest.len();
    let mut i: usize = 0;
    while i < n
        invariant
            n == orig.len(),
            i <= n,
            rest@ == orig.subrange(i as int, n as int),
            kept@ == kept_entries(orig.subrange(0, i as int), paths@),
            strings_view(unwatch@) == dropped_paths(orig.subrange(0, i as int), paths@),
        decreases n - i,
    {
        let f = rest.remove(0);
        proof {
            assert(f == orig[i as int]);
            assert(orig.subrange(0, i + 1).drop_last() =~= orig.subrange(0, i as int));
            assert(orig.subrange(0, i + 1).last() == orig[i as int]);
            assert(rest@ =~= orig.subrange(i + 1, n as int));
        }
        if is_requested(paths, &f.path, f.recursive) {
            kept.push(f);
        } else {
            let ghost u0 = unwatch@;
            unwatch.push(f.path);
            proof {
                assert(strings_view(unwatch@) =~= strings_view(u0).push(orig[i as int].key().0));
            }
        }
        i = i + 1;
    }
    proof {
        assert(orig.subrange(0, n as int) =~= orig);
    }
    (kept, unwatch)
}

/// Whether `reqs` asks for `(path, recursive)` as an existing directory.
fn is_requested(reqs: &Vec<PathRequest>, path: &String, recursive: Recursive) -> (r: bool)
    ensures
        r == requested(reqs@, path@, recursive),
{
    let mut j: usize = 0;
    while j < reqs.len()
        invariant
            j <= reqs@.len(),
            forall|k: int|
                0 <= k < j ==> !(#[trigger] reqs@[k].path@ == path@ && reqs@[k].recursive == recursive
                    && reqs@[k].is_dir),
        decreases reqs@.len() - j,
    {
        if reqs[j].is_dir && reqs[j].recursive == recursive && reqs[j].path == *path {
            assert(reqs@[j as int].path@ == path@);
            return true;
        }
        j = j + 1;
    }
    false
}

/// Whether `v` holds `s`.
fn contains_string(v: &Vec<String>, s: &String) -> (r: bool)
    ensures
        r == strings_view(v@).contains(s@),
{
    let mut i: usize = 0;
    while i < v.len()
        invariant
            i <= v@.len(),
            forall|k: int| 0 <= k < i ==> (#[trigger] v@[k])@ != s@,
        decreases v@.len() - i,
    {
        if v[i] == *s {
            assert(strings_view(v@)[i as int] == s@);
            return true;
        }
        i = i + 1;
    }
    proof {
        if strings_view(v@).contains(s@) {
            let k = choose|k: int| 0 <= k < strings_view(v@).len() && strings_view(v@)[k] == s@;
            assert(v@[k]@ == s@);
        }
    }
    false
}

/// Index of the first entry of `v` on `path`, if any.
fn find_path(v: &Vec<Filelist>, path: &String) -> (r: Option<usize>)
    ensures
        r.is_some() == is_cached_path(v@, path@),
        r.is_some() ==> r.unwrap() < v@.len() && v@[r.unwrap() as int].key().0 == path@,
        r.is_some() ==> forall|k: int| 0 <= k < r.unwrap() ==> (#[trigger] v@[k]).key().0 != path@,
{
    let mut i: usize = 0;
    while i < v.len()
        invariant
            i <= v@.len(),
            forall|k: int| 0 <= k < i ==> (#[trigger] v@[k]).key().0 != path@,
        decreases v@.len() - i,
    {
        if v[i].path == *path {
            assert(v@[i as int].key().0 == path@);
            return Some(i);
        }
        i = i + 1;
    }
    None
}

/// Index of the entry of `v` with the key `(path, recursive)`, if any.
fn find_key(v: &Vec<Filelist>, path: &String, recursive: Recursive) -> (r: Option<usize>)
    ensures
        r.is_some() == has_key(v@, path@, recursive),
        r.is_some() ==> r.unwrap() < v@.len() && v@[r.unwrap() as int].key() == (path@, recursive),
        r.is_some() ==> forall|k: int| 0 <= k < r.unwrap() ==> #[trigger] v@[k].key() != (path@, recursive),
{
    let mut i: usize = 0;
    while i < v.len()
        invariant
            i <= v@.len(),
            forall|k: int| 0 <= k < i ==> #[trigger] v@[k].key() != (path@, recursive),
        decreases v@.len() - i,
    {
        if v[i].path == *path && v[i].recursive == recursive {
            assert(v@[i as int].key() == (path@, recursive));
            return Some(i);
        }
        i = i + 1;
    }
    None
}

} // verus!
