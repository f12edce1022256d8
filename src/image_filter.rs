use vstd::prelude::*;

verus! {

/// One entry met while walking a directory.
pub struct DirEntry {
    pub path: String,
    pub is_dir: bool,
}

/// The top-level media type that new_mime_guess gives first for a path,
/// by its extension; `None` where the extension is unknown or missing.
pub uninterp spec fn guessed_top_type(path: Seq<char>) -> Option<Seq<char>>;

/// Relies on new_mime_guess::from_path and MimeGuess::first: the first
/// media type that the crate's static table maps the path's extension to,
/// of which only the top-level type is kept.
#[verifier::external_body]
fn guess_top_type(path: &str) -> (r: Option<String>)
    ensures
        r.is_some() == guessed_top_type(path@).is_some(),
        r.is_some() ==> r.unwrap()@ == guessed_top_type(path@).unwrap(),
{
    new_mime_guess::from_path(path).first().map(|m| m.type_().as_str().to_string())
}

/// An entry is eligible when it is not a directory and its extension is
/// classified as `image/*`.
pub open spec fn is_image_entry(e: DirEntry) -> bool {
    &&& !e.is_dir
    &&& guessed_top_type(e.path@) == Some("image"@)
}

/// The paths of the eligible entries, in the order in which they were met.
pub open spec fn image_paths(entries: Seq<DirEntry>) -> Seq<Seq<char>>
    decreases entries.len(),
{
    if entries.len() == 0 {
        Seq::empty()
    } else {
        let rest = image_paths(entries.drop_last());
        if is_image_entry(entries.last()) {
            rest.push(entries.last().path@)
        } else {
            rest
        }
    }
}

/// Whether `p` is the path of an entry of `entries` that is an image file.
pub open spec fn is_image_of(entries: Seq<DirEntry>, p: Seq<char>) -> bool {
    exists|m: int| 0 <= m < entries.len() && is_image_entry(#[trigger] entries[m]) && entries[m].path@ == p
}

/// A list built from a walk holds only the paths of entries that are image
/// files, never a directory.
pub proof fn lemma_image_paths_only_images(entries: Seq<DirEntry>)
    ensures
        image_paths(entries).len() <= entries.len(),
        forall|k: int|
            0 <= k < image_paths(entries).len() ==> is_image_of(entries, #[trigger] image_paths(entries)[k]),
    decreases entries.len(),
{
    if entries.len() > 0 {
        let d = entries.drop_last();
        lemma_image_paths_only_images(d);
        assert forall|k: int| 0 <= k < image_paths(entries).len() implies is_image_of(
            entries,
            #[trigger] image_paths(entries)[k],
        ) by {
            if k < image_paths(d).len() {
                assert(image_paths(entries)[k] == image_paths(d)[k]);
                assert(is_image_of(d, image_paths(d)[k]));
                let m = choose|m: int| 0 <= m < d.len() && is_image_entry(#[trigger] d[m]) && d[m].path@ == image_paths(d)[k];
                assert(entries[m] == d[m]);
            } else {
                assert(entries[entries.len() - 1] == entries.last());
            }
        }
    }
}

/// Every path of `files` is classified as an image.
pub open spec fn all_images(files: Seq<Seq<char>>) -> bool {
    forall|k: int| 0 <= k < files.len() ==> guessed_top_type(#[trigger] files[k]) == Some("image"@)
}

/// A list built from a walk is classified as images throughout.
pub proof fn lemma_image_paths_all_images(entries: Seq<DirEntry>)
    ensures
        all_images(image_paths(entries)),
{
    lemma_image_paths_only_images(entries);
    assert forall|k: int| 0 <= k < image_paths(entries).len() implies guessed_top_type(
        #[trigger] image_paths(entries)[k],
    ) == Some("image"@) by {
        assert(is_image_of(entries, image_paths(entries)[k]));
    }
}

/// The views of a sequence of strings.
pub open spec fn strings_view(v: Seq<String>) -> Seq<Seq<char>> {
    v.map_values(|s: String| s@)
}

/// Whether a path is classified as an image by its extension.
pub fn is_image_path(path: &String) -> (r: bool)
    ensures
        r == (guessed_top_type(path@) == Some("image"@)),
{
    let guess = guess_top_type(path.as_str());
    match guess {
        Some(t) => {
            let image = String::from_str("image");
            proof {
                reveal_strlit("image");
            }
            let r = t == image;
            proof {
                if !r {
                    assert(guessed_top_type(path@).unwrap() != "image"@);
                }
            }
            r
        },
        None => false,
    }
}

/// Keeps the paths of the entries that are image files, in their order.
pub fn filter_images(entries: Vec<DirEntry>) -> (r: Vec<String>)
    ensures
        strings_view(r@) == image_paths(entries@),
{
    let mut out: Vec<String> = Vec::new();
    let n = entries.len();
    let mut i: usize = 0;
    while i < n
        invariant
            n == entries@.len(),
            i <= n,
            strings_view(out@) == image_paths(entries@.subrange(0, i as int)),
        decreases n - i,
    {
        let e = &entries[i];
        proof {
            assert(entries@.subrange(0, i + 1).drop_last() =~= entries@.subrange(0, i as int));
            assert(entries@.subrange(0, i + 1).last() == entries@[i as int]);
        }
        if !e.is_dir && is_image_path(&e.path) {
            out.push(e.path.clone());
            proof {
                assert(strings_view(out@) =~= image_paths(entries@.subrange(0, i as int)).push(
                    e.path@,
                ));
            }
        }
        i = i + 1;
    }
    proof {
        assert(entries@.subrange(0, n as int) =~= entries@);
    }
    out
}

} // verus!
