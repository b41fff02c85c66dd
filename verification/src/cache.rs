//! The decoded-image cache: which images are kept, which are requested from
//! the decoder, and which are dropped when the decoded-byte budget is exceeded.
//!
//! The decoder itself runs elsewhere: `recenter` hands back the load requests
//! to send, and `poll` takes the results that came back. Every request carries
//! the cache's generation; results of an older generation are ignored.
use std::sync::Arc;
use vstd::prelude::*;
use crate::text::str_eq;

verus! {

#[derive(Debug)]
pub struct ImageData {
    pub width: usize,
    pub height: usize,
    pub pixels: Vec<u32>,
}

/// Decoded size of an image in bytes (saturating).
pub open spec fn image_bytes(img: ImageData) -> nat {
    if img.pixels.len() * 4 > usize::MAX {
        usize::MAX as nat
    } else {
        (img.pixels.len() * 4) as nat
    }
}

/// Decoded size of a shared image.
pub open spec fn shared_bytes(img: Arc<ImageData>) -> nat {
    image_bytes(*img)
}

impl ImageData {
    /// Decoded size in bytes (saturating).
    pub fn byte_len(&self) -> (r: usize)
        ensures
            r == image_bytes(*self),
    {
        let n = self.pixels.len();
        if n > usize::MAX / 4 {
            usize::MAX
        } else {
            n * 4
        }
    }
}

/// A request for the decoder.
pub struct LoadRequest {
    pub generation: u64,
    pub path: String,
}

impl LoadRequest {
    /// Whether the request belongs to the `current` generation. The decoder
    /// drops a request that does not, both before decoding it and before
    /// sending its result, so that work for a working set left behind is
    /// discarded.
    pub fn is_current(&self, current: u64) -> (r: bool)
        ensures
            r == (self.generation == current),
    {
        self.generation == current
    }
}

/// What the decoder made of a request.
pub struct LoadResult {
    pub generation: u64,
    pub path: String,
    pub result: Result<Arc<ImageData>, String>,
}

struct CachedImage {
    path: String,
    image: Arc<ImageData>,
}

struct CachedError {
    path: String,
    message: String,
}

/// The cache as data: decoded images and decode errors by path, the paths
/// requested and not yet answered, the generation and the byte budget
/// (0: unlimited).
pub struct CacheView {
    pub images: Seq<(Seq<char>, Arc<ImageData>)>,
    pub errors: Seq<(Seq<char>, Seq<char>)>,
    pub queued: Seq<Seq<char>>,
    pub generation: u64,
    pub max_bytes: usize,
}

pub struct ImageCache {
    images: Vec<CachedImage>,
    errors: Vec<CachedError>,
    queued: Vec<String>,
    current_generation: u64,
    max_bytes: usize,
}

// ---------------------------------------------------------------------------
// Keyed sequences.

pub open spec fn unique_paths<V>(s: Seq<(Seq<char>, V)>) -> bool {
    forall|i: int, j: int|
        0 <= i < s.len() && 0 <= j < s.len() && i != j ==> #[trigger] s[i].0 != #[trigger] s[j].0
}

/// The value stored under `p`.
pub open spec fn lookup<V>(s: Seq<(Seq<char>, V)>, p: Seq<char>) -> Option<V>
    decreases s.len(),
{
    if s.len() == 0 {
        None
    } else if s.last().0 == p {
        Some(s.last().1)
    } else {
        lookup(s.drop_last(), p)
    }
}

/// `s` without the entries stored under `p`.
pub open spec fn without_path<V>(s: Seq<(Seq<char>, V)>, p: Seq<char>) -> Seq<(Seq<char>, V)>
    decreases s.len(),
{
    if s.len() == 0 {
        s
    } else if s.last().0 == p {
        without_path(s.drop_last(), p)
    } else {
        without_path(s.drop_last(), p).push(s.last())
    }
}

/// The entry `e` with its value replaced by `v` when it is stored under `p`.
pub open spec fn replaced<V>(e: (Seq<char>, V), p: Seq<char>, v: V) -> (Seq<char>, V) {
    if e.0 == p {
        (p, v)
    } else {
        e
    }
}

/// `s` with `v` stored under `p`: in place when `p` is present, at the end
/// otherwise.
pub open spec fn with_value<V>(s: Seq<(Seq<char>, V)>, p: Seq<char>, v: V) -> Seq<(Seq<char>, V)> {
    if lookup(s, p) is Some {
        s.map_values(|e: (Seq<char>, V)| replaced(e, p, v))
    } else {
        s.push((p, v))
    }
}

/// The entries of `s` whose path is in `keep`.
pub open spec fn keep_only<V>(s: Seq<(Seq<char>, V)>, keep: Seq<Seq<char>>) -> Seq<(Seq<char>, V)>
    decreases s.len(),
{
    if s.len() == 0 {
        s
    } else if keep.contains(s.last().0) {
        keep_only(s.drop_last(), keep).push(s.last())
    } else {
        keep_only(s.drop_last(), keep)
    }
}

/// Total decoded bytes of the images in `s`.
pub open spec fn total_bytes(s: Seq<(Seq<char>, Arc<ImageData>)>) -> nat
    decreases s.len(),
{
    if s.len() == 0 {
        0
    } else {
        total_bytes(s.drop_last()) + shared_bytes(s.last().1)
    }
}

pub open spec fn saturated(n: nat) -> nat {
    if n > usize::MAX {
        usize::MAX as nat
    } else {
        n
    }
}

pub open spec fn saturating_sub(a: nat, b: nat) -> nat {
    if a >= b {
        (a - b) as nat
    } else {
        0
    }
}

/// Drops images named by `keep[k-1]`, `keep[k-2]`, ..., `keep[1]`, in that
/// order, until the running byte count `counter` is within `max`.
pub open spec fn evict(
    s: Seq<(Seq<char>, Arc<ImageData>)>,
    keep: Seq<Seq<char>>,
    k: int,
    counter: nat,
    max: nat,
) -> Seq<(Seq<char>, Arc<ImageData>)>
    decreases k,
{
    if k <= 1 || counter <= max {
        s
    } else {
        match lookup(s, keep[k - 1]) {
            Some(img) => evict(
                without_path(s, keep[k - 1]),
                keep,
                k - 1,
                saturating_sub(counter, shared_bytes(img)),
                max,
            ),
            None => evict(s, keep, k - 1, counter, max),
        }
    }
}

/// The images left once the budget is enforced: nothing changes with no
/// budget or when the images fit; otherwise the farthest neighbours of the
/// keep list go first, and its first entry (the current image) stays.
pub open spec fn within_budget(
    s: Seq<(Seq<char>, Arc<ImageData>)>,
    keep: Seq<Seq<char>>,
    max: nat,
) -> Seq<(Seq<char>, Arc<ImageData>)> {
    if max == 0 || saturated(total_bytes(s)) <= max {
        s
    } else {
        evict(s, keep, keep.len() as int, saturated(total_bytes(s)), max)
    }
}

/// The generation after a change of the working set: the next one, wrapping
/// around to 1.
pub open spec fn next_generation(g: u64) -> u64 {
    if g == u64::MAX {
        1
    } else {
        (g + 1) as u64
    }
}

/// The paths of `preload[..n]` to request: those not decoded and not already
/// requested, each once.
pub open spec fn fresh_paths(
    preload: Seq<Seq<char>>,
    images: Seq<(Seq<char>, Arc<ImageData>)>,
    n: int,
) -> Seq<Seq<char>>
    decreases n,
{
    if n <= 0 {
        Seq::empty()
    } else {
        let prev = fresh_paths(preload, images, n - 1);
        let p = preload[n - 1];
        if lookup(images, p) is Some || prev.contains(p) {
            prev
        } else {
            prev.push(p)
        }
    }
}

/// `s` without any occurrence of `p`.
pub open spec fn remove_all(s: Seq<Seq<char>>, p: Seq<char>) -> Seq<Seq<char>>
    decreases s.len(),
{
    if s.len() == 0 {
        s
    } else if s.last() == p {
        remove_all(s.drop_last(), p)
    } else {
        remove_all(s.drop_last(), p).push(s.last())
    }
}

pub open spec fn path_views(s: Seq<String>) -> Seq<Seq<char>> {
    s.map_values(|p: String| p@)
}

pub open spec fn request_paths(s: Seq<LoadRequest>) -> Seq<Seq<char>> {
    s.map_values(|q: LoadRequest| q.path@)
}

/// No path is both decoded and failed.
pub open spec fn never_both(v: CacheView) -> bool {
    forall|q: Seq<char>|
        #![trigger lookup(v.images, q)]
        #![trigger lookup(v.errors, q)]
        !(lookup(v.images, q) is Some && lookup(v.errors, q) is Some)
}

pub open spec fn cache_wf(v: CacheView) -> bool {
    unique_paths(v.images) && unique_paths(v.errors) && v.generation >= 1 && never_both(v)
}

/// The cache after one decoder result, while `keep` is the working set.
pub open spec fn apply_result(v: CacheView, done: LoadResult, keep: Seq<Seq<char>>) -> CacheView {
    if done.generation != v.generation {
        v
    } else {
        let p = done.path@;
        let queued = remove_all(v.queued, p);
        if !keep.contains(p) {
            CacheView { queued, ..v }
        } else {
            match done.result {
                Ok(img) => CacheView {
                    images: with_value(v.images, p, img),
                    errors: without_path(v.errors, p),
                    queued,
                    ..v
                },
                Err(message) => CacheView {
                    images: without_path(v.images, p),
                    errors: with_value(v.errors, p, message@),
                    queued,
                    ..v
                },
            }
        }
    }
}

/// Whether a result changes what is shown: it is of the current generation
/// and its path is in the working set.
pub open spec fn result_counts(v: CacheView, done: LoadResult, keep: Seq<Seq<char>>) -> bool {
    done.generation == v.generation && keep.contains(done.path@)
}

/// The cache after `results[..n]`, in order, and whether any of them counted.
pub open spec fn apply_results(
    v: CacheView,
    results: Seq<LoadResult>,
    keep: Seq<Seq<char>>,
    n: int,
) -> (CacheView, bool)
    decreases n,
{
    if n <= 0 {
        (v, false)
    } else {
        let (prev, changed) = apply_results(v, results, keep, n - 1);
        (
            apply_result(prev, results[n - 1], keep),
            changed || result_counts(prev, results[n - 1], keep),
        )
    }
}


// ---------------------------------------------------------------------------
// Laws of keyed sequences.

pub proof fn lemma_lookup<V>(s: Seq<(Seq<char>, V)>, p: Seq<char>)
    ensures
        lookup(s, p) is Some <==> exists|i: int| 0 <= i < s.len() && #[trigger] s[i].0 == p,
        unique_paths(s) ==> forall|i: int|
            0 <= i < s.len() && #[trigger] s[i].0 == p ==> lookup(s, p) == Some(s[i].1),
    decreases s.len(),
{
    if s.len() > 0 {
        lemma_lookup(s.drop_last(), p);
        if s.last().0 != p {
            if exists|i: int| 0 <= i < s.len() && #[trigger] s[i].0 == p {
                let i = choose|i: int| 0 <= i < s.len() && #[trigger] s[i].0 == p;
                assert(s.drop_last()[i].0 == p);
            }
        }
        if unique_paths(s) {
            assert(unique_paths(s.drop_last())) by {
                assert forall|i: int, j: int|
                    0 <= i < s.drop_last().len() && 0 <= j < s.drop_last().len() && i != j implies #[trigger] s.drop_last()[i].0
                    != #[trigger] s.drop_last()[j].0 by {
                    assert(s[i].0 != s[j].0);
                }
            }
            assert forall|i: int| 0 <= i < s.len() && #[trigger] s[i].0 == p implies lookup(s, p)
                == Some(s[i].1) by {
                if i < s.len() - 1 {
                    assert(s[s.len() - 1].0 != s[i].0);
                    assert(s.drop_last()[i].0 == p);
                }
            }
        }
    }
}

proof fn lemma_unique_push<V>(s: Seq<(Seq<char>, V)>, e: (Seq<char>, V))
    requires
        unique_paths(s),
        lookup(s, e.0) is None,
    ensures
        unique_paths(s.push(e)),
{
    lemma_lookup(s, e.0);
    assert forall|i: int, j: int|
        0 <= i < s.push(e).len() && 0 <= j < s.push(e).len() && i != j implies #[trigger] s.push(
        e,
    )[i].0 != #[trigger] s.push(e)[j].0 by {
        if i < s.len() && j < s.len() {
        } else if i < s.len() {
            assert(s[i].0 != e.0);
        } else {
            assert(s[j].0 != e.0);
        }
    }
}

pub proof fn lemma_keep_only<V>(s: Seq<(Seq<char>, V)>, keep: Seq<Seq<char>>)
    requires
        unique_paths(s),
    ensures
        unique_paths(keep_only(s, keep)),
        forall|q: Seq<char>|
            #[trigger] lookup(keep_only(s, keep), q) == if keep.contains(q) {
                lookup(s, q)
            } else {
                None
            },
    decreases s.len(),
{
    if s.len() > 0 {
        let d = s.drop_last();
        lemma_lookup(s, s.last().0);
        assert(unique_paths(d)) by {
            assert forall|i: int, j: int|
                0 <= i < d.len() && 0 <= j < d.len() && i != j implies #[trigger] d[i].0
                != #[trigger] d[j].0 by {
                assert(s[i].0 != s[j].0);
            }
        }
        lemma_keep_only(d, keep);
        lemma_lookup(d, s.last().0);
        if exists|i: int| 0 <= i < d.len() && #[trigger] d[i].0 == s.last().0 {
            let i = choose|i: int| 0 <= i < d.len() && #[trigger] d[i].0 == s.last().0;
            assert(s[i].0 == s[s.len() - 1].0);
        }
        let kd = keep_only(d, keep);
        if keep.contains(s.last().0) {
            lemma_unique_push(kd, s.last());
        }
        assert forall|q: Seq<char>| #[trigger] lookup(keep_only(s, keep), q) == if keep.contains(q) {
            lookup(s, q)
        } else {
            None
        } by {
            if keep.contains(s.last().0) {
                assert(kd.push(s.last()).drop_last() =~= kd);
            }
        }
    }
}

pub proof fn lemma_without_path<V>(s: Seq<(Seq<char>, V)>, p: Seq<char>)
    requires
        unique_paths(s),
    ensures
        unique_paths(without_path(s, p)),
        forall|q: Seq<char>|
            #[trigger] lookup(without_path(s, p), q) == if q == p {
                None
            } else {
                lookup(s, q)
            },
    decreases s.len(),
{
    if s.len() > 0 {
        let d = s.drop_last();
        assert(unique_paths(d)) by {
            assert forall|i: int, j: int|
                0 <= i < d.len() && 0 <= j < d.len() && i != j implies #[trigger] d[i].0
                != #[trigger] d[j].0 by {
                assert(s[i].0 != s[j].0);
            }
        }
        lemma_without_path(d, p);
        lemma_lookup(d, s.last().0);
        if exists|i: int| 0 <= i < d.len() && #[trigger] d[i].0 == s.last().0 {
            let i = choose|i: int| 0 <= i < d.len() && #[trigger] d[i].0 == s.last().0;
            assert(s[i].0 == s[s.len() - 1].0);
        }
        let wd = without_path(d, p);
        if s.last().0 != p {
            lemma_unique_push(wd, s.last());
        }
        assert forall|q: Seq<char>| #[trigger] lookup(without_path(s, p), q) == if q == p {
            None
        } else {
            lookup(s, q)
        } by {
            assert(lookup(wd, q) == if q == p {
                None
            } else {
                lookup(d, q)
            });
            if s.last().0 != p {
                assert(wd.push(s.last()).drop_last() =~= wd);
            }
        }
    }
}

pub proof fn lemma_with_value<V>(s: Seq<(Seq<char>, V)>, p: Seq<char>, v: V)
    requires
        unique_paths(s),
    ensures
        unique_paths(with_value(s, p, v)),
        forall|q: Seq<char>|
            #[trigger] lookup(with_value(s, p, v), q) == if q == p {
                Some(v)
            } else {
                lookup(s, q)
            },
{
    lemma_lookup(s, p);
    let w = with_value(s, p, v);
    if lookup(s, p) is Some {
        assert(unique_paths(w)) by {
            assert forall|i: int, j: int|
                0 <= i < w.len() && 0 <= j < w.len() && i != j implies #[trigger] w[i].0
                != #[trigger] w[j].0 by {
                assert(s[i].0 != s[j].0);
            }
        }
        assert forall|q: Seq<char>| #[trigger] lookup(w, q) == if q == p {
            Some(v)
        } else {
            lookup(s, q)
        } by {
            lemma_lookup(s, q);
            lemma_lookup(w, q);
            if exists|i: int| 0 <= i < s.len() && #[trigger] s[i].0 == q {
                let i = choose|i: int| 0 <= i < s.len() && #[trigger] s[i].0 == q;
                assert(w[i].0 == q);
            } else {
                if exists|i: int| 0 <= i < w.len() && #[trigger] w[i].0 == q {
                    let i = choose|i: int| 0 <= i < w.len() && #[trigger] w[i].0 == q;
                    if s[i].0 != p {
                        assert(s[i].0 == q);
                    }
                }
            }
        }
    } else {
        lemma_unique_push(s, (p, v));
        assert forall|q: Seq<char>| #[trigger] lookup(w, q) == if q == p {
            Some(v)
        } else {
            lookup(s, q)
        } by {
            assert(w.drop_last() =~= s);
        }
    }
}

/// Removing a path that is not stored changes nothing.
pub proof fn lemma_without_absent<V>(s: Seq<(Seq<char>, V)>, p: Seq<char>)
    requires
        lookup(s, p) is None,
    ensures
        without_path(s, p) == s,
    decreases s.len(),
{
    if s.len() > 0 {
        lemma_without_absent(s.drop_last(), p);
        assert(s.drop_last().push(s.last()) =~= s);
    }
}

/// Removing the image stored under `p` removes exactly its bytes.
pub proof fn lemma_total_bytes_without(s: Seq<(Seq<char>, Arc<ImageData>)>, p: Seq<char>)
    requires
        unique_paths(s),
    ensures
        total_bytes(without_path(s, p)) + match lookup(s, p) {
            Some(img) => shared_bytes(img),
            None => 0,
        } == total_bytes(s),
    decreases s.len(),
{
    if s.len() > 0 {
        let d = s.drop_last();
        assert(unique_paths(d)) by {
            assert forall|i: int, j: int|
                0 <= i < d.len() && 0 <= j < d.len() && i != j implies #[trigger] d[i].0
                != #[trigger] d[j].0 by {
                assert(s[i].0 != s[j].0);
            }
        }
        lemma_total_bytes_without(d, p);
        if s.last().0 != p {
            assert(without_path(d, p).push(s.last()).drop_last() =~= without_path(d, p));
        }
        if s.last().0 == p {
            lemma_lookup(d, p);
            if exists|i: int| 0 <= i < d.len() && #[trigger] d[i].0 == p {
                let i = choose|i: int| 0 <= i < d.len() && #[trigger] d[i].0 == p;
                assert(s[i].0 == s[s.len() - 1].0);
            }
        }
    }
}

pub proof fn lemma_evict_unique(
    s: Seq<(Seq<char>, Arc<ImageData>)>,
    keep: Seq<Seq<char>>,
    k: int,
    counter: nat,
    max: nat,
)
    requires
        unique_paths(s),
    ensures
        unique_paths(evict(s, keep, k, counter, max)),
    decreases k,
{
    if k > 1 && counter > max {
        match lookup(s, keep[k - 1]) {
            Some(img) => {
                lemma_without_path(s, keep[k - 1]);
                lemma_evict_unique(
                    without_path(s, keep[k - 1]),
                    keep,
                    k - 1,
                    saturating_sub(counter, shared_bytes(img)),
                    max,
                );
            },
            None => {
                lemma_evict_unique(s, keep, k - 1, counter, max);
            },
        }
    }
}

/// Shares an image without copying it: `std::sync::Arc::clone`, which gives a
/// pointer to the same allocation, hence the same value.
#[verifier::external_body]
fn share_image(image: &Arc<ImageData>) -> (r: Arc<ImageData>)
    ensures
        r == *image,
{
    Arc::clone(image)
}

/// Whether `keep` holds `p`.
fn list_contains(keep: &[String], p: &str) -> (r: bool)
    ensures
        r == path_views(keep@).contains(p@),
{
    let mut i: usize = 0;
    while i < keep.len()
        invariant
            i <= keep.len(),
            forall|k: int| 0 <= k < i ==> keep@[k]@ != p@,
        decreases keep.len() - i,
    {
        if str_eq(keep[i].as_str(), p) {
            assert(path_views(keep@)[i as int] == p@);
            return true;
        }
        i += 1;
    }
    assert forall|k: int| 0 <= k < path_views(keep@).len() implies path_views(keep@)[k] != p@ by {
        assert(path_views(keep@)[k] == keep@[k]@);
    }
    false
}

impl View for ImageCache {
    type V = CacheView;

    closed spec fn view(&self) -> CacheView {
        CacheView {
            images: self.images@.map_values(|e: CachedImage| (e.path@, e.image)),
            errors: self.errors@.map_values(|e: CachedError| (e.path@, e.message@)),
            queued: path_views(self.queued@),
            generation: self.current_generation,
            max_bytes: self.max_bytes,
        }
    }
}



spec fn image_entries(v: Seq<CachedImage>) -> Seq<(Seq<char>, Arc<ImageData>)> {
    v.map_values(|e: CachedImage| (e.path@, e.image))
}

spec fn error_entries(v: Seq<CachedError>) -> Seq<(Seq<char>, Seq<char>)> {
    v.map_values(|e: CachedError| (e.path@, e.message@))
}

fn copy_image_entry(e: &CachedImage) -> (r: CachedImage)
    ensures
        r.path@ == e.path@,
        r.image == e.image,
{
    CachedImage { path: e.path.clone(), image: share_image(&e.image) }
}

fn copy_error_entry(e: &CachedError) -> (r: CachedError)
    ensures
        r.path@ == e.path@,
        r.message@ == e.message@,
{
    CachedError { path: e.path.clone(), message: e.message.clone() }
}

fn images_without(v: &Vec<CachedImage>, p: &str) -> (r: Vec<CachedImage>)
    ensures
        image_entries(r@) == without_path(image_entries(v@), p@),
{
    let mut out: Vec<CachedImage> = Vec::new();
    let mut i: usize = 0;
    while i < v.len()
        invariant
            i <= v.len(),
            image_entries(out@) =~= without_path(image_entries(v@.take(i as int)), p@),
        decreases v.len() - i,
    {
        assert(image_entries(v@.take(i + 1)).drop_last() =~= image_entries(v@.take(i as int)));
        if !str_eq(v[i].path.as_str(), p) {
            out.push(copy_image_entry(&v[i]));
        }
        i += 1;
    }
    assert(v@.take(v.len() as int) =~= v@);
    out
}

fn errors_without(v: &Vec<CachedError>, p: &str) -> (r: Vec<CachedError>)
    ensures
        error_entries(r@) == without_path(error_entries(v@), p@),
{
    let mut out: Vec<CachedError> = Vec::new();
    let mut i: usize = 0;
    while i < v.len()
        invariant
            i <= v.len(),
            error_entries(out@) =~= without_path(error_entries(v@.take(i as int)), p@),
        decreases v.len() - i,
    {
        assert(error_entries(v@.take(i + 1)).drop_last() =~= error_entries(v@.take(i as int)));
        if !str_eq(v[i].path.as_str(), p) {
            out.push(copy_error_entry(&v[i]));
        }
        i += 1;
    }
    assert(v@.take(v.len() as int) =~= v@);
    out
}

fn images_kept(v: &Vec<CachedImage>, keep: &[String]) -> (r: Vec<CachedImage>)
    ensures
        image_entries(r@) == keep_only(image_entries(v@), path_views(keep@)),
{
    let mut out: Vec<CachedImage> = Vec::new();
    let mut i: usize = 0;
    while i < v.len()
        invariant
            i <= v.len(),
            image_entries(out@) =~= keep_only(image_entries(v@.take(i as int)), path_views(keep@)),
        decreases v.len() - i,
    {
        assert(image_entries(v@.take(i + 1)).drop_last() =~= image_entries(v@.take(i as int)));
        if list_contains(keep, v[i].path.as_str()) {
            out.push(copy_image_entry(&v[i]));
        }
        i += 1;
    }
    assert(v@.take(v.len() as int) =~= v@);
    out
}

fn errors_kept(v: &Vec<CachedError>, keep: &[String]) -> (r: Vec<CachedError>)
    ensures
        error_entries(r@) == keep_only(error_entries(v@), path_views(keep@)),
{
    let mut out: Vec<CachedError> = Vec::new();
    let mut i: usize = 0;
    while i < v.len()
        invariant
            i <= v.len(),
            error_entries(out@) =~= keep_only(error_entries(v@.take(i as int)), path_views(keep@)),
        decreases v.len() - i,
    {
        assert(error_entries(v@.take(i + 1)).drop_last() =~= error_entries(v@.take(i as int)));
        if list_contains(keep, v[i].path.as_str()) {
            out.push(copy_error_entry(&v[i]));
        }
        i += 1;
    }
    assert(v@.take(v.len() as int) =~= v@);
    out
}

fn images_with(v: &Vec<CachedImage>, p: &String, image: Arc<ImageData>) -> (r: Vec<CachedImage>)
    ensures
        image_entries(r@) == with_value(image_entries(v@), p@, image),
{
    let ghost s = image_entries(v@);
    let mut out: Vec<CachedImage> = Vec::new();
    let mut found = false;
    let mut i: usize = 0;
    while i < v.len()
        invariant
            i <= v.len(),
            s == image_entries(v@),
            image_entries(out@) =~= s.take(i as int).map_values(
                |e: (Seq<char>, Arc<ImageData>)| replaced(e, p@, image),
            ),
            found == exists|k: int| 0 <= k < i && #[trigger] s[k].0 == p@,
        decreases v.len() - i,
    {
        let ghost before = out@;
        assert(s[i as int] == (v@[i as int].path@, v@[i as int].image));
        if str_eq(v[i].path.as_str(), p.as_str()) {
            out.push(CachedImage { path: p.clone(), image: share_image(&image) });
            found = true;
        } else {
            out.push(copy_image_entry(&v[i]));
        }
        assert(image_entries(out@) =~= image_entries(before).push(replaced(s[i as int], p@, image)));
        assert(s.take(i + 1).map_values(|e: (Seq<char>, Arc<ImageData>)| replaced(e, p@, image))
            =~= s.take(i as int).map_values(
            |e: (Seq<char>, Arc<ImageData>)| replaced(e, p@, image),
        ).push(replaced(s[i as int], p@, image)));
        i += 1;
    }
    proof {
        assert(s.take(v.len() as int) =~= s);
        lemma_lookup(s, p@);
    }
    if !found {
        assert(s.map_values(|e: (Seq<char>, Arc<ImageData>)| replaced(e, p@, image)) =~= s) by {
            assert forall|k: int| 0 <= k < s.len() implies s[k].0 != p@ by {}
        }
        out.push(CachedImage { path: p.clone(), image });
        assert(image_entries(out@) =~= s.push((p@, image)));
    } else {
        assert(image_entries(out@) =~= s.map_values(
            |e: (Seq<char>, Arc<ImageData>)| replaced(e, p@, image),
        ));
    }
    out
}

fn errors_with(v: &Vec<CachedError>, p: &String, message: String) -> (r: Vec<CachedError>)
    ensures
        error_entries(r@) == with_value(error_entries(v@), p@, message@),
{
    let ghost s = error_entries(v@);
    let ghost m = message@;
    let mut out: Vec<CachedError> = Vec::new();
    let mut found = false;
    let mut i: usize = 0;
    while i < v.len()
        invariant
            i <= v.len(),
            s == error_entries(v@),
            m == message@,
            error_entries(out@) =~= s.take(i as int).map_values(
                |e: (Seq<char>, Seq<char>)| replaced(e, p@, m),
            ),
            found == exists|k: int| 0 <= k < i && #[trigger] s[k].0 == p@,
        decreases v.len() - i,
    {
        let ghost before = out@;
        assert(s[i as int] == (v@[i as int].path@, v@[i as int].message@));
        if str_eq(v[i].path.as_str(), p.as_str()) {
            out.push(CachedError { path: p.clone(), message: message.clone() });
            found = true;
        } else {
            out.push(copy_error_entry(&v[i]));
        }
        assert(error_entries(out@) =~= error_entries(before).push(replaced(s[i as int], p@, m)));
        assert(s.take(i + 1).map_values(|e: (Seq<char>, Seq<char>)| replaced(e, p@, m))
            =~= s.take(i as int).map_values(|e: (Seq<char>, Seq<char>)| replaced(e, p@, m)).push(
            replaced(s[i as int], p@, m),
        ));
        i += 1;
    }
    proof {
        assert(s.take(v.len() as int) =~= s);
        lemma_lookup(s, p@);
    }
    if !found {
        assert(s.map_values(|e: (Seq<char>, Seq<char>)| replaced(e, p@, m)) =~= s) by {
            assert forall|k: int| 0 <= k < s.len() implies s[k].0 != p@ by {}
        }
        out.push(CachedError { path: p.clone(), message });
        assert(error_entries(out@) =~= s.push((p@, m)));
    } else {
        assert(error_entries(out@) =~= s.map_values(|e: (Seq<char>, Seq<char>)| replaced(e, p@, m)));
    }
    out
}


/// Position of the entry stored under `p`.
fn image_position(v: &Vec<CachedImage>, p: &str) -> (r: Option<usize>)
    ensures
        match r {
            Some(i) => i < v.len() && v@[i as int].path@ == p@ && image_entries(v@)[i as int].0
                == p@,
            None => lookup(image_entries(v@), p@) is None,
        },
{
    let mut i: usize = 0;
    while i < v.len()
        invariant
            i <= v.len(),
            forall|k: int| 0 <= k < i ==> #[trigger] v@[k].path@ != p@,
        decreases v.len() - i,
    {
        if str_eq(v[i].path.as_str(), p) {
            return Some(i);
        }
        i += 1;
    }
    proof {
        lemma_lookup(image_entries(v@), p@);
        assert forall|k: int| 0 <= k < v.len() implies #[trigger] image_entries(v@)[k].0 != p@ by {
            assert(image_entries(v@)[k].0 == v@[k].path@);
        }
    }
    None
}

fn error_position(v: &Vec<CachedError>, p: &str) -> (r: Option<usize>)
    ensures
        match r {
            Some(i) => i < v.len() && v@[i as int].path@ == p@ && error_entries(v@)[i as int].0
                == p@,
            None => lookup(error_entries(v@), p@) is None,
        },
{
    let mut i: usize = 0;
    while i < v.len()
        invariant
            i <= v.len(),
            forall|k: int| 0 <= k < i ==> #[trigger] v@[k].path@ != p@,
        decreases v.len() - i,
    {
        if str_eq(v[i].path.as_str(), p) {
            return Some(i);
        }
        i += 1;
    }
    proof {
        lemma_lookup(error_entries(v@), p@);
        assert forall|k: int| 0 <= k < v.len() implies #[trigger] error_entries(v@)[k].0 != p@ by {
            assert(error_entries(v@)[k].0 == v@[k].path@);
        }
    }
    None
}

/// Whether `list` holds `p`.
fn queued_contains(list: &Vec<String>, p: &str) -> (r: bool)
    ensures
        r == path_views(list@).contains(p@),
{
    list_contains(list.as_slice(), p)
}

impl ImageCache {
    /// Well-formed: each path stored once among the images and once among
    /// the errors, never both decoded and failed, and a generation of at
    /// least 1.
    pub open spec fn wf(&self) -> bool {
        cache_wf(self@)
    }

    /// An empty cache with a budget of `max_cache_mb` MiB (saturating; 0 means
    /// no budget).
    pub fn new(max_cache_mb: usize) -> (r: Self)
        ensures
            r.wf(),
            r@.images.len() == 0,
            r@.errors.len() == 0,
            r@.queued.len() == 0,
            r@.generation == 1,
            r@.max_bytes as int == saturated(max_cache_mb as nat * 1048576),
    {
        let max_bytes = if max_cache_mb > usize::MAX / 1048576 {
            usize::MAX
        } else {
            max_cache_mb * 1048576
        };
        let r = ImageCache {
            images: Vec::new(),
            errors: Vec::new(),
            queued: Vec::new(),
            current_generation: 1,
            max_bytes,
        };
        assert(r@.images =~= Seq::<(Seq<char>, Arc<ImageData>)>::empty());
        assert(r@.errors =~= Seq::<(Seq<char>, Seq<char>)>::empty());
        r
    }

    /// The generation that current load requests carry.
    pub fn generation(&self) -> (r: u64)
        ensures
            r == self@.generation,
    {
        self.current_generation
    }

    /// Forgets everything and starts a new generation.
    pub fn reset(&mut self)
        requires
            old(self).wf(),
        ensures
            final(self).wf(),
            final(self)@.images.len() == 0,
            final(self)@.errors.len() == 0,
            final(self)@.queued.len() == 0,
            final(self)@.generation == next_generation(old(self)@.generation),
            final(self)@.max_bytes == old(self)@.max_bytes,
    {
        self.current_generation = if self.current_generation == u64::MAX {
            1
        } else {
            self.current_generation + 1
        };
        self.images = Vec::new();
        self.errors = Vec::new();
        self.queued = Vec::new();
        assert(self@.images =~= Seq::<(Seq<char>, Arc<ImageData>)>::empty());
        assert(self@.errors =~= Seq::<(Seq<char>, Seq<char>)>::empty());
    }

    /// The decoded image of `path`, if it is cached.
    pub fn get(&self, path: &str) -> (r: Option<Arc<ImageData>>)
        requires
            self.wf(),
        ensures
            r == lookup(self@.images, path@),
    {
        match image_position(&self.images, path) {
            Some(i) => {
                proof {
                    lemma_lookup(self@.images, path@);
                }
                Some(share_image(&self.images[i].image))
            },
            None => None,
        }
    }

    /// The decode error of `path`, if its last decode failed.
    pub fn error(&self, path: &str) -> (r: Option<&str>)
        requires
            self.wf(),
        ensures
            r is Some <==> lookup(self@.errors, path@) is Some,
            r is Some ==> r.unwrap()@ == lookup(self@.errors, path@).unwrap(),
    {
        match error_position(&self.errors, path) {
            Some(i) => {
                proof {
                    lemma_lookup(self@.errors, path@);
                }
                Some(self.errors[i].message.as_str())
            },
            None => None,
        }
    }

    /// Total decoded bytes of the cached images (saturating).
    pub fn decoded_bytes(&self) -> (r: usize)
        ensures
            r == saturated(total_bytes(self@.images)),
    {
        let mut total: usize = 0;
        let mut i: usize = 0;
        while i < self.images.len()
            invariant
                i <= self.images.len(),
                total == saturated(total_bytes(self@.images.take(i as int))),
            decreases self.images.len() - i,
        {
            assert(self@.images.take(i + 1).drop_last() =~= self@.images.take(i as int));
            assert(self@.images[i as int].1 == self.images@[i as int].image);
            let b = self.images[i].image.byte_len();
            total = if total > usize::MAX - b {
                usize::MAX
            } else {
                total + b
            };
            i += 1;
        }
        assert(self@.images.take(self.images.len() as int) =~= self@.images);
        total
    }

    /// Drops the image stored under `p`; gives its decoded size when there was one.
    fn remove_image(&mut self, p: &str) -> (r: Option<usize>)
        requires
            old(self).wf(),
        ensures
            final(self).wf(),
            final(self)@ == (CacheView { images: without_path(old(self)@.images, p@), ..old(self)@ }),
            match lookup(old(self)@.images, p@) {
                Some(img) => r == Some(image_bytes(*img) as usize),
                None => r is None,
            },
    {
        let found = image_position(&self.images, p);
        let r = match found {
            Some(i) => {
                proof {
                    lemma_lookup(self@.images, p@);
                }
                Some(self.images[i].image.byte_len())
            },
            None => None,
        };
        let kept = images_without(&self.images, p);
        proof {
            lemma_without_path(self@.images, p@);
        }
        self.images = kept;
        r
    }

    /// Drops the farthest neighbours of `keep` (never its first entry) until
    /// the decoded images fit the budget.
    fn enforce_budget(&mut self, keep: &[String])
        requires
            old(self).wf(),
        ensures
            final(self).wf(),
            final(self)@ == (CacheView {
                images: within_budget(
                    old(self)@.images,
                    path_views(keep@),
                    old(self)@.max_bytes as nat,
                ),
                ..old(self)@
            }),
    {
        if self.max_bytes == 0 {
            return;
        }
        let mut bytes = self.decoded_bytes();
        if bytes <= self.max_bytes {
            return;
        }
        let ghost start = self@;
        let ghost keys = path_views(keep@);
        let mut k = keep.len();
        while k > 1 && bytes > self.max_bytes
            invariant
                k <= keep.len(),
                keys == path_views(keep@),
                self.wf(),
                self@ == (CacheView { images: self@.images, ..start }),
                self.max_bytes == start.max_bytes,
                evict(self@.images, keys, k as int, bytes as nat, self.max_bytes as nat) == evict(
                    start.images,
                    keys,
                    keep.len() as int,
                    saturated(total_bytes(start.images)),
                    start.max_bytes as nat,
                ),
            decreases k,
        {
            assert(keys[k - 1] == keep@[k - 1]@);
            let ghost before_images = self@.images;
            let ghost before_bytes = bytes as nat;
            match self.remove_image(keep[k - 1].as_str()) {
                Some(b) => {
                    bytes = if bytes >= b {
                        bytes - b
                    } else {
                        0
                    };
                    assert(bytes as nat == saturating_sub(
                        before_bytes,
                        shared_bytes(lookup(before_images, keys[k - 1]).unwrap()),
                    ));
                },
                None => {
                    proof {
                        lemma_without_absent(before_images, keys[k - 1]);
                    }
                },
            }
            assert(evict(before_images, keys, k as int, before_bytes, self.max_bytes as nat) == evict(
                self@.images,
                keys,
                k - 1,
                bytes as nat,
                self.max_bytes as nat,
            ));
            k -= 1;
        }
        assert(evict(self@.images, keys, k as int, bytes as nat, self.max_bytes as nat)
            == self@.images);
        assert(self@.images == within_budget(start.images, keys, start.max_bytes as nat));
        proof {
            lemma_evict_unique(start.images, keys, keep.len() as int, saturated(total_bytes(start.images)), start.max_bytes as nat);
        }
    }
}


fn queued_without(v: &Vec<String>, p: &str) -> (r: Vec<String>)
    ensures
        path_views(r@) == remove_all(path_views(v@), p@),
{
    let mut out: Vec<String> = Vec::new();
    let mut i: usize = 0;
    while i < v.len()
        invariant
            i <= v.len(),
            path_views(out@) =~= remove_all(path_views(v@.take(i as int)), p@),
        decreases v.len() - i,
    {
        assert(path_views(v@.take(i + 1)).drop_last() =~= path_views(v@.take(i as int)));
        if !str_eq(v[i].as_str(), p) {
            out.push(v[i].clone());
        }
        i += 1;
    }
    assert(v@.take(v.len() as int) =~= v@);
    out
}

impl ImageCache {
    /// Moves the working set: starts a new generation, forgets queued work,
    /// keeps only the images and errors of `keep_priority`, enforces the budget,
    /// and gives the requests to send for the images of `preload_priority`
    /// that are neither decoded nor already requested.
    pub fn recenter(&mut self, preload_priority: &[String], keep_priority: &[String]) -> (r: Vec<
        LoadRequest,
    >)
        requires
            old(self).wf(),
        ensures
            final(self).wf(),
            ({
                let keep = path_views(keep_priority@);
                let images = within_budget(
                    keep_only(old(self)@.images, keep),
                    keep,
                    old(self)@.max_bytes as nat,
                );
                let fresh = fresh_paths(
                    path_views(preload_priority@),
                    images,
                    preload_priority.len() as int,
                );
                &&& final(self)@ == CacheView {
                    images,
                    errors: keep_only(old(self)@.errors, keep),
                    queued: fresh,
                    generation: next_generation(old(self)@.generation),
                    max_bytes: old(self)@.max_bytes,
                }
                &&& request_paths(r@) == fresh
                &&& forall|k: int|
                    0 <= k < r.len() ==> #[trigger] r@[k].generation == final(self)@.generation
            }),
    {
        let ghost keep = path_views(keep_priority@);
        let ghost preload = path_views(preload_priority@);
        proof {
            lemma_keep_only(self@.images, keep);
            lemma_keep_only(self@.errors, keep);
        }
        self.current_generation = if self.current_generation == u64::MAX {
            1
        } else {
            self.current_generation + 1
        };
        self.queued = Vec::new();
        let images = images_kept(&self.images, keep_priority);
        let errors = errors_kept(&self.errors, keep_priority);
        self.images = images;
        self.errors = errors;
        self.enforce_budget(keep_priority);
        assert(path_views(self.queued@) =~= fresh_paths(preload, self@.images, 0));
        let ghost settled = self@;
        let mut out: Vec<LoadRequest> = Vec::new();
        let mut i: usize = 0;
        while i < preload_priority.len()
            invariant
                i <= preload_priority.len(),
                preload == path_views(preload_priority@),
                self.wf(),
                path_views(self.queued@) == fresh_paths(preload, self@.images, i as int),
                request_paths(out@) == fresh_paths(preload, self@.images, i as int),
                forall|k: int|
                    0 <= k < out.len() ==> #[trigger] out@[k].generation == self.current_generation,
                self@ == (CacheView { queued: self@.queued, ..settled }),
            decreases preload_priority.len() - i,
        {
            let p = preload_priority[i].as_str();
            assert(preload[i as int] == p@);
            let decoded = image_position(&self.images, p).is_some();
            if decoded {
                proof {
                    lemma_lookup(self@.images, p@);
                }
            }
            if !decoded && !queued_contains(&self.queued, p) {
                let ghost before_q = self.queued@;
                let ghost before_out = out@;
                self.queued.push(preload_priority[i].clone());
                out.push(
                    LoadRequest {
                        generation: self.current_generation,
                        path: preload_priority[i].clone(),
                    },
                );
                assert(path_views(self.queued@) =~= path_views(before_q).push(p@));
                assert(request_paths(out@) =~= request_paths(before_out).push(p@));
            }
            i += 1;
        }
        out
    }

    /// Takes the decoder results that arrived, in order. A result of an older
    /// generation is ignored; otherwise its path is no longer queued, and when
    /// the path is in `keep_priority` the image (or the error) replaces what
    /// was cached for it. When any result counted, the budget is enforced.
    /// Tells whether any result counted.
    pub fn poll(&mut self, results: Vec<LoadResult>, keep_priority: &[String]) -> (changed: bool)
        requires
            old(self).wf(),
        ensures
            final(self).wf(),
            ({
                let keep = path_views(keep_priority@);
                let (v, counted) = apply_results(old(self)@, results@, keep, results.len() as int);
                &&& changed == counted
                &&& final(self)@ == if counted {
                    CacheView { images: within_budget(v.images, keep, v.max_bytes as nat), ..v }
                } else {
                    v
                }
            }),
    {
        let ghost keep = path_views(keep_priority@);
        let ghost start = self@;
        let mut changed = false;
        let mut i: usize = 0;
        while i < results.len()
            invariant
                i <= results.len(),
                keep == path_views(keep_priority@),
                self.wf(),
                (self@, changed) == apply_results(start, results@, keep, i as int),
            decreases results.len() - i,
        {
            let done = &results[i];
            if done.generation == self.current_generation {
                let p = done.path.as_str();
                let queued = queued_without(&self.queued, p);
                self.queued = queued;
                if list_contains(keep_priority, p) {
                    match &done.result {
                        Ok(image) => {
                            proof {
                                lemma_without_path(self@.errors, p@);
                                lemma_with_value(self@.images, p@, *image);
                            }
                            let errors = errors_without(&self.errors, p);
                            let images = images_with(&self.images, &done.path, share_image(image));
                            self.errors = errors;
                            self.images = images;
                        },
                        Err(message) => {
                            proof {
                                lemma_without_path(self@.images, p@);
                                lemma_with_value(self@.errors, p@, message@);
                            }
                            let images = images_without(&self.images, p);
                            let errors = errors_with(&self.errors, &done.path, message.clone());
                            self.images = images;
                            self.errors = errors;
                        },
                    }
                    changed = true;
                }
            }
            i += 1;
        }
        if changed {
            self.enforce_budget(keep_priority);
        }
        changed
    }
}


// ---------------------------------------------------------------------------
// Laws of the budget.

proof fn lemma_evict(
    s: Seq<(Seq<char>, Arc<ImageData>)>,
    keep: Seq<Seq<char>>,
    k: int,
    counter: nat,
    max: nat,
)
    requires
        unique_paths(s),
        counter == total_bytes(s),
        k <= keep.len(),
    ensures
        ({
            let r = evict(s, keep, k, counter, max);
            &&& unique_paths(r)
            &&& total_bytes(r) <= max || forall|i: int|
                1 <= i < k ==> lookup(r, #[trigger] keep[i]) is None
            &&& forall|q: Seq<char>|
                #[trigger] lookup(r, q) is Some ==> lookup(r, q) == lookup(s, q)
            &&& forall|q: Seq<char>|
                (forall|i: int| 1 <= i < k ==> keep[i] != q) ==> #[trigger] lookup(r, q) == lookup(s, q)
            &&& keep.no_duplicates() ==> forall|i: int, j: int|
                1 <= i < j < k && lookup(s, keep[i]) is Some && lookup(r, #[trigger] keep[i]) is None
                    ==> lookup(r, #[trigger] keep[j]) is None
        }),
    decreases k,
{
    if k > 1 && counter > max {
        let p = keep[k - 1];
        let s2 = without_path(s, p);
        lemma_without_path(s, p);
        lemma_total_bytes_without(s, p);
        let counter2 = match lookup(s, p) {
            Some(img) => saturating_sub(counter, shared_bytes(img)),
            None => counter,
        };
        if lookup(s, p) is None {
            lemma_without_absent(s, p);
        }
        lemma_evict(s2, keep, k - 1, counter2, max);
        let r = evict(s, keep, k, counter, max);
        assert(r == evict(s2, keep, k - 1, counter2, max));
        assert(lookup(r, p) is None) by {
            if lookup(r, p) is Some {
                assert(lookup(r, p) == lookup(s2, p));
            }
        }
        assert forall|q: Seq<char>| #[trigger] lookup(r, q) is Some implies lookup(r, q) == lookup(
            s,
            q,
        ) by {
            assert(lookup(r, q) == lookup(s2, q));
        }
        assert forall|q: Seq<char>|
            (forall|i: int| 1 <= i < k ==> keep[i] != q) implies #[trigger] lookup(r, q) == lookup(
            s,
            q,
        ) by {
            assert(keep[k - 1] != q);
            assert(forall|i: int| 1 <= i < k - 1 ==> keep[i] != q);
        }
        if keep.no_duplicates() {
            assert forall|i: int, j: int|
                1 <= i < j < k && lookup(s, keep[i]) is Some && lookup(r, #[trigger] keep[i]) is None
                    implies lookup(r, #[trigger] keep[j]) is None by {
                if j < k - 1 {
                    assert(keep[i] != keep[k - 1]);
                    assert(lookup(s2, keep[i]) == lookup(s, keep[i]));
                }
            }
        }
    }
}

/// The budget law: with a budget, after enforcement the images fit it, or
/// none of the neighbours in `keep[1..]` is left. Only images are dropped,
/// never changed, and only images named in `keep[1..]`; so the current image
/// `keep[0]` stays unless it is also listed as a neighbour.
pub proof fn lemma_budget_respected(
    s: Seq<(Seq<char>, Arc<ImageData>)>,
    keep: Seq<Seq<char>>,
    max: nat,
)
    requires
        unique_paths(s),
        total_bytes(s) <= usize::MAX,
    ensures
        ({
            let r = within_budget(s, keep, max);
            &&& unique_paths(r)
            &&& max == 0 || total_bytes(r) <= max || forall|i: int|
                1 <= i < keep.len() ==> lookup(r, #[trigger] keep[i]) is None
            &&& forall|q: Seq<char>|
                #[trigger] lookup(r, q) is Some ==> lookup(r, q) == lookup(s, q)
            &&& forall|q: Seq<char>|
                (forall|i: int| 1 <= i < keep.len() ==> keep[i] != q) ==> #[trigger] lookup(r, q)
                    == lookup(s, q)
        }),
{
    if !(max == 0 || saturated(total_bytes(s)) <= max) {
        lemma_evict(s, keep, keep.len() as int, total_bytes(s), max);
    }
}

/// Neighbours are dropped farthest first: when a listed neighbour that was
/// cached is dropped, every neighbour listed after it is gone too.
pub proof fn lemma_budget_farthest_first(
    s: Seq<(Seq<char>, Arc<ImageData>)>,
    keep: Seq<Seq<char>>,
    max: nat,
)
    requires
        unique_paths(s),
        total_bytes(s) <= usize::MAX,
        keep.no_duplicates(),
    ensures
        ({
            let r = within_budget(s, keep, max);
            forall|i: int, j: int|
                1 <= i < j < keep.len() && lookup(s, keep[i]) is Some && lookup(
                    r,
                    #[trigger] keep[i],
                ) is None ==> lookup(r, #[trigger] keep[j]) is None
        }),
{
    if !(max == 0 || saturated(total_bytes(s)) <= max) {
        lemma_evict(s, keep, keep.len() as int, total_bytes(s), max);
    }
}

/// What a read gives back after a write: `with_value`, `without_path` and
/// `keep_only` behave as map updates on keyed sequences without repeated keys.
pub proof fn lemma_cache_reads(s: Seq<(Seq<char>, Arc<ImageData>)>, p: Seq<char>, img: Arc<ImageData>, keep: Seq<Seq<char>>)
    requires
        unique_paths(s),
    ensures
        lookup(with_value(s, p, img), p) == Some(img),
        lookup(without_path(s, p), p) is None,
        forall|q: Seq<char>| q != p ==> #[trigger] lookup(with_value(s, p, img), q) == lookup(s, q),
        forall|q: Seq<char>| q != p ==> #[trigger] lookup(without_path(s, p), q) == lookup(s, q),
        forall|q: Seq<char>|
            #[trigger] lookup(keep_only(s, keep), q) == if keep.contains(q) {
                lookup(s, q)
            } else {
                None
            },
{
    lemma_with_value(s, p, img);
    lemma_without_path(s, p);
    lemma_keep_only(s, keep);
}

proof fn lemma_evict_drops(
    s: Seq<(Seq<char>, Arc<ImageData>)>,
    keep: Seq<Seq<char>>,
    k: int,
    counter: nat,
    max: nat,
)
    requires
        unique_paths(s),
    ensures
        unique_paths(evict(s, keep, k, counter, max)),
        forall|q: Seq<char>|
            #[trigger] lookup(evict(s, keep, k, counter, max), q) is Some ==> lookup(
                evict(s, keep, k, counter, max),
                q,
            ) == lookup(s, q),
    decreases k,
{
    if k > 1 && counter > max {
        let p = keep[k - 1];
        match lookup(s, p) {
            Some(img) => {
                lemma_without_path(s, p);
                lemma_evict_drops(
                    without_path(s, p),
                    keep,
                    k - 1,
                    saturating_sub(counter, shared_bytes(img)),
                    max,
                );
            },
            None => {
                lemma_evict_drops(s, keep, k - 1, counter, max);
            },
        }
    }
}

/// Enforcing the budget only drops images: whatever is left is what was
/// stored before, under the same path.
pub proof fn lemma_budget_only_drops(
    s: Seq<(Seq<char>, Arc<ImageData>)>,
    keep: Seq<Seq<char>>,
    max: nat,
)
    requires
        unique_paths(s),
    ensures
        unique_paths(within_budget(s, keep, max)),
        forall|q: Seq<char>|
            #[trigger] lookup(within_budget(s, keep, max), q) is Some ==> lookup(
                within_budget(s, keep, max),
                q,
            ) == lookup(s, q),
{
    if !(max == 0 || saturated(total_bytes(s)) <= max) {
        lemma_evict_drops(s, keep, keep.len() as int, saturated(total_bytes(s)), max);
    }
}

/// Decoder results only bring in paths of the working set: afterwards an
/// image or an error is kept only for a path that had one before, or that
/// `keep` names.
pub proof fn lemma_results_stay_in_keep(
    v: CacheView,
    results: Seq<LoadResult>,
    keep: Seq<Seq<char>>,
    n: int,
)
    requires
        cache_wf(v),
    ensures
        ({
            let w = apply_results(v, results, keep, n).0;
            &&& cache_wf(w)
            &&& w.generation == v.generation
            &&& forall|q: Seq<char>|
                #[trigger] lookup(w.images, q) is Some ==> lookup(v.images, q) is Some
                    || keep.contains(q)
            &&& forall|q: Seq<char>|
                #[trigger] lookup(w.errors, q) is Some ==> lookup(v.errors, q) is Some
                    || keep.contains(q)
        }),
    decreases n,
{
    if n > 0 {
        lemma_results_stay_in_keep(v, results, keep, n - 1);
        let prev = apply_results(v, results, keep, n - 1).0;
        let done = results[n - 1];
        let p = done.path@;
        if done.generation == prev.generation && keep.contains(p) {
            match done.result {
                Ok(img) => {
                    lemma_with_value(prev.images, p, img);
                    lemma_without_path(prev.errors, p);
                },
                Err(message) => {
                    lemma_without_path(prev.images, p);
                    lemma_with_value(prev.errors, p, message@);
                },
            }
        }
    }
}

/// A path is never both decoded and failed: for every cache that the
/// operations build, `get` and `error` do not both answer for one path.
pub proof fn lemma_decoded_or_failed(c: &ImageCache, p: Seq<char>)
    requires
        c.wf(),
    ensures
        !(lookup(c@.images, p) is Some && lookup(c@.errors, p) is Some),
{
    assert(!(lookup(c@.images, p) is Some && lookup(c@.errors, p) is Some));
}

/// Only requested work is applied: when every result of the current
/// generation answers a request the cache made (`requested`), every path
/// whose image or error a poll changes was requested and is in `keep`.
pub proof fn lemma_only_requested_applied(
    v: CacheView,
    results: Seq<LoadResult>,
    keep: Seq<Seq<char>>,
    requested: Seq<Seq<char>>,
    n: int,
)
    requires
        cache_wf(v),
        n <= results.len(),
        forall|k: int|
            0 <= k < n && #[trigger] results[k].generation == v.generation ==> requested.contains(
                results[k].path@,
            ),
    ensures
        ({
            let w = apply_results(v, results, keep, n).0;
            forall|q: Seq<char>|
                #![trigger lookup(w.images, q)]
                #![trigger lookup(w.errors, q)]
                lookup(w.images, q) != lookup(v.images, q) || lookup(w.errors, q) != lookup(
                    v.errors,
                    q,
                ) ==> requested.contains(q) && keep.contains(q)
        }),
    decreases n,
{
    if n > 0 {
        lemma_only_requested_applied(v, results, keep, requested, n - 1);
        lemma_results_stay_in_keep(v, results, keep, n - 1);
        let prev = apply_results(v, results, keep, n - 1).0;
        let w = apply_results(v, results, keep, n).0;
        let done = results[n - 1];
        let p = done.path@;
        if done.generation == prev.generation && keep.contains(p) {
            assert(results[n - 1].generation == v.generation);
            match done.result {
                Ok(img) => {
                    lemma_with_value(prev.images, p, img);
                    lemma_without_path(prev.errors, p);
                },
                Err(message) => {
                    lemma_without_path(prev.images, p);
                    lemma_with_value(prev.errors, p, message@);
                },
            }
        }
        assert forall|q: Seq<char>|
            lookup(w.images, q) != lookup(v.images, q) || lookup(w.errors, q) != lookup(
                v.errors,
                q,
            ) implies requested.contains(q) && keep.contains(q) by {
            if lookup(prev.images, q) != lookup(v.images, q) || lookup(prev.errors, q) != lookup(
                v.errors,
                q,
            ) {
            } else {
                assert(q == p);
            }
        }
    }
}

/// Work requested before the working set moved is discarded: once the
/// generation has moved on from `g` (as `recenter` and `reset` move it),
/// results that carry `g` change nothing and do not count.
pub proof fn lemma_earlier_work_discarded(
    v: CacheView,
    g: u64,
    results: Seq<LoadResult>,
    keep: Seq<Seq<char>>,
    n: int,
)
    requires
        v.generation == next_generation(g),
        forall|k: int| 0 <= k < n ==> #[trigger] results[k].generation == g,
    ensures
        apply_results(v, results, keep, n) == (v, false),
    decreases n,
{
    if n > 0 {
        lemma_earlier_work_discarded(v, g, results, keep, n - 1);
    }
}


// ---------------------------------------------------------------------------
// Decoding.

/// What the `image` crate makes of an encoded image: width, height and RGBA
/// bytes, or the message of the error.
pub uninterp spec fn decoded_rgba(format_hint: Seq<char>, bytes: Seq<u8>) -> Result<
    (u32, u32, Seq<u8>),
    Seq<char>,
>;

/// Decodes `bytes` with the `image` crate: `ImageReader` over the bytes, the
/// format taken from the extension of `format_hint` and then from the content
/// (`ImageFormat::from_path`, `with_guessed_format`), `decode`, `to_rgba8`.
/// Claims that the outcome is a function of the two arguments (named
/// `decoded_rgba`), and that an RGBA buffer holds four bytes per pixel (the
/// buffer is allocated from the decoder's dimensions); what the decoders
/// compute is left to the crate.
#[verifier::external_body]
fn decode_rgba(format_hint: &str, bytes: &[u8]) -> (r: Result<(u32, u32, Vec<u8>), String>)
    ensures
        r matches Ok((w, h, raw)) ==> raw@.len() == 4 * w * h,
        match r {
            Ok((w, h, raw)) => decoded_rgba(format_hint@, bytes@) == Ok::<
                (u32, u32, Seq<u8>),
                Seq<char>,
            >((w, h, raw@)),
            Err(e) => decoded_rgba(format_hint@, bytes@) == Err::<(u32, u32, Seq<u8>), Seq<char>>(
                e@,
            ),
        },
{
    let mut reader = image::ImageReader::new(std::io::Cursor::new(bytes));
    if let Ok(format) = image::ImageFormat::from_path(format_hint) {
        reader.set_format(format);
    }
    let reader = reader.with_guessed_format().map_err(|e| format!("format detection failed: {e}"))?;
    let image = reader.decode().map_err(|e| format!("decode failed: {e}"))?.to_rgba8();
    let (width, height) = image.dimensions();
    Ok((width, height, image.into_raw()))
}

/// A colour channel scaled by alpha, rounded to nearest.
pub open spec fn premultiplied(channel: u8, alpha: u8) -> nat {
    ((channel * alpha + 127) / 255) as nat
}

/// The 0RGB pixel for the RGBA bytes starting at `i`, colours premultiplied by alpha.
pub open spec fn packed_pixel(raw: Seq<u8>, i: int) -> u32 {
    (premultiplied(raw[i], raw[i + 3]) * 65536 + premultiplied(raw[i + 1], raw[i + 3]) * 256
        + premultiplied(raw[i + 2], raw[i + 3])) as u32
}

/// The pixels of RGBA bytes, four bytes each (a trailing partial pixel is ignored).
pub open spec fn packed_pixels(raw: Seq<u8>) -> Seq<u32> {
    Seq::new(raw.len() / 4, |k: int| packed_pixel(raw, 4 * k))
}

proof fn lemma_premultiplied_bound(c: u8, a: u8)
    ensures
        premultiplied(c, a) <= 255,
{
    assert((c * a + 127) / 255 <= 255) by (nonlinear_arith)
        requires
            c <= 255,
            a <= 255,
    ;
}

/// Packs RGBA bytes into 0RGB pixels with the colours premultiplied by alpha.
pub fn pack_premultiplied(raw: &[u8]) -> (r: Vec<u32>)
    ensures
        r@ == packed_pixels(raw@),
{
    let mut pixels: Vec<u32> = Vec::new();
    let n = raw.len() / 4;
    let mut k: usize = 0;
    while k < n
        invariant
            k <= n,
            n == raw.len() / 4,
            pixels@ =~= packed_pixels(raw@).take(k as int),
        decreases n - k,
    {
        let i = 4 * k;
        let a = raw[i + 3] as u32;
        proof {
            lemma_premultiplied_bound(raw[i as int], raw[i + 3]);
            lemma_premultiplied_bound(raw[i + 1], raw[i + 3]);
            lemma_premultiplied_bound(raw[i + 2], raw[i + 3]);
        }
        let r = (raw[i] as u32 * a + 127) / 255;
        let g = (raw[i + 1] as u32 * a + 127) / 255;
        let b = (raw[i + 2] as u32 * a + 127) / 255;
        assert((r << 16u32) | (g << 8u32) | b == r * 65536 + g * 256 + b) by (bit_vector)
            requires
                r <= 255,
                g <= 255,
                b <= 255,
        ;
        pixels.push((r << 16) | (g << 8) | b);
        k += 1;
    }
    pixels
}

/// Decodes an image file's bytes (`path` gives the format hint) into
/// premultiplied 0RGB pixels.
pub fn decode(path: &str, bytes: &[u8]) -> (r: Result<Arc<ImageData>, String>)
    ensures
        match decoded_rgba(path@, bytes@) {
            Ok((w, h, raw)) => r is Ok && r->Ok_0.width == w && r->Ok_0.height == h
                && r->Ok_0.pixels@ == packed_pixels(raw),
            Err(e) => r is Err && r->Err_0@ == e,
        },
        r matches Ok(img) ==> img.pixels@.len() == img.width * img.height,
{
    match decode_rgba(path, bytes) {
        Ok((width, height, raw)) => {
            proof {
                let n = raw@.len() as int;
                assert(n / 4 == width * height) by (nonlinear_arith)
                    requires
                        n == 4 * width * height,
                ;
            }
            let pixels = pack_premultiplied(raw.as_slice());
            Ok(Arc::new(ImageData { width: width as usize, height: height as usize, pixels }))
        },
        Err(e) => Err(e),
    }
}

} // verus!
