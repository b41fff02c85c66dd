//! The viewer's state: the folder index, the current item, the image cache and
//! what the window title says. The window, the decoder thread and the video
//! player are driven by the caller, which carries out the plans given here.
use std::sync::Arc;
use vstd::prelude::*;
use crate::cache::{
    ImageCache,
    ImageData,
    LoadRequest,
    LoadResult,
    CacheView,
    lookup,
    keep_only,
    within_budget,
    fresh_paths,
    next_generation,
    path_views,
    request_paths,
    apply_results,
    cache_wf,
    lemma_keep_only,
    lemma_budget_only_drops,
    lemma_results_stay_in_keep,
};
use crate::config::Config;
use crate::media::{
    MediaItem,
    MediaKind,
    MediaSet,
    neighbour_images,
    preload_order,
    keep_order,
    lemma_neighbour_images_bounded,
};
use crate::paths::{path_file_name, file_name_of};
use crate::render::{fit_into, fitted, max1, index_fits, index_fits_exec};
use crate::text::{decimal_chars, push_decimal};

verus! {

/// How the viewer window was left.
#[derive(Debug, Clone, Copy, PartialEq, Eq, Structural)]
pub enum ViewerOutcome {
    /// Closed; a resident process waits for the next file.
    Hidden,
    /// The user asked the whole process to quit.
    Quit,
}

/// What to do after the current item changed: send the load requests to the
/// decoder, and open the video player on `open_video` when there is one.
pub struct OpenPlan {
    pub requests: Vec<LoadRequest>,
    pub open_video: Option<String>,
}

/// What the video player reports for the title.
pub enum VideoStatus {
    /// No player is open.
    Closed,
    /// A player is open; `fps` is its frame rate as shown.
    Open { paused: bool, ended: bool, fps: String },
}

pub struct ViewerState {
    media: MediaSet,
    cache: ImageCache,
    video_error: Option<String>,
}

/// A media set the viewer can show: at least one item, and a current one.
pub open spec fn media_wf(media: MediaSet) -> bool {
    0 < media.items.len() && media.index < media.items.len()
}

/// Whether the image can be scaled into a `bw` x `bh` frame without its
/// source indices overflowing (an empty image reads nothing).
pub open spec fn fits_frame(img: ImageData, bw: int, bh: int) -> bool {
    img.pixels@.len() == 0 || index_fits(img.width as int, img.height as int, bw, bh)
}

/// Whether a `src_width` x `src_height` picture can be scaled into a
/// `dst_width` x `dst_height` frame: the frame's size fits `usize`, and the
/// source indices are computed without overflow.
pub fn can_fit(src_width: usize, src_height: usize, dst_width: usize, dst_height: usize) -> (r: bool)
    ensures
        r == (max1(dst_width as int) * max1(dst_height as int) <= usize::MAX && index_fits(
            src_width as int,
            src_height as int,
            dst_width as int,
            dst_height as int,
        )),
{
    let bw: u128 = if dst_width < 1 {
        1
    } else {
        dst_width as u128
    };
    let bh: u128 = if dst_height < 1 {
        1
    } else {
        dst_height as u128
    };
    proof {
        assert(bw * bh <= 0xFFFF_FFFF_FFFF_FFFF * 0xFFFF_FFFF_FFFF_FFFFu128) by (nonlinear_arith)
            requires
                bw <= 0xFFFF_FFFF_FFFF_FFFF,
                bh <= 0xFFFF_FFFF_FFFF_FFFF,
        ;
    }
    bw * bh <= usize::MAX as u128 && index_fits_exec(src_width, src_height, dst_width, dst_height)
}

/// A black frame of `width` x `height` pixels (saturating).
pub open spec fn black_frame(width: int, height: int) -> Seq<u32> {
    let n = if width * height > usize::MAX {
        usize::MAX as int
    } else {
        width * height
    };
    Seq::new(n as nat, |k: int| 0u32)
}

fn black(width: usize, height: usize) -> (r: Vec<u32>)
    requires
        width * height <= usize::MAX,
    ensures
        r@ == black_frame(width as int, height as int),
{
    let n = width * height;
    let mut out: Vec<u32> = Vec::new();
    while out.len() < n
        invariant
            out.len() <= n,
            forall|k: int| 0 <= k < out.len() ==> out@[k] == 0,
        decreases n - out.len(),
    {
        out.push(0);
    }
    assert(out@ =~= black_frame(width as int, height as int));
    out
}

/// The item index that a move of `delta` from `index` reaches, kept inside
/// the `len` items.
pub open spec fn moved_index(index: int, delta: int, len: int) -> int {
    let target = index + delta;
    if target < 0 {
        0
    } else if target > len - 1 {
        len - 1
    } else {
        target
    }
}

/// The cache after the working set moved to the current item.
pub open spec fn recentered(v: CacheView, media: MediaSet, cfg: Config) -> CacheView {
    let keep = path_views(
        neighbour_images(media.items@, media.index as int, cfg.cache_radius as int),
    );
    let images = within_budget(keep_only(v.images, keep), keep, v.max_bytes as nat);
    CacheView {
        images,
        errors: keep_only(v.errors, keep),
        queued: fresh_paths(
            path_views(neighbour_images(media.items@, media.index as int, cfg.preload as int)),
            images,
            neighbour_images(media.items@, media.index as int, cfg.preload as int).len() as int,
        ),
        generation: next_generation(v.generation),
        max_bytes: v.max_bytes,
    }
}

/// Whether `q` is the path of an image item no farther than `radius` from
/// item `index`.
pub open spec fn near_image(items: Seq<MediaItem>, index: int, radius: int, q: Seq<char>) -> bool {
    exists|i: int|
        #![trigger items[i]]
        0 <= i < items.len() && index - radius <= i <= index + radius && items[i].kind
            == MediaKind::Image && items[i].path@ == q
}

/// Whether every decoded image and every remembered error of `cache` belongs
/// to an image item no farther than `radius` from item `index`.
pub open spec fn within_radius(cache: CacheView, items: Seq<MediaItem>, index: int, radius: int) -> bool {
    forall|q: Seq<char>|
        #![trigger lookup(cache.images, q)]
        #![trigger lookup(cache.errors, q)]
        lookup(cache.images, q) is Some || lookup(cache.errors, q) is Some ==> near_image(
            items,
            index,
            radius,
            q,
        )
}

proof fn lemma_keep_is_near(items: Seq<MediaItem>, index: int, radius: int, q: Seq<char>)
    requires
        radius >= 0,
        path_views(neighbour_images(items, index, radius)).contains(q),
    ensures
        near_image(items, index, radius, q),
{
    let n = neighbour_images(items, index, radius);
    lemma_neighbour_images_bounded(items, index, radius);
    let k = choose|k: int| 0 <= k < path_views(n).len() && path_views(n)[k] == q;
    assert(n[k]@ == q);
}

/// Moving to an item cleans the cache up: afterwards every decoded image and
/// every remembered error belongs to an image no farther than `cache_radius`
/// from the current item.
pub proof fn lemma_recentered_within_radius(v: CacheView, media: MediaSet, cfg: Config)
    requires
        cache_wf(v),
    ensures
        within_radius(
            recentered(v, media, cfg),
            media.items@,
            media.index as int,
            cfg.cache_radius as int,
        ),
{
    let keep = path_views(
        neighbour_images(media.items@, media.index as int, cfg.cache_radius as int),
    );
    let kept = keep_only(v.images, keep);
    lemma_keep_only(v.images, keep);
    lemma_keep_only(v.errors, keep);
    lemma_budget_only_drops(kept, keep, v.max_bytes as nat);
    let r = recentered(v, media, cfg);
    assert forall|q: Seq<char>|
        lookup(r.images, q) is Some || lookup(r.errors, q) is Some implies near_image(
        media.items@,
        media.index as int,
        cfg.cache_radius as int,
        q,
    ) by {
        if lookup(r.images, q) is Some {
            assert(lookup(kept, q) is Some);
        }
        lemma_keep_is_near(media.items@, media.index as int, cfg.cache_radius as int, q);
    }
}

/// Taking decoder results keeps the cache clean: when every image and error
/// was near the current item before, they all still are after `poll`.
pub proof fn lemma_poll_within_radius(
    v: CacheView,
    results: Seq<LoadResult>,
    media: MediaSet,
    cfg: Config,
)
    requires
        cache_wf(v),
        within_radius(v, media.items@, media.index as int, cfg.cache_radius as int),
    ensures
        ({
            let keep = path_views(
                neighbour_images(media.items@, media.index as int, cfg.cache_radius as int),
            );
            let (w, counted) = apply_results(v, results, keep, results.len() as int);
            let after = if counted {
                CacheView { images: within_budget(w.images, keep, w.max_bytes as nat), ..w }
            } else {
                w
            };
            within_radius(after, media.items@, media.index as int, cfg.cache_radius as int)
        }),
{
    let keep = path_views(
        neighbour_images(media.items@, media.index as int, cfg.cache_radius as int),
    );
    let (w, counted) = apply_results(v, results, keep, results.len() as int);
    lemma_results_stay_in_keep(v, results, keep, results.len() as int);
    lemma_budget_only_drops(w.images, keep, w.max_bytes as nat);
    let after = if counted {
        CacheView { images: within_budget(w.images, keep, w.max_bytes as nat), ..w }
    } else {
        w
    };
    assert forall|q: Seq<char>|
        lookup(after.images, q) is Some || lookup(after.errors, q) is Some implies near_image(
        media.items@,
        media.index as int,
        cfg.cache_radius as int,
        q,
    ) by {
        if lookup(after.images, q) is Some {
            assert(lookup(w.images, q) is Some);
        }
        if lookup(v.images, q) is Some || lookup(v.errors, q) is Some {
        } else {
            lemma_keep_is_near(media.items@, media.index as int, cfg.cache_radius as int, q);
        }
    }
}

/// The plan that goes with a cache that moved to the current item: its new
/// requests, and the current item's path when it is a video.
pub open spec fn plan_matches(plan: OpenPlan, media: MediaSet, cache: CacheView) -> bool {
    &&& request_paths(plan.requests@) == cache.queued
    &&& forall|k: int|
        0 <= k < plan.requests.len() ==> #[trigger] plan.requests@[k].generation
            == cache.generation
    &&& if media.items@[media.index as int].kind == MediaKind::Video {
        plan.open_video is Some && plan.open_video.unwrap()@
            == media.items@[media.index as int].path@
    } else {
        plan.open_video is None
    }
}


/// The viewer state as data.
pub struct ViewerView {
    pub media: MediaSet,
    pub cache: CacheView,
    pub video_error: Option<Seq<char>>,
}

impl View for ViewerState {
    type V = ViewerView;

    closed spec fn view(&self) -> ViewerView {
        ViewerView {
            media: self.media,
            cache: self.cache@,
            video_error: match self.video_error {
                Some(e) => Some(e@),
                None => None,
            },
        }
    }
}

/// The current item's path.
pub open spec fn current_path_of(media: MediaSet) -> Seq<char> {
    media.items@[media.index as int].path@
}

/// The name shown for a path: its file name, or the whole path without one.
pub open spec fn shown_name(path: Seq<char>) -> Seq<char> {
    match path_file_name(path) {
        Some(name) => name,
        None => path,
    }
}

/// The window title.
pub open spec fn title_text(
    v: ViewerView,
    video: VideoStatus,
    cache_mb: Seq<char>,
) -> Seq<char> {
    let path = current_path_of(v.media);
    let prefix = shown_name(path) + " ["@ + decimal_chars((v.media.index + 1) as nat) + "/"@
        + decimal_chars(v.media.items.len() as nat) + "] - "@;
    if v.media.items@[v.media.index as int].kind == MediaKind::Image {
        match lookup(v.cache.errors, path) {
            Some(err) => prefix + "image error: "@ + err + " - BlinkView"@,
            None => if lookup(v.cache.images, path) is Some {
                prefix + "cache "@ + cache_mb + " MB - BlinkView"@
            } else {
                prefix + "loading - BlinkView"@
            },
        }
    } else {
        match v.video_error {
            Some(err) => prefix + "video error: "@ + err + " - BlinkView"@,
            None => match video {
                VideoStatus::Open { paused, ended, fps } => prefix + (if paused {
                    "paused"@
                } else if ended {
                    "ended"@
                } else {
                    "playing"@
                }) + " "@ + fps@ + " fps - BlinkView"@,
                VideoStatus::Closed => prefix + "loading video - BlinkView"@,
            },
        }
    }
}

impl ViewerState {
    pub closed spec fn wf(&self) -> bool {
        media_wf(self.media) && self.cache.wf()
    }

    /// What a well-formed viewer guarantees: a current item in a non-empty
    /// media set, and a well-formed cache.
    pub proof fn lemma_wf(&self)
        requires
            self.wf(),
        ensures
            media_wf(self@.media),
            cache_wf(self@.cache),
    {
    }

    /// Points the cache and the player at the current item.
    fn open_current(&mut self, cfg: &Config) -> (r: OpenPlan)
        requires
            old(self).wf(),
        ensures
            final(self).wf(),
            final(self)@.media == old(self)@.media,
            final(self)@.cache == recentered(old(self)@.cache, old(self)@.media, *cfg),
            final(self)@.video_error is None,
            plan_matches(r, final(self)@.media, final(self)@.cache),
    {
        self.video_error = None;
        let preload = preload_order(self.media.items.as_slice(), self.media.index, cfg.preload);
        let keep = keep_order(self.media.items.as_slice(), self.media.index, cfg.cache_radius);
        let requests = self.cache.recenter(preload.as_slice(), keep.as_slice());
        let item = &self.media.items[self.media.index];
        let open_video = match item.kind {
            MediaKind::Video => Some(item.path.clone()),
            MediaKind::Image => None,
        };
        OpenPlan { requests, open_video }
    }

    /// Starts on `media`, with an empty cache of `cfg.max_cache_mb` MiB.
    pub fn new(media: MediaSet, cfg: &Config) -> (r: (ViewerState, OpenPlan))
        requires
            media_wf(media),
        ensures
            r.0.wf(),
            r.0@.media == media,
            r.0@.video_error is None,
            ({
                let empty = CacheView {
                    images: Seq::empty(),
                    errors: Seq::empty(),
                    queued: Seq::empty(),
                    generation: 1,
                    max_bytes: r.0@.cache.max_bytes,
                };
                r.0@.cache == recentered(empty, media, *cfg)
            }),
            r.0@.cache.max_bytes as int == crate::cache::saturated(
                cfg.max_cache_mb as nat * 1048576,
            ),
            plan_matches(r.1, r.0@.media, r.0@.cache),
    {
        let cache = ImageCache::new(cfg.max_cache_mb);
        let mut state = ViewerState { media, cache, video_error: None };
        proof {
            assert(state@.cache.images =~= Seq::empty());
            assert(state@.cache.errors =~= Seq::empty());
            assert(state@.cache.queued =~= Seq::empty());
        }
        let plan = state.open_current(cfg);
        (state, plan)
    }

    /// Shows another folder (or the same one rescanned): the cache starts over.
    pub fn replace_media_set(&mut self, media: MediaSet, cfg: &Config) -> (r: OpenPlan)
        requires
            old(self).wf(),
            media_wf(media),
        ensures
            final(self).wf(),
            final(self)@.media == media,
            final(self)@.video_error is None,
            ({
                let empty = CacheView {
                    images: Seq::empty(),
                    errors: Seq::empty(),
                    queued: Seq::empty(),
                    generation: next_generation(old(self)@.cache.generation),
                    max_bytes: old(self)@.cache.max_bytes,
                };
                final(self)@.cache == recentered(empty, media, *cfg)
            }),
            plan_matches(r, final(self)@.media, final(self)@.cache),
    {
        self.media = media;
        self.cache.reset();
        proof {
            assert(self@.cache.images =~= Seq::empty());
            assert(self@.cache.errors =~= Seq::empty());
            assert(self@.cache.queued =~= Seq::empty());
        }
        self.open_current(cfg)
    }

    /// Moves to item `index`; nothing happens (`None`) when it is the current
    /// item or past the end.
    pub fn set_index(&mut self, index: usize, cfg: &Config) -> (r: Option<OpenPlan>)
        requires
            old(self).wf(),
        ensures
            final(self).wf(),
            index == old(self)@.media.index || index >= old(self)@.media.items.len() ==> r is None
                && final(self)@ == old(self)@,
            !(index == old(self)@.media.index || index >= old(self)@.media.items.len()) ==> {
                &&& r is Some
                &&& final(self)@.media == MediaSet { index, ..old(self)@.media }
                &&& final(self)@.cache == recentered(old(self)@.cache, final(self)@.media, *cfg)
                &&& final(self)@.video_error is None
                &&& plan_matches(r.unwrap(), final(self)@.media, final(self)@.cache)
            },
    {
        if index == self.media.index || index >= self.media.items.len() {
            return None;
        }
        self.media.index = index;
        Some(self.open_current(cfg))
    }

    /// Moves `delta` items forward (or back), stopping at the first and last.
    pub fn navigate(&mut self, delta: isize, cfg: &Config) -> (r: Option<OpenPlan>)
        requires
            old(self).wf(),
        ensures
            final(self).wf(),
            ({
                let target = moved_index(
                    old(self)@.media.index as int,
                    delta as int,
                    old(self)@.media.items.len() as int,
                );
                &&& target == old(self)@.media.index ==> r is None && final(self)@ == old(self)@
                &&& target != old(self)@.media.index ==> {
                    &&& r is Some
                    &&& final(self)@.media == MediaSet { index: target as usize, ..old(self)@.media }
                    &&& final(self)@.cache == recentered(
                        old(self)@.cache,
                        final(self)@.media,
                        *cfg,
                    )
                    &&& final(self)@.video_error is None
                    &&& plan_matches(r.unwrap(), final(self)@.media, final(self)@.cache)
                }
            }),
            final(self)@.media.items == old(self)@.media.items,
            old(self)@.media.index + delta <= 0 ==> final(self)@.media.index == 0,
            old(self)@.media.index + delta >= old(self)@.media.items.len() - 1
                ==> final(self)@.media.index == old(self)@.media.items.len() - 1,
            0 <= old(self)@.media.index + delta < old(self)@.media.items.len()
                ==> final(self)@.media.index == old(self)@.media.index + delta,
            r is Some <==> final(self)@.media.index != old(self)@.media.index,
    {
        proof {
            self.lemma_wf();
        }
        let last = (self.media.items.len() - 1) as i128;
        let target = self.media.index as i128 + delta as i128;
        let next: usize = if target < 0 {
            0
        } else if target > last {
            self.media.items.len() - 1
        } else {
            target as usize
        };
        self.set_index(next, cfg)
    }

    /// The kind of the current item.
    pub fn current_kind(&self) -> (r: MediaKind)
        requires
            self.wf(),
        ensures
            r == self@.media.items@[self@.media.index as int].kind,
    {
        self.media.items[self.media.index].kind
    }

    /// The path of the current item.
    pub fn current_path(&self) -> (r: &str)
        requires
            self.wf(),
        ensures
            r@ == current_path_of(self@.media),
    {
        self.media.items[self.media.index].path.as_str()
    }

    /// The media set shown.
    pub fn media(&self) -> (r: &MediaSet)
        ensures
            *r == self@.media,
    {
        &self.media
    }

    /// The decoded bytes the cache holds (saturating).
    pub fn decoded_bytes(&self) -> (r: usize)
        ensures
            r == crate::cache::saturated(crate::cache::total_bytes(self@.cache.images)),
    {
        self.cache.decoded_bytes()
    }

    /// The generation the decoder's work must carry.
    pub fn generation(&self) -> (r: u64)
        ensures
            r == self@.cache.generation,
    {
        self.cache.generation()
    }

    /// Records why the current video could not be opened.
    pub fn set_video_error(&mut self, error: String)
        ensures
            final(self)@ == (ViewerView { video_error: Some(error@), ..old(self)@ }),
            old(self).wf() ==> final(self).wf(),
    {
        self.video_error = Some(error);
    }

    /// Takes the decoder results that arrived; tells whether the picture may
    /// have changed.
    pub fn poll(&mut self, results: Vec<LoadResult>, cfg: &Config) -> (changed: bool)
        requires
            old(self).wf(),
        ensures
            final(self).wf(),
            final(self)@.media == old(self)@.media,
            final(self)@.video_error == old(self)@.video_error,
            ({
                let keep = path_views(
                    neighbour_images(
                        old(self)@.media.items@,
                        old(self)@.media.index as int,
                        cfg.cache_radius as int,
                    ),
                );
                let (v, counted) = apply_results(old(self)@.cache, results@, keep, results.len() as int);
                &&& changed == counted
                &&& final(self)@.cache == if counted {
                    CacheView { images: within_budget(v.images, keep, v.max_bytes as nat), ..v }
                } else {
                    v
                }
            }),
    {
        let keep = keep_order(self.media.items.as_slice(), self.media.index, cfg.cache_radius);
        self.cache.poll(results, keep.as_slice())
    }

    /// The frame for the current image: the cached picture scaled to fit
    /// `width` x `height`, or black while it is not decoded (or is a video).
    pub fn render_image(&self, width: usize, height: usize) -> (r: Vec<u32>)
        requires
            self.wf(),
            max1(width as int) * max1(height as int) <= usize::MAX,
        ensures
            ({
                let path = current_path_of(self@.media);
                let shown = self@.media.items@[self@.media.index as int].kind == MediaKind::Image
                    && lookup(self@.cache.images, path) is Some && fits_frame(
                    *lookup(self@.cache.images, path).unwrap(),
                    width as int,
                    height as int,
                );
                if shown {
                    let img = *lookup(self@.cache.images, path).unwrap();
                    r@ == fitted(
                        img.pixels@,
                        img.width as int,
                        img.height as int,
                        width as int,
                        height as int,
                    )
                } else {
                    r@ == black_frame(width as int, height as int)
                }
            }),
    {
        proof {
            assert(width * height <= max1(width as int) * max1(height as int)) by (nonlinear_arith);
        }
        if self.current_kind() == MediaKind::Image {
            if let Some(image) = self.cache.get(self.current_path()) {
                if image.pixels.len() == 0 || index_fits_exec(
                    image.width,
                    image.height,
                    width,
                    height,
                ) {
                    return fit_into(image.pixels.as_slice(), image.width, image.height, width, height);
                }
            }
        }
        black(width, height)
    }

    /// The window title: file name, position, and what is shown (for images
    /// the cache size `cache_mb`, in MB as text; for videos the player status).
    pub fn title(&self, video: &VideoStatus, cache_mb: &str) -> (r: String)
        requires
            self.wf(),
        ensures
            r@ == title_text(self@, *video, cache_mb@),
    {
        let path = self.current_path();
        let mut out = match file_name_of(path) {
            Some(name) => name,
            None => String::from_str(path),
        };
        out.append(" [");
        push_decimal(&mut out, (self.media.index + 1) as u64);
        out.append("/");
        push_decimal(&mut out, self.media.items.len() as u64);
        out.append("] - ");
        if self.current_kind() == MediaKind::Image {
            if let Some(err) = self.cache.error(path) {
                out.append("image error: ");
                out.append(err);
                out.append(" - BlinkView");
            } else if self.cache.get(path).is_some() {
                out.append("cache ");
                out.append(cache_mb);
                out.append(" MB - BlinkView");
            } else {
                out.append("loading - BlinkView");
            }
        } else {
            match &self.video_error {
                Some(err) => {
                    out.append("video error: ");
                    out.append(err.as_str());
                    out.append(" - BlinkView");
                },
                None => match video {
                    VideoStatus::Open { paused, ended, fps } => {
                        let mode = if *paused {
                            "paused"
                        } else if *ended {
                            "ended"
                        } else {
                            "playing"
                        };
                        out.append(mode);
                        out.append(" ");
                        out.append(fps.as_str());
                        out.append(" fps - BlinkView");
                    },
                    VideoStatus::Closed => {
                        out.append("loading video - BlinkView");
                    },
                },
            }
        }
        out
    }
}


/// The keys pressed since the last frame (with key repeat for the movement keys).
pub struct Keys {
    pub quit: bool,
    pub escape: bool,
    pub right: bool,
    pub left: bool,
    pub page_down: bool,
    pub page_up: bool,
    pub home: bool,
    pub end: bool,
    pub space: bool,
    pub reload: bool,
}

/// What the pressed keys ask for, in the order the viewer acts on them.
pub struct KeyCommands {
    /// Leave the viewer: `Q` quits, `Esc` hides (and `Q` wins).
    pub leave: Option<ViewerOutcome>,
    /// Items to move: right +1, left -1, page down +10, page up -10.
    pub navigate: isize,
    pub first: bool,
    pub last: bool,
    pub toggle_pause: bool,
    pub reload: bool,
}

/// Reads the pressed keys.
pub fn key_commands(keys: &Keys) -> (r: KeyCommands)
    ensures
        r.leave == if keys.quit {
            Some(ViewerOutcome::Quit)
        } else if keys.escape {
            Some(ViewerOutcome::Hidden)
        } else {
            None
        },
        r.navigate == (if keys.right {
            1int
        } else {
            0
        }) - (if keys.left {
            1int
        } else {
            0
        }) + (if keys.page_down {
            10int
        } else {
            0
        }) - (if keys.page_up {
            10int
        } else {
            0
        }),
        r.first == keys.home,
        r.last == keys.end,
        r.toggle_pause == keys.space,
        r.reload == keys.reload,
{
    let leave = if keys.quit {
        Some(ViewerOutcome::Quit)
    } else if keys.escape {
        Some(ViewerOutcome::Hidden)
    } else {
        None
    };
    let mut navigate: isize = 0;
    if keys.right {
        navigate += 1;
    }
    if keys.left {
        navigate -= 1;
    }
    if keys.page_down {
        navigate += 10;
    }
    if keys.page_up {
        navigate -= 10;
    }
    KeyCommands {
        leave,
        navigate,
        first: keys.home,
        last: keys.end,
        toggle_pause: keys.space,
        reload: keys.reload,
    }
}

/// What the process does once a viewer window is left.
pub enum AfterViewer {
    /// Wait for the next file to open.
    Wait,
    /// Leave the process normally.
    Stop,
    /// Leave the process with this error.
    Fail(String),
}

/// Resident (`background`) processes keep waiting after a window is hidden or
/// fails; others stop, with the viewer's error if it failed. `Q` always stops.
pub fn after_viewer(outcome: Result<ViewerOutcome, String>, background: bool) -> (r: AfterViewer)
    ensures
        match outcome {
            Ok(ViewerOutcome::Quit) => r is Stop,
            Ok(ViewerOutcome::Hidden) => if background {
                r is Wait
            } else {
                r is Stop
            },
            Err(e) => if background {
                r is Wait
            } else {
                r matches AfterViewer::Fail(m) && m@ == e@
            },
        },
{
    match outcome {
        Ok(ViewerOutcome::Quit) => AfterViewer::Stop,
        Ok(ViewerOutcome::Hidden) => if background {
            AfterViewer::Wait
        } else {
            AfterViewer::Stop
        },
        Err(e) => if background {
            AfterViewer::Wait
        } else {
            AfterViewer::Fail(e)
        },
    }
}

/// With no file to open and no background mode there is nothing to do, and
/// the usage text is shown instead.
pub fn nothing_to_do(cfg: &Config) -> (r: bool)
    ensures
        r == (cfg.initial_path is None && !cfg.background),
{
    cfg.initial_path.is_none() && !cfg.background
}

} // verus!
