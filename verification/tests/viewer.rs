use blinkview::cache::{ImageData, LoadResult};
use blinkview::config::Config;
use blinkview::media::{MediaItem, MediaKind, MediaSet};
use blinkview::viewer::{
    after_viewer, can_fit, key_commands, nothing_to_do, AfterViewer, Keys, VideoStatus,
    ViewerOutcome, ViewerState,
};
use std::sync::Arc;

fn item(path: &str, kind: MediaKind) -> MediaItem {
    MediaItem { path: path.to_string(), kind }
}

fn folder(index: usize) -> MediaSet {
    MediaSet {
        items: vec![
            item("/pics/a.png", MediaKind::Image),
            item("/pics/b.jpg", MediaKind::Image),
            item("/pics/c.mp4", MediaKind::Video),
        ],
        index,
    }
}

fn no_keys() -> Keys {
    Keys {
        quit: false,
        escape: false,
        right: false,
        left: false,
        page_down: false,
        page_up: false,
        home: false,
        end: false,
        space: false,
        reload: false,
    }
}

#[test]
fn new_viewer_requests_the_neighbourhood() {
    let cfg = Config::default();
    let (state, plan) = ViewerState::new(folder(0), &cfg);
    let paths: Vec<&str> = plan.requests.iter().map(|r| r.path.as_str()).collect();
    assert_eq!(paths, vec!["/pics/a.png", "/pics/b.jpg"]);
    assert!(plan.requests.iter().all(|r| r.generation == state.generation()));
    assert!(plan.open_video.is_none());
    assert_eq!(state.current_path(), "/pics/a.png");
    assert_eq!(state.current_kind(), MediaKind::Image);
    assert_eq!(state.title(&VideoStatus::Closed, "0"), "a.png [1/3] - loading - BlinkView");
}

#[test]
fn navigation_clamps_at_both_ends() {
    let cfg = Config::default();
    let (mut state, _) = ViewerState::new(folder(0), &cfg);
    assert!(state.navigate(-1, &cfg).is_none());
    assert_eq!(state.media().index, 0);
    let plan = state.navigate(10, &cfg).unwrap();
    assert_eq!(state.media().index, 2);
    assert_eq!(plan.open_video.as_deref(), Some("/pics/c.mp4"));
    assert!(state.navigate(1, &cfg).is_none());
    assert!(state.navigate(-1, &cfg).is_some());
    assert_eq!(state.media().index, 1);
}

#[test]
fn set_index_ignores_the_current_item_and_the_end() {
    let cfg = Config::default();
    let (mut state, _) = ViewerState::new(folder(1), &cfg);
    let generation = state.generation();
    assert!(state.set_index(1, &cfg).is_none());
    assert!(state.set_index(3, &cfg).is_none());
    assert_eq!(state.generation(), generation);
    assert!(state.set_index(0, &cfg).is_some());
    assert_eq!(state.media().index, 0);
    assert!(state.generation() > generation);
}

#[test]
fn decoded_image_is_shown_and_titled() {
    let cfg = Config::default();
    let (mut state, _) = ViewerState::new(folder(0), &cfg);
    let image = Arc::new(ImageData { width: 2, height: 1, pixels: vec![7, 9] });
    let result = LoadResult {
        generation: state.generation(),
        path: "/pics/a.png".to_string(),
        result: Ok(image),
    };
    assert!(state.poll(vec![result], &cfg));
    assert_eq!(state.decoded_bytes(), 8);
    assert_eq!(state.render_image(2, 1), vec![7, 9]);
    assert_eq!(state.render_image(4, 2), vec![7, 7, 9, 9, 7, 7, 9, 9]);
    assert_eq!(state.title(&VideoStatus::Closed, "0"), "a.png [1/3] - cache 0 MB - BlinkView");
}

#[test]
fn image_errors_are_titled_and_render_black() {
    let cfg = Config::default();
    let (mut state, _) = ViewerState::new(folder(0), &cfg);
    let result = LoadResult {
        generation: state.generation(),
        path: "/pics/a.png".to_string(),
        result: Err("bad header".to_string()),
    };
    assert!(state.poll(vec![result], &cfg));
    assert_eq!(state.render_image(3, 2), vec![0; 6]);
    assert_eq!(
        state.title(&VideoStatus::Closed, "0"),
        "a.png [1/3] - image error: bad header - BlinkView"
    );
}

#[test]
fn stale_results_are_ignored() {
    let cfg = Config::default();
    let (mut state, _) = ViewerState::new(folder(0), &cfg);
    let result = LoadResult {
        generation: state.generation() - 1,
        path: "/pics/a.png".to_string(),
        result: Ok(Arc::new(ImageData { width: 1, height: 1, pixels: vec![5] })),
    };
    assert!(!state.poll(vec![result], &cfg));
    assert_eq!(state.render_image(1, 1), vec![0]);
}

#[test]
fn video_titles_follow_the_player() {
    let cfg = Config::default();
    let (mut state, _) = ViewerState::new(folder(2), &cfg);
    assert_eq!(state.current_kind(), MediaKind::Video);
    assert_eq!(state.render_image(2, 2), vec![0; 4]);
    assert_eq!(
        state.title(&VideoStatus::Closed, "0"),
        "c.mp4 [3/3] - loading video - BlinkView"
    );
    let open = |paused, ended| VideoStatus::Open { paused, ended, fps: "29.97".to_string() };
    assert_eq!(state.title(&open(false, false), "0"), "c.mp4 [3/3] - playing 29.97 fps - BlinkView");
    assert_eq!(state.title(&open(true, true), "0"), "c.mp4 [3/3] - paused 29.97 fps - BlinkView");
    assert_eq!(state.title(&open(false, true), "0"), "c.mp4 [3/3] - ended 29.97 fps - BlinkView");
    state.set_video_error("ffprobe missing".to_string());
    assert_eq!(
        state.title(&open(false, false), "0"),
        "c.mp4 [3/3] - video error: ffprobe missing - BlinkView"
    );
}

#[test]
fn replacing_the_folder_starts_the_cache_over() {
    let cfg = Config::default();
    let (mut state, _) = ViewerState::new(folder(0), &cfg);
    let result = LoadResult {
        generation: state.generation(),
        path: "/pics/a.png".to_string(),
        result: Ok(Arc::new(ImageData { width: 1, height: 1, pixels: vec![5] })),
    };
    assert!(state.poll(vec![result], &cfg));
    let generation = state.generation();
    let plan = state.replace_media_set(folder(1), &cfg);
    assert_eq!(state.decoded_bytes(), 0);
    assert!(state.generation() > generation);
    let paths: Vec<&str> = plan.requests.iter().map(|r| r.path.as_str()).collect();
    assert_eq!(paths, vec!["/pics/b.jpg", "/pics/a.png"]);
}

#[test]
fn keys_map_to_commands() {
    let cmd = key_commands(&no_keys());
    assert!(cmd.leave.is_none());
    assert_eq!(cmd.navigate, 0);
    let keys = Keys { right: true, page_up: true, ..no_keys() };
    assert_eq!(key_commands(&keys).navigate, -9);
    let keys = Keys { quit: true, escape: true, ..no_keys() };
    assert_eq!(key_commands(&keys).leave, Some(ViewerOutcome::Quit));
    let keys = Keys { escape: true, home: true, space: true, ..no_keys() };
    let cmd = key_commands(&keys);
    assert_eq!(cmd.leave, Some(ViewerOutcome::Hidden));
    assert!(cmd.first && cmd.toggle_pause && !cmd.last && !cmd.reload);
}

#[test]
fn after_viewer_depends_on_background_mode() {
    assert!(matches!(after_viewer(Ok(ViewerOutcome::Quit), true), AfterViewer::Stop));
    assert!(matches!(after_viewer(Ok(ViewerOutcome::Hidden), true), AfterViewer::Wait));
    assert!(matches!(after_viewer(Ok(ViewerOutcome::Hidden), false), AfterViewer::Stop));
    assert!(matches!(after_viewer(Err("x".to_string()), true), AfterViewer::Wait));
    match after_viewer(Err("no window".to_string()), false) {
        AfterViewer::Fail(m) => assert_eq!(m, "no window"),
        _ => panic!("expected a failure"),
    }
}

#[test]
fn nothing_to_do_without_path_or_background() {
    let mut cfg = Config::default();
    assert!(nothing_to_do(&cfg));
    cfg.background = true;
    assert!(!nothing_to_do(&cfg));
    cfg.background = false;
    cfg.initial_path = Some("x.png".to_string());
    assert!(!nothing_to_do(&cfg));
}

#[test]
fn can_fit_refuses_only_overflowing_indices() {
    assert!(can_fit(1920, 1080, 1280, 800));
    assert!(can_fit(0, 0, 0, 0));
    // A wide source scales without overflow: only the first column is read.
    assert!(can_fit(usize::MAX, 2, 10, 10));
    // Source rows whose start overflows `usize` are refused.
    assert!(!can_fit(1 << 33, 1 << 33, 4, 4));
    assert!(!can_fit(10, 10, usize::MAX, 2));
}

fn decoded(generation: u64, path: &str, pixels: usize) -> LoadResult {
    LoadResult {
        generation,
        path: path.to_string(),
        result: Ok(Arc::new(ImageData { width: pixels, height: 1, pixels: vec![1; pixels] })),
    }
}

#[test]
fn moving_away_drops_images_outside_the_radius() {
    let mut cfg = Config::default();
    cfg.preload = 1;
    cfg.cache_radius = 1;
    let items = (0..6).map(|i| item(&format!("/pics/{i}.png"), MediaKind::Image)).collect();
    let (mut state, _) = ViewerState::new(MediaSet { items, index: 0 }, &cfg);
    let g = state.generation();
    assert!(state.poll(vec![decoded(g, "/pics/0.png", 1), decoded(g, "/pics/1.png", 2)], &cfg));
    assert_eq!(state.decoded_bytes(), 12);
    assert!(state.set_index(1, &cfg).is_some());
    assert_eq!(state.decoded_bytes(), 12);
    assert!(state.set_index(4, &cfg).is_some());
    assert_eq!(state.decoded_bytes(), 0);
    // A far image of the current generation is not taken in either.
    let g = state.generation();
    assert!(!state.poll(vec![decoded(g, "/pics/0.png", 1)], &cfg));
    assert_eq!(state.decoded_bytes(), 0);
    // Work of the generation before the move is discarded.
    assert!(!state.poll(vec![decoded(g - 1, "/pics/4.png", 1)], &cfg));
    assert!(state.poll(vec![decoded(g, "/pics/4.png", 1)], &cfg));
    assert_eq!(state.decoded_bytes(), 4);
}
