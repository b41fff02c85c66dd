use blinkview::media::{
    keep_order, kind_for_name, kind_for_path, natural_cmp, natural_path_cmp, preload_order, same_path,
    scan_listing, ListingEntry, MediaItem, MediaKind, ScanError,
};
use std::cmp::Ordering;

fn entry(path: &str) -> ListingEntry {
    ListingEntry { path: path.to_string(), canonical: None }
}

fn item(path: &str, kind: MediaKind) -> MediaItem {
    MediaItem { path: path.to_string(), kind }
}

fn paths(set: &[MediaItem]) -> Vec<&str> {
    set.iter().map(|i| i.path.as_str()).collect()
}

#[test]
fn natural_numbers_sort_as_humans_expect() {
    assert_eq!(natural_cmp("1.png", "2.png"), Ordering::Less);
    assert_eq!(natural_cmp("2.png", "10.png"), Ordering::Less);
    assert_eq!(natural_cmp("img009.png", "img10.png"), Ordering::Less);
}

#[test]
fn natural_order_breaks_ties_on_leading_zeros() {
    assert_eq!(natural_cmp("01", "1"), Ordering::Greater);
    assert_eq!(natural_cmp("1", "01"), Ordering::Less);
    assert_eq!(natural_cmp("a007b", "a7b"), Ordering::Greater);
}

#[test]
fn natural_order_compares_values_then_bytes() {
    assert_eq!(natural_cmp("x10y", "x9z"), Ordering::Greater);
    assert_eq!(natural_cmp("abc", "ab"), Ordering::Greater);
    assert_eq!(natural_cmp("", "a"), Ordering::Less);
    assert_eq!(natural_cmp("file.png", "File.png"), Ordering::Greater);
    assert_eq!(natural_cmp("a-1", "a1"), Ordering::Less);
    assert_eq!(natural_cmp("a:", "a1"), Ordering::Greater);
}

#[test]
fn natural_order_is_reflexive_and_antisymmetric() {
    let names = ["", "a", "a1", "a01", "a10b", "10", "9", "Z", "z", "img009.png", "img10.png"];
    for a in names {
        assert_eq!(natural_cmp(a, a), Ordering::Equal);
        for b in names {
            assert_eq!(natural_cmp(a, b), natural_cmp(b, a).reverse());
            if a != b {
                assert_ne!(natural_cmp(a, b), Ordering::Equal);
            }
        }
    }
}

#[test]
fn natural_order_is_transitive_on_examples() {
    let names = ["1", "01", "001", "2", "10", "a", "a2", "a10", "a02", "b", "-", ":"];
    for a in names {
        for b in names {
            for c in names {
                if natural_cmp(a, b) == Ordering::Less && natural_cmp(b, c) == Ordering::Less {
                    assert_eq!(natural_cmp(a, c), Ordering::Less, "{a} {b} {c}");
                }
            }
        }
    }
}

#[test]
fn path_order_uses_the_file_name_without_case() {
    assert_eq!(natural_path_cmp("/b/File2.png", "/a/file10.png"), Ordering::Less);
    assert_eq!(natural_path_cmp("/x/A.png", "/y/a.png"), Ordering::Equal);
    assert_eq!(natural_path_cmp("/z/b.png", "/a/c.png"), Ordering::Less);
}

#[test]
fn media_kind_follows_the_extension() {
    assert_eq!(kind_for_path("/p/x.PNG"), Some(MediaKind::Image));
    assert_eq!(kind_for_path("/p/a.tar.jpeg"), Some(MediaKind::Image));
    assert_eq!(kind_for_path("photo.QoI"), Some(MediaKind::Image));
    assert_eq!(kind_for_path("/p/clip.m2ts"), Some(MediaKind::Video));
    assert_eq!(kind_for_path("clip.TS"), Some(MediaKind::Video));
    assert_eq!(kind_for_path("x.mkv/"), Some(MediaKind::Video));
    assert_eq!(kind_for_path("/p/.png"), None);
    assert_eq!(kind_for_path("/p/noext"), None);
    assert_eq!(kind_for_path("/p/a.txt"), None);
    assert_eq!(kind_for_path("/p.png/readme"), None);
    assert_eq!(kind_for_path("/p/a.png."), None);
    assert_eq!(kind_for_path(".."), None);
}

#[test]
fn file_name_kind_follows_the_extension() {
    assert_eq!(kind_for_name("A.JPG"), Some(MediaKind::Image));
    assert_eq!(kind_for_name("movie.WebM"), Some(MediaKind::Video));
    assert_eq!(kind_for_name(".gif"), None);
    assert_eq!(kind_for_name("x.gif.txt"), None);
    assert_eq!(kind_for_name("tiff"), None);
}

#[test]
fn listing_is_filtered_and_naturally_sorted() {
    let entries = vec![
        entry("/d/10.png"),
        entry("/d/notes.txt"),
        entry("/d/2.PNG"),
        entry("/d/clip.mp4"),
        entry("/d/1.jpg"),
    ];
    let set = scan_listing(entries, None).unwrap();
    assert_eq!(paths(&set.items), vec!["/d/1.jpg", "/d/2.PNG", "/d/10.png", "/d/clip.mp4"]);
    assert_eq!(set.index, 0);
    assert_eq!(set.items[3].kind, MediaKind::Video);
    assert_eq!(set.items[0].kind, MediaKind::Image);
}

#[test]
fn listing_sort_is_stable_for_equal_names() {
    let entries = vec![entry("/d/B.png"), entry("/d/a.png"), entry("/d/b.png")];
    let set = scan_listing(entries, None).unwrap();
    assert_eq!(paths(&set.items), vec!["/d/a.png", "/d/B.png", "/d/b.png"]);
}

#[test]
fn listing_finds_the_requested_file() {
    let entries = vec![entry("/d/10.png"), entry("/d/2.png"), entry("/d/1.png")];
    let set = scan_listing(entries, Some(entry("/d/10.png"))).unwrap();
    assert_eq!(set.index, 2);
}

#[test]
fn listing_finds_the_requested_file_by_canonical_path() {
    let entries = vec![
        ListingEntry { path: "/d/a.png".to_string(), canonical: Some("/real/a.png".to_string()) },
        ListingEntry { path: "/d/b.png".to_string(), canonical: Some("/real/b.png".to_string()) },
    ];
    let requested = ListingEntry {
        path: "/link/b.png".to_string(),
        canonical: Some("/real/b.png".to_string()),
    };
    let set = scan_listing(entries, Some(requested)).unwrap();
    assert_eq!(set.index, 1);
}

#[test]
fn listing_errors() {
    let r = scan_listing(vec![entry("/d/a.txt")], None);
    assert!(matches!(r, Err(ScanError::NoMedia)));
    let r = scan_listing(vec![entry("/d/a.png")], Some(entry("/d/a.txt")));
    assert!(matches!(r, Err(ScanError::NotMedia)));
    assert_eq!(ScanError::NoMedia.message(), "folder has no supported images or videos");
    assert_eq!(ScanError::NotMedia.message(), "requested file is not a supported media file");
}

#[test]
fn same_path_compares_text_then_canonical_forms() {
    assert!(same_path(&entry("/a"), &entry("/a")));
    assert!(!same_path(&entry("/a"), &entry("/b")));
    let a = ListingEntry { path: "/a".to_string(), canonical: Some("/r".to_string()) };
    let b = ListingEntry { path: "/b".to_string(), canonical: Some("/r".to_string()) };
    let c = ListingEntry { path: "/c".to_string(), canonical: None };
    assert!(same_path(&a, &b));
    assert!(!same_path(&a, &c));
}

#[test]
fn preload_takes_nearest_images_first() {
    let items = vec![
        item("a", MediaKind::Image),
        item("b", MediaKind::Image),
        item("c", MediaKind::Video),
        item("d", MediaKind::Image),
        item("e", MediaKind::Image),
    ];
    assert_eq!(preload_order(&items, 2, 2), vec!["d", "b", "e", "a"]);
    assert_eq!(preload_order(&items, 0, 1), vec!["a", "b"]);
    assert_eq!(preload_order(&items, 1, 0), vec!["b"]);
    assert_eq!(preload_order(&items, 4, 10), vec!["e", "d", "b", "a"]);
    assert_eq!(preload_order(&items, 9, 1), Vec::<String>::new());
    assert_eq!(keep_order(&items, 3, 1), vec!["d", "e"]);
}

#[test]
fn preload_is_bounded() {
    let items: Vec<MediaItem> = (0..50).map(|i| item(&format!("{i}.png"), MediaKind::Image)).collect();
    for distance in 0..5 {
        let order = preload_order(&items, 25, distance);
        assert_eq!(order.len(), 2 * distance + 1);
        assert_eq!(order[0], "25.png");
    }
}
