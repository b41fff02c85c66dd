use blinkview::cache::{decode, pack_premultiplied, ImageCache, ImageData, LoadResult};
use std::sync::Arc;

fn strings(list: &[&str]) -> Vec<String> {
    list.iter().map(|s| s.to_string()).collect()
}

fn image(pixels: usize) -> Arc<ImageData> {
    Arc::new(ImageData { width: pixels, height: 1, pixels: vec![0; pixels] })
}

fn done(generation: u64, path: &str, result: Result<Arc<ImageData>, String>) -> LoadResult {
    LoadResult { generation, path: path.to_string(), result }
}

fn png(width: u32, height: u32, rgba: &[u8]) -> Vec<u8> {
    let img = image::RgbaImage::from_raw(width, height, rgba.to_vec()).unwrap();
    let mut out = std::io::Cursor::new(Vec::new());
    image::DynamicImage::ImageRgba8(img).write_to(&mut out, image::ImageFormat::Png).unwrap();
    out.into_inner()
}

#[test]
fn byte_len_counts_four_bytes_per_pixel() {
    assert_eq!(image(10).byte_len(), 40);
}

#[test]
fn recenter_requests_what_is_missing() {
    let mut cache = ImageCache::new(384);
    assert_eq!(cache.generation(), 1);
    let requests = cache.recenter(&strings(&["a", "b", "a"]), &strings(&["a", "b", "c"]));
    let paths: Vec<&str> = requests.iter().map(|r| r.path.as_str()).collect();
    assert_eq!(paths, vec!["a", "b"]);
    assert!(requests.iter().all(|r| r.generation == 2));
    assert_eq!(cache.generation(), 2);
    let changed = cache.poll(vec![done(2, "a", Ok(image(4)))], &strings(&["a", "b", "c"]));
    assert!(changed);
    let requests = cache.recenter(&strings(&["a", "b"]), &strings(&["a", "b"]));
    let paths: Vec<&str> = requests.iter().map(|r| r.path.as_str()).collect();
    assert_eq!(paths, vec!["b"]);
    assert_eq!(requests[0].generation, 3);
}

#[test]
fn poll_keeps_current_generation_results_of_the_working_set() {
    let mut cache = ImageCache::new(384);
    let keep = strings(&["a", "b"]);
    cache.recenter(&keep, &keep);
    assert!(!cache.poll(vec![done(1, "a", Ok(image(4)))], &keep));
    assert!(cache.get("a").is_none());
    assert!(!cache.poll(vec![done(2, "z", Ok(image(4)))], &keep));
    assert!(cache.get("z").is_none());
    assert!(cache.poll(vec![done(2, "a", Ok(image(4))), done(2, "b", Err("bad".to_string()))], &keep));
    assert_eq!(cache.get("a").unwrap().pixels.len(), 4);
    assert_eq!(cache.error("b"), Some("bad"));
    assert_eq!(cache.decoded_bytes(), 16);
    // A later success replaces the error, a later failure the image.
    assert!(cache.poll(vec![done(2, "b", Ok(image(2))), done(2, "a", Err("gone".to_string()))], &keep));
    assert!(cache.error("b").is_none());
    assert_eq!(cache.get("b").unwrap().pixels.len(), 2);
    assert!(cache.get("a").is_none());
    assert_eq!(cache.error("a"), Some("gone"));
    assert!(!cache.poll(vec![], &keep));
}

#[test]
fn recenter_drops_what_left_the_working_set() {
    let mut cache = ImageCache::new(384);
    let keep = strings(&["a", "b"]);
    cache.recenter(&keep, &keep);
    cache.poll(vec![done(2, "a", Ok(image(1))), done(2, "b", Err("x".to_string()))], &keep);
    cache.recenter(&strings(&["c"]), &strings(&["c", "a"]));
    assert!(cache.get("a").is_some());
    assert!(cache.error("b").is_none());
}

#[test]
fn budget_drops_farthest_neighbours_first() {
    let mut cache = ImageCache::new(1);
    let keep = strings(&["cur", "n1", "n2"]);
    cache.recenter(&keep, &keep);
    let results = vec![
        done(2, "cur", Ok(image(100_000))),
        done(2, "n1", Ok(image(100_000))),
        done(2, "n2", Ok(image(100_000))),
    ];
    assert!(cache.poll(results, &keep));
    assert!(cache.get("cur").is_some());
    assert!(cache.get("n1").is_some());
    assert!(cache.get("n2").is_none());
    assert_eq!(cache.decoded_bytes(), 800_000);
}

#[test]
fn budget_keeps_the_current_image_even_when_too_large() {
    let mut cache = ImageCache::new(1);
    let keep = strings(&["cur", "n1"]);
    cache.recenter(&keep, &keep);
    cache.poll(vec![done(2, "cur", Ok(image(400_000))), done(2, "n1", Ok(image(10)))], &keep);
    assert!(cache.get("cur").is_some());
    assert!(cache.get("n1").is_none());
    assert_eq!(cache.decoded_bytes(), 1_600_000);
}

#[test]
fn zero_budget_means_unlimited() {
    let mut cache = ImageCache::new(0);
    let keep = strings(&["cur", "n1"]);
    cache.recenter(&keep, &keep);
    cache.poll(vec![done(2, "cur", Ok(image(400_000))), done(2, "n1", Ok(image(400_000)))], &keep);
    assert!(cache.get("n1").is_some());
}

#[test]
fn reset_forgets_everything() {
    let mut cache = ImageCache::new(384);
    let keep = strings(&["a"]);
    cache.recenter(&keep, &keep);
    cache.poll(vec![done(2, "a", Ok(image(1)))], &keep);
    cache.reset();
    assert_eq!(cache.generation(), 3);
    assert!(cache.get("a").is_none());
    assert_eq!(cache.decoded_bytes(), 0);
}

#[test]
fn packing_premultiplies_by_alpha() {
    assert_eq!(pack_premultiplied(&[255, 0, 0, 255, 0, 0, 255, 128]), vec![0xFF0000, 0x000080]);
    assert_eq!(pack_premultiplied(&[10, 20, 30, 0]), vec![0]);
    assert_eq!(pack_premultiplied(&[255, 255, 255, 255, 1, 2]), vec![0xFFFFFF]);
    assert_eq!(pack_premultiplied(&[100, 50, 200, 51]), vec![(20 << 16) | (10 << 8) | 40]);
}

#[test]
fn decode_reads_png_bytes() {
    let bytes = png(2, 1, &[255, 0, 0, 255, 0, 0, 255, 128]);
    let img = decode("x.png", &bytes).unwrap();
    assert_eq!(img.width, 2);
    assert_eq!(img.height, 1);
    assert_eq!(img.pixels, vec![0xFF0000, 0x000080]);
    // The content decides when the extension is wrong.
    let img = decode("x.jpg", &bytes).unwrap();
    assert_eq!(img.width, 2);
}

#[test]
fn decode_reports_bad_data() {
    let err = decode("x.png", b"not an image").err().unwrap();
    assert!(err.starts_with("decode failed:"), "{err}");
}

#[test]
fn requests_of_another_generation_are_stale() {
    let request = blinkview::cache::LoadRequest { generation: 3, path: "a".to_string() };
    assert!(request.is_current(3));
    assert!(!request.is_current(4));
}
