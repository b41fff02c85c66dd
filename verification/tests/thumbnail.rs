use blinkview::thumbnail::{create, create_image, create_video, ffmpeg_thumbnail_args, ThumbnailJob, VideoThumbnailStep};

fn png(width: u32, height: u32) -> Vec<u8> {
    let img = image::RgbaImage::from_pixel(width, height, image::Rgba([10, 20, 30, 255]));
    let mut out = std::io::Cursor::new(Vec::new());
    image::DynamicImage::ImageRgba8(img).write_to(&mut out, image::ImageFormat::Png).unwrap();
    out.into_inner()
}

#[test]
fn thumbnail_jobs_clamp_the_size() {
    assert_eq!(create("a.png", 8), Ok(ThumbnailJob::Image { size: 16 }));
    assert_eq!(create("a.PNG", 256), Ok(ThumbnailJob::Image { size: 256 }));
    assert_eq!(create("a.mp4", 10000), Ok(ThumbnailJob::Video { size: 4096 }));
    assert_eq!(create("a.txt", 256), Err("unsupported media type for thumbnail".to_string()));
}

#[test]
fn image_thumbnail_fits_the_box() {
    let bytes = png(64, 32);
    let out = create_image("photo.png", &bytes, 16).unwrap();
    let thumb = image::load_from_memory(&out).unwrap();
    assert_eq!((thumb.width(), thumb.height()), (16, 8));
    assert!(create_image("photo.png", b"nope", 16).unwrap_err().starts_with("thumbnail decode failed:"));
}

#[test]
fn video_thumbnail_steps() {
    assert!(matches!(create_video(0, false), VideoThumbnailStep::Run { seek: Some("1.0") }));
    assert!(matches!(create_video(1, false), VideoThumbnailStep::Run { seek: None }));
    assert!(matches!(create_video(1, true), VideoThumbnailStep::Done));
    match create_video(2, false) {
        VideoThumbnailStep::Failed(m) => assert_eq!(m, "ffmpeg could not extract a video thumbnail"),
        _ => panic!(),
    }
}

#[test]
fn ffmpeg_thumbnail_command_line() {
    assert_eq!(
        ffmpeg_thumbnail_args("in.mp4", "out.png", 256, Some("1.0")),
        vec![
            "-hide_banner", "-loglevel", "error", "-y", "-ss", "1.0", "-i", "in.mp4", "-frames:v", "1", "-vf",
            "scale=w=256:h=256:force_original_aspect_ratio=decrease", "-an", "-sn", "-dn", "-f", "image2",
            "-vcodec", "png", "out.png"
        ]
    );
    let args = ffmpeg_thumbnail_args("in.mp4", "out.png", 4096, None);
    assert_eq!(args.len(), 18);
    assert_eq!(args[4], "-i");
    assert_eq!(args[9], "scale=w=4096:h=4096:force_original_aspect_ratio=decrease");
}
