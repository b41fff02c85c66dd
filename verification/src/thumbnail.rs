//! PNG thumbnails. Images are scaled with the `image` crate; videos are
//! handed to `ffmpeg`, whose command line is built here and run by the caller.
use vstd::prelude::*;
use crate::media::{MediaKind, media_kind, kind_for_path};
use crate::startup::{arg_views};
use crate::text::{decimal_chars, push_decimal};

verus! {

/// What a thumbnail request comes to.
#[derive(Debug, Clone, Copy, PartialEq, Eq, Structural)]
pub enum ThumbnailJob {
    /// Scale the image to fit a `size` x `size` box.
    Image { size: u32 },
    /// Ask `ffmpeg` for a frame that fits a `size` x `size` box.
    Video { size: u32 },
}

/// The next step of a video thumbnail.
pub enum VideoThumbnailStep {
    /// Run `ffmpeg`, seeking to `seek` first when there is one.
    Run { seek: Option<&'static str> },
    Done,
    Failed(String),
}

/// The box side actually used: the requested one, clamped to 16..=4096.
pub open spec fn thumbnail_side(size: u32) -> u32 {
    if size < 16 {
        16
    } else if size > 4096 {
        4096
    } else {
        size
    }
}

/// What a thumbnail of `input` takes; an error when the file is not a
/// supported image or video.
pub fn create(input: &str, size: u32) -> (r: Result<ThumbnailJob, String>)
    ensures
        match media_kind(input@) {
            Some(MediaKind::Image) => r == Ok::<ThumbnailJob, String>(
                ThumbnailJob::Image { size: thumbnail_side(size) },
            ),
            Some(MediaKind::Video) => r == Ok::<ThumbnailJob, String>(
                ThumbnailJob::Video { size: thumbnail_side(size) },
            ),
            None => r is Err && r->Err_0@ == "unsupported media type for thumbnail"@,
        },
{
    let side = if size < 16 {
        16
    } else if size > 4096 {
        4096
    } else {
        size
    };
    match kind_for_path(input) {
        Some(MediaKind::Image) => Ok(ThumbnailJob::Image { size: side }),
        Some(MediaKind::Video) => Ok(ThumbnailJob::Video { size: side }),
        None => Err(String::from_str("unsupported media type for thumbnail")),
    }
}

/// What the `image` crate makes of an image file's bytes scaled to fit a
/// `size` x `size` box and encoded as PNG, or the message of the error.
pub uninterp spec fn thumbnail_png(format_hint: Seq<char>, bytes: Seq<u8>, size: u32) -> Result<
    Seq<u8>,
    Seq<char>,
>;

/// Decodes `bytes` with the `image` crate (format from the extension of
/// `format_hint`, then from the content), scales the picture with
/// `DynamicImage::resize` and Lanczos3 to fit `size` x `size`, and encodes it
/// as PNG with `DynamicImage::write_to`. Claims only that the outcome is a
/// function of the three arguments (named `thumbnail_png`).
#[verifier::external_body]
fn encode_thumbnail(format_hint: &str, bytes: &[u8], size: u32) -> (r: Result<Vec<u8>, String>)
    ensures
        match r {
            Ok(png) => thumbnail_png(format_hint@, bytes@, size) == Ok::<Seq<u8>, Seq<char>>(png@),
            Err(e) => thumbnail_png(format_hint@, bytes@, size) == Err::<Seq<u8>, Seq<char>>(e@),
        },
{
    let mut reader = image::ImageReader::new(std::io::Cursor::new(bytes));
    if let Ok(format) = image::ImageFormat::from_path(format_hint) {
        reader.set_format(format);
    }
    let reader = reader.with_guessed_format().map_err(
        |e| format!("thumbnail format detection failed: {e}"),
    )?;
    let decoded = reader.decode().map_err(|e| format!("thumbnail decode failed: {e}"))?;
    let thumb = decoded.resize(size, size, image::imageops::FilterType::Lanczos3);
    let mut out = std::io::Cursor::new(Vec::new());
    thumb.write_to(&mut out, image::ImageFormat::Png).map_err(
        |e| format!("thumbnail PNG write failed: {e}"),
    )?;
    Ok(out.into_inner())
}

/// The PNG thumbnail of an image file, given its path (for the format) and
/// its bytes; `size` is the box side of the job.
pub fn create_image(input: &str, bytes: &[u8], size: u32) -> (r: Result<Vec<u8>, String>)
    ensures
        match thumbnail_png(input@, bytes@, size) {
            Ok(png) => r is Ok && r->Ok_0@ == png,
            Err(e) => r is Err && r->Err_0@ == e,
        },
{
    encode_thumbnail(input, bytes, size)
}

/// The next step of a video thumbnail after `tried` runs of `ffmpeg`, the last
/// of which `succeeded` or not: first a frame one second in, then (for very
/// short clips) the first frame.
pub fn create_video(tried: usize, succeeded: bool) -> (r: VideoThumbnailStep)
    ensures
        succeeded ==> r is Done,
        !succeeded && tried == 0 ==> (r matches VideoThumbnailStep::Run { seek } && seek is Some
            && seek.unwrap()@ == "1.0"@),
        !succeeded && tried == 1 ==> (r matches VideoThumbnailStep::Run { seek } && seek is None),
        !succeeded && tried >= 2 ==> (r matches VideoThumbnailStep::Failed(m) && m@
            == "ffmpeg could not extract a video thumbnail"@),
{
    if succeeded {
        VideoThumbnailStep::Done
    } else if tried == 0 {
        VideoThumbnailStep::Run { seek: Some("1.0") }
    } else if tried == 1 {
        VideoThumbnailStep::Run { seek: None }
    } else {
        VideoThumbnailStep::Failed(String::from_str("ffmpeg could not extract a video thumbnail"))
    }
}

/// The `ffmpeg` filter that scales a frame to fit `size` x `size`.
pub open spec fn scale_filter(size: u32) -> Seq<char> {
    "scale=w="@ + decimal_chars(size as nat) + ":h="@ + decimal_chars(size as nat)
        + ":force_original_aspect_ratio=decrease"@
}

/// The `ffmpeg` arguments that write one PNG frame of `input` to `output`.
pub open spec fn thumbnail_args(
    input: Seq<char>,
    output: Seq<char>,
    size: u32,
    seek: Option<Seq<char>>,
) -> Seq<Seq<char>> {
    let head = seq!["-hide_banner"@, "-loglevel"@, "error"@, "-y"@];
    let seeking = match seek {
        Some(s) => seq!["-ss"@, s],
        None => Seq::empty(),
    };
    head + seeking + seq![
        "-i"@,
        input,
        "-frames:v"@,
        "1"@,
        "-vf"@,
        scale_filter(size),
        "-an"@,
        "-sn"@,
        "-dn"@,
        "-f"@,
        "image2"@,
        "-vcodec"@,
        "png"@,
        output,
    ]
}

fn push_text(args: &mut Vec<String>, a: String)
    ensures
        arg_views(final(args)@) == arg_views(old(args)@).push(a@),
{
    let ghost v = a@;
    args.push(a);
    assert(arg_views(final(args)@) =~= arg_views(old(args)@).push(v));
}

/// The arguments of the `ffmpeg` run that makes a video thumbnail.
pub fn ffmpeg_thumbnail_args(input: &str, output: &str, size: u32, seek: Option<&str>) -> (r: Vec<
    String,
>)
    ensures
        arg_views(r@) == thumbnail_args(
            input@,
            output@,
            size,
            match seek {
                Some(s) => Some(s@),
                None => None,
            },
        ),
{
    let mut filter = String::from_str("scale=w=");
    push_decimal(&mut filter, size as u64);
    filter.append(":h=");
    push_decimal(&mut filter, size as u64);
    filter.append(":force_original_aspect_ratio=decrease");
    let mut args: Vec<String> = Vec::new();
    push_text(&mut args, String::from_str("-hide_banner"));
    push_text(&mut args, String::from_str("-loglevel"));
    push_text(&mut args, String::from_str("error"));
    push_text(&mut args, String::from_str("-y"));
    match seek {
        Some(s) => {
            push_text(&mut args, String::from_str("-ss"));
            push_text(&mut args, String::from_str(s));
        },
        None => {},
    }
    push_text(&mut args, String::from_str("-i"));
    push_text(&mut args, String::from_str(input));
    push_text(&mut args, String::from_str("-frames:v"));
    push_text(&mut args, String::from_str("1"));
    push_text(&mut args, String::from_str("-vf"));
    push_text(&mut args, filter);
    push_text(&mut args, String::from_str("-an"));
    push_text(&mut args, String::from_str("-sn"));
    push_text(&mut args, String::from_str("-dn"));
    push_text(&mut args, String::from_str("-f"));
    push_text(&mut args, String::from_str("image2"));
    push_text(&mut args, String::from_str("-vcodec"));
    push_text(&mut args, String::from_str("png"));
    push_text(&mut args, String::from_str(output));
    assert(arg_views(args@) =~= thumbnail_args(
        input@,
        output@,
        size,
        match seek {
            Some(s) => Some(s@),
            None => None,
        },
    ));
    args
}

} // verus!
