use blinkview::video::{ffmpeg_decode_args, ffplay_args, ffprobe_args, normalize_bgra, probe_dimensions, read_probe};

#[test]
fn bgra_frames_become_rgb_pixels() {
    assert_eq!(normalize_bgra(&[1, 2, 3, 4, 5, 6, 7, 8]), vec![0x030201, 0x070605]);
    assert_eq!(normalize_bgra(&[255, 255, 255, 0, 9]), vec![0xFFFFFF]);
}

#[test]
fn probe_answer_is_read() {
    let fields = read_probe("width=1920\nheight=1080\navg_frame_rate=30000/1001\n");
    assert_eq!(fields.width, Some(1920));
    assert_eq!(fields.height, Some(1080));
    assert_eq!(fields.frame_rate.as_deref(), Some("30000/1001"));
    assert_eq!(probe_dimensions(&fields), Ok((1920, 1080)));
}

#[test]
fn probe_answer_with_crlf_and_no_final_newline() {
    let fields = read_probe("width=640\r\nheight=480\r\navg_frame_rate=25/1");
    assert_eq!(fields.width, Some(640));
    assert_eq!(fields.height, Some(480));
    assert_eq!(fields.frame_rate.as_deref(), Some("25/1"));
}

#[test]
fn probe_answer_last_line_counts() {
    let fields = read_probe("width=10\nwidth=abc\nheight=5");
    assert_eq!(fields.width, None);
    assert_eq!(probe_dimensions(&fields), Err("ffprobe did not return video width".to_string()));
    let fields = read_probe("width=10\nfoo=1\n");
    assert_eq!(probe_dimensions(&fields), Err("ffprobe did not return video height".to_string()));
    let fields = read_probe("");
    assert_eq!(fields.width, None);
    assert_eq!(fields.frame_rate, None);
}

#[test]
fn command_lines() {
    assert_eq!(
        ffprobe_args("v.mp4"),
        vec![
            "-v", "error", "-select_streams", "v:0", "-show_entries", "stream=width,height,avg_frame_rate", "-of",
            "default=noprint_wrappers=1", "v.mp4"
        ]
    );
    assert_eq!(
        ffmpeg_decode_args("v.mp4"),
        vec!["-loglevel", "error", "-i", "v.mp4", "-an", "-sn", "-dn", "-f", "rawvideo", "-pix_fmt", "bgra", "pipe:1"]
    );
    assert_eq!(
        ffplay_args("1.500000", "v.mp4"),
        vec!["-hide_banner", "-loglevel", "quiet", "-nodisp", "-autoexit", "-vn", "-ss", "1.500000", "v.mp4"]
    );
}

#[test]
fn frames_are_converted_into_reused_buffers() {
    let mut frame = vec![7u32; 5];
    blinkview::video::normalize_bgra_into(&[1, 2, 3, 255, 4, 5, 6, 0], &mut frame);
    assert_eq!(frame, vec![0x030201, 0x060504]);
}
