//! Video helpers: the command lines of `ffprobe`, `ffmpeg` and `ffplay`, the
//! reading of `ffprobe`'s answer, and the conversion of raw BGRA frames.
//! The processes, the frame clock and the audio companion are run by the
//! caller.
use vstd::prelude::*;
use vstd::utf8::encode_utf8;
use crate::startup::arg_views;
use crate::text::{parse_unsigned, parse_unsigned_bytes, str_eq};

verus! {

/// The 0RGB pixel of the BGRA bytes starting at `i`.
pub open spec fn bgra_pixel(bytes: Seq<u8>, i: int) -> u32 {
    (bytes[i + 2] * 65536 + bytes[i + 1] * 256 + bytes[i]) as u32
}

/// The pixels of a raw BGRA frame, four bytes each; alpha is dropped.
pub open spec fn bgra_pixels(bytes: Seq<u8>) -> Seq<u32> {
    Seq::new(bytes.len() / 4, |k: int| bgra_pixel(bytes, 4 * k))
}

/// Converts a raw BGRA frame as `ffmpeg` writes it into 0RGB pixels.
pub fn normalize_bgra(bytes: &[u8]) -> (r: Vec<u32>)
    ensures
        r@ == bgra_pixels(bytes@),
{
    let mut out: Vec<u32> = Vec::new();
    normalize_bgra_into(bytes, &mut out);
    out
}

/// Converts a raw BGRA frame into 0RGB pixels, reusing the buffer `out`
/// (whatever it held before is replaced).
pub fn normalize_bgra_into(bytes: &[u8], out: &mut Vec<u32>)
    ensures
        final(out)@ == bgra_pixels(bytes@),
{
    out.clear();
    let n = bytes.len() / 4;
    let mut k: usize = 0;
    while k < n
        invariant
            k <= n,
            n == bytes.len() / 4,
            out@ =~= bgra_pixels(bytes@).take(k as int),
        decreases n - k,
    {
        let i = 4 * k;
        let b = bytes[i] as u32;
        let g = bytes[i + 1] as u32;
        let r = bytes[i + 2] as u32;
        out.push(r * 65536 + g * 256 + b);
        k += 1;
    }
}

// ---------------------------------------------------------------------------
// Reading ffprobe's answer.

/// Position of the first `\n` in `s`.
pub open spec fn first_newline(s: Seq<char>) -> Option<int>
    decreases s.len(),
{
    if s.len() == 0 {
        None
    } else if s[0] == '\n' {
        Some(0)
    } else {
        match first_newline(s.drop_first()) {
            Some(i) => Some(i + 1),
            None => None,
        }
    }
}

/// A line without its terminator: the `\n`, and a `\r` just before it.
pub open spec fn line_body(line: Seq<char>) -> Seq<char> {
    if line.len() > 0 && line.last() == '\r' {
        line.drop_last()
    } else {
        line
    }
}

/// The lines of `s`, as `str::lines` gives them.
pub open spec fn text_lines(s: Seq<char>) -> Seq<Seq<char>>
    decreases s.len(),
{
    if s.len() == 0 {
        Seq::empty()
    } else {
        match first_newline(s) {
            Some(i) => if 0 <= i < s.len() {
                seq![line_body(s.take(i))] + text_lines(s.skip(i + 1))
            } else {
                Seq::empty()
            },
            None => seq![s],
        }
    }
}

/// What `ffprobe` reported: width, height and the raw `avg_frame_rate` text.
pub struct ProbeFields {
    pub width: Option<usize>,
    pub height: Option<usize>,
    pub frame_rate: Option<String>,
}

/// The report after one more line: `width=` and `height=` lines set (or, when
/// their value is not a number, clear) the dimension; an `avg_frame_rate=`
/// line sets the frame rate text.
pub open spec fn probe_line(
    fields: (Option<nat>, Option<nat>, Option<Seq<char>>),
    line: Seq<char>,
) -> (Option<nat>, Option<nat>, Option<Seq<char>>) {
    let w = "width="@;
    let h = "height="@;
    let f = "avg_frame_rate="@;
    if line.len() >= w.len() && line.take(w.len() as int) == w {
        (parse_unsigned(encode_utf8(line.skip(w.len() as int)), usize::MAX as nat), fields.1, fields.2)
    } else if line.len() >= h.len() && line.take(h.len() as int) == h {
        (fields.0, parse_unsigned(encode_utf8(line.skip(h.len() as int)), usize::MAX as nat), fields.2)
    } else if line.len() >= f.len() && line.take(f.len() as int) == f {
        (fields.0, fields.1, Some(line.skip(f.len() as int)))
    } else {
        fields
    }
}

/// The report after all of `lines`, in order.
pub open spec fn probe_lines(lines: Seq<Seq<char>>) -> (Option<nat>, Option<nat>, Option<Seq<char>>)
    decreases lines.len(),
{
    if lines.len() == 0 {
        (None, None, None)
    } else {
        probe_line(probe_lines(lines.drop_last()), lines.last())
    }
}


proof fn lemma_first_newline(s: Seq<char>, i: int)
    requires
        0 <= i <= s.len(),
        forall|k: int| 0 <= k < i ==> s[k] != '\n',
    ensures
        i < s.len() && s[i] == '\n' ==> first_newline(s) == Some(i),
        i == s.len() ==> first_newline(s) is None,
    decreases i,
{
    if i > 0 {
        assert forall|k: int| 0 <= k < i - 1 implies s.drop_first()[k] != '\n' by {
            assert(s.drop_first()[k] == s[k + 1]);
        }
        lemma_first_newline(s.drop_first(), i - 1);
    } else if s.len() == 0 {
    }
}

pub open spec fn fields_view(
    width: Option<usize>,
    height: Option<usize>,
    rate: Option<String>,
) -> (Option<nat>, Option<nat>, Option<Seq<char>>) {
    (
        match width {
            Some(v) => Some(v as nat),
            None => None,
        },
        match height {
            Some(v) => Some(v as nat),
            None => None,
        },
        match rate {
            Some(t) => Some(t@),
            None => None,
        },
    )
}

fn parse_size(value: &str) -> (r: Option<usize>)
    ensures
        match parse_unsigned(encode_utf8(value@), usize::MAX as nat) {
            Some(v) => r == Some(v as usize),
            None => r is None,
        },
{
    match parse_unsigned_bytes(value.as_bytes(), usize::MAX as u64) {
        Some(v) => Some(v as usize),
        None => None,
    }
}

/// Whether `line` starts with `prefix`; then the part after it.
fn strip_prefix<'a>(line: &'a str, prefix: &str) -> (r: Option<&'a str>)
    ensures
        line@.len() >= prefix@.len() && line@.take(prefix@.len() as int) == prefix@ ==> r is Some
            && r.unwrap()@ == line@.skip(prefix@.len() as int),
        !(line@.len() >= prefix@.len() && line@.take(prefix@.len() as int) == prefix@) ==> r is None,
{
    let n = line.unicode_len();
    let m = prefix.unicode_len();
    if n < m {
        return None;
    }
    let head = line.substring_char(0, m);
    if !str_eq(head, prefix) {
        return None;
    }
    let rest = line.substring_char(m, n);
    assert(line@.subrange(m as int, n as int) =~= line@.skip(m as int));
    Some(rest)
}

fn probe_one_line(
    width: &mut Option<usize>,
    height: &mut Option<usize>,
    rate: &mut Option<String>,
    line: &str,
)
    ensures
        fields_view(*final(width), *final(height), *final(rate)) == probe_line(
            fields_view(*old(width), *old(height), *old(rate)),
            line@,
        ),
{
    if let Some(value) = strip_prefix(line, "width=") {
        *width = parse_size(value);
    } else if let Some(value) = strip_prefix(line, "height=") {
        *height = parse_size(value);
    } else if let Some(value) = strip_prefix(line, "avg_frame_rate=") {
        *rate = Some(String::from_str(value));
    }
}

/// Reads `ffprobe`'s `key=value` answer: the last `width=`, `height=` and
/// `avg_frame_rate=` lines count.
pub fn read_probe(text: &str) -> (r: ProbeFields)
    ensures
        fields_view(r.width, r.height, r.frame_rate) == probe_lines(text_lines(text@)),
{
    let ghost s = text@;
    let n = text.unicode_len();
    let mut width: Option<usize> = None;
    let mut height: Option<usize> = None;
    let mut rate: Option<String> = None;
    let mut start: usize = 0;
    let ghost mut done: Seq<Seq<char>> = Seq::empty();
    assert(s.skip(0) =~= s);
    while start < n
        invariant
            start <= n,
            n == s.len(),
            s == text@,
            text_lines(s) == done + text_lines(s.skip(start as int)),
            fields_view(width, height, rate) == probe_lines(done),
        decreases n - start,
    {
        let mut j = start;
        while j < n && text.get_char(j) != '\n'
            invariant
                start <= j <= n,
                n == s.len(),
                s == text@,
                forall|k: int| start <= k < j ==> s[k] != '\n',
            decreases n - j,
        {
            j += 1;
        }
        let ghost t = s.skip(start as int);
        proof {
            assert forall|k: int| 0 <= k < j - start implies t[k] != '\n' by {
                assert(t[k] == s[start + k]);
            }
            lemma_first_newline(t, j - start);
        }
        let line = text.substring_char(start, j);
        let ghost before = done;
        if j < n {
            assert(t[j - start] == s[j as int]);
            let body = if j > start && line.get_char(j - start - 1) == '\r' {
                line.substring_char(0, j - start - 1)
            } else {
                line
            };
            assert(t.take(j - start) =~= line@);
            assert(body@ == line_body(t.take(j - start))) by {
                if j > start && line@[j - start - 1] == '\r' {
                    assert(line@.subrange(0, j - start - 1) =~= line@.drop_last());
                }
            }
            assert(t.skip(j - start + 1) =~= s.skip(j + 1));
            probe_one_line(&mut width, &mut height, &mut rate, body);
            proof {
                done = done.push(body@);
                assert(text_lines(t) =~= seq![body@] + text_lines(s.skip(j + 1)));
                assert(done =~= before + seq![body@]);
                assert(done.drop_last() =~= before);
            }
            start = j + 1;
        } else {
            assert(t =~= line@);
            probe_one_line(&mut width, &mut height, &mut rate, line);
            proof {
                done = done.push(line@);
                assert(text_lines(t) =~= seq![line@]);
                assert(s.skip(n as int) =~= Seq::<char>::empty());
                assert(done.drop_last() =~= before);
            }
            start = n;
        }
    }
    assert(s.skip(n as int) =~= Seq::<char>::empty());
    assert(done =~= text_lines(s));
    ProbeFields { width, height, frame_rate: rate }
}

/// The video size `ffprobe` reported, or what it failed to report.
pub fn probe_dimensions(fields: &ProbeFields) -> (r: Result<(usize, usize), String>)
    ensures
        match (fields.width, fields.height) {
            (Some(w), Some(h)) => r == Ok::<(usize, usize), String>((w, h)),
            (None, _) => r is Err && r->Err_0@ == "ffprobe did not return video width"@,
            (Some(_), None) => r is Err && r->Err_0@ == "ffprobe did not return video height"@,
        },
{
    match fields.width {
        None => Err(String::from_str("ffprobe did not return video width")),
        Some(w) => match fields.height {
            None => Err(String::from_str("ffprobe did not return video height")),
            Some(h) => Ok((w, h)),
        },
    }
}


// ---------------------------------------------------------------------------
// Command lines.

fn push_str_arg(args: &mut Vec<String>, a: &str)
    ensures
        arg_views(final(args)@) == arg_views(old(args)@).push(a@),
{
    args.push(String::from_str(a));
    assert(arg_views(final(args)@) =~= arg_views(old(args)@).push(a@));
}

/// `ffprobe` arguments that report the first video stream's size and frame rate.
pub fn ffprobe_args(path: &str) -> (r: Vec<String>)
    ensures
        arg_views(r@) == seq![
            "-v"@,
            "error"@,
            "-select_streams"@,
            "v:0"@,
            "-show_entries"@,
            "stream=width,height,avg_frame_rate"@,
            "-of"@,
            "default=noprint_wrappers=1"@,
            path@,
        ],
{
    let mut args: Vec<String> = Vec::new();
    push_str_arg(&mut args, "-v");
    push_str_arg(&mut args, "error");
    push_str_arg(&mut args, "-select_streams");
    push_str_arg(&mut args, "v:0");
    push_str_arg(&mut args, "-show_entries");
    push_str_arg(&mut args, "stream=width,height,avg_frame_rate");
    push_str_arg(&mut args, "-of");
    push_str_arg(&mut args, "default=noprint_wrappers=1");
    push_str_arg(&mut args, path);
    args
}

/// `ffmpeg` arguments that stream the video's frames as raw BGRA to stdout.
pub fn ffmpeg_decode_args(path: &str) -> (r: Vec<String>)
    ensures
        arg_views(r@) == seq![
            "-loglevel"@,
            "error"@,
            "-i"@,
            path@,
            "-an"@,
            "-sn"@,
            "-dn"@,
            "-f"@,
            "rawvideo"@,
            "-pix_fmt"@,
            "bgra"@,
            "pipe:1"@,
        ],
{
    let mut args: Vec<String> = Vec::new();
    push_str_arg(&mut args, "-loglevel");
    push_str_arg(&mut args, "error");
    push_str_arg(&mut args, "-i");
    push_str_arg(&mut args, path);
    push_str_arg(&mut args, "-an");
    push_str_arg(&mut args, "-sn");
    push_str_arg(&mut args, "-dn");
    push_str_arg(&mut args, "-f");
    push_str_arg(&mut args, "rawvideo");
    push_str_arg(&mut args, "-pix_fmt");
    push_str_arg(&mut args, "bgra");
    push_str_arg(&mut args, "pipe:1");
    args
}

/// `ffplay` arguments that play only the audio of `path` from `offset` seconds.
pub fn ffplay_args(offset: &str, path: &str) -> (r: Vec<String>)
    ensures
        arg_views(r@) == seq![
            "-hide_banner"@,
            "-loglevel"@,
            "quiet"@,
            "-nodisp"@,
            "-autoexit"@,
            "-vn"@,
            "-ss"@,
            offset@,
            path@,
        ],
{
    let mut args: Vec<String> = Vec::new();
    push_str_arg(&mut args, "-hide_banner");
    push_str_arg(&mut args, "-loglevel");
    push_str_arg(&mut args, "quiet");
    push_str_arg(&mut args, "-nodisp");
    push_str_arg(&mut args, "-autoexit");
    push_str_arg(&mut args, "-vn");
    push_str_arg(&mut args, "-ss");
    push_str_arg(&mut args, offset);
    push_str_arg(&mut args, path);
    args
}

} // verus!
