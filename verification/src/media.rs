//! The folder index: which files are media, in which order they are shown,
//! and which neighbours are worth decoding ahead of time.
use std::cmp::Ordering;
use vstd::prelude::*;
use vstd::utf8::{encode_utf8, encode_scalar};
use crate::natural::{
    NameOrder,
    natural_order,
    natural_order_bytes,
    lemma_natural_order_antisymmetric,
    lemma_natural_order_equal,
    lemma_natural_order_transitive,
    lemma_natural_order_reflexive,
};
use crate::paths::{
    path_file_name,
    file_name_of,
    lower_bytes,
    lowercase_bytes,
    bytes_equal,
    extension_of,
    extension_start,
    last_dot,
    lower_byte,
};

verus! {

#[derive(Debug, Clone, Copy, PartialEq, Eq, Structural)]
pub enum MediaKind {
    Image,
    Video,
}

#[derive(Debug, Clone)]
pub struct MediaItem {
    pub path: String,
    pub kind: MediaKind,
}

#[derive(Debug, Clone)]
pub struct MediaSet {
    pub items: Vec<MediaItem>,
    pub index: usize,
}

/// Extensions (in lower case) of the image formats that are shown.
pub open spec fn is_image_extension(e: Seq<u8>) -> bool {
    ||| e == seq![112u8, 110, 103] /* png */
    ||| e == seq![106u8, 112, 103] /* jpg */
    ||| e == seq![106u8, 112, 101, 103] /* jpeg */
    ||| e == seq![103u8, 105, 102] /* gif */
    ||| e == seq![98u8, 109, 112] /* bmp */
    ||| e == seq![119u8, 101, 98, 112] /* webp */
    ||| e == seq![116u8, 105, 102] /* tif */
    ||| e == seq![116u8, 105, 102, 102] /* tiff */
    ||| e == seq![105u8, 99, 111] /* ico */
    ||| e == seq![112u8, 110, 109] /* pnm */
    ||| e == seq![112u8, 112, 109] /* ppm */
    ||| e == seq![112u8, 103, 109] /* pgm */
    ||| e == seq![112u8, 98, 109] /* pbm */
    ||| e == seq![113u8, 111, 105] /* qoi */
}

/// Extensions (in lower case) of the video formats that are shown.
pub open spec fn is_video_extension(e: Seq<u8>) -> bool {
    ||| e == seq![109u8, 112, 52] /* mp4 */
    ||| e == seq![109u8, 107, 118] /* mkv */
    ||| e == seq![119u8, 101, 98, 109] /* webm */
    ||| e == seq![109u8, 111, 118] /* mov */
    ||| e == seq![97u8, 118, 105] /* avi */
    ||| e == seq![109u8, 52, 118] /* m4v */
    ||| e == seq![109u8, 112, 103] /* mpg */
    ||| e == seq![109u8, 112, 101, 103] /* mpeg */
    ||| e == seq![119u8, 109, 118] /* wmv */
    ||| e == seq![102u8, 108, 118] /* flv */
    ||| e == seq![116u8, 115] /* ts */
    ||| e == seq![109u8, 116, 115] /* mts */
    ||| e == seq![109u8, 50, 116, 115] /* m2ts */
}

pub open spec fn kind_of_extension(e: Seq<u8>) -> Option<MediaKind> {
    if is_image_extension(e) {
        Some(MediaKind::Image)
    } else if is_video_extension(e) {
        Some(MediaKind::Video)
    } else {
        None
    }
}

/// The kind of media a path names, judged by the extension of its file name
/// in ASCII lower case.
pub open spec fn media_kind(path: Seq<char>) -> Option<MediaKind> {
    match path_file_name(path) {
        Some(name) => name_kind(name),
        None => None,
    }
}

/// The kind of media a file name stands for, judged by its extension in
/// ASCII lower case.
pub open spec fn name_kind(name: Seq<char>) -> Option<MediaKind> {
    match extension_of(encode_utf8(name)) {
        Some(e) => kind_of_extension(lower_bytes(e)),
        None => None,
    }
}

/// The image extensions the viewer documents.
pub open spec fn documented_image_extensions() -> Seq<Seq<char>> {
    seq![
        "png"@,
        "jpg"@,
        "jpeg"@,
        "gif"@,
        "bmp"@,
        "webp"@,
        "tif"@,
        "tiff"@,
        "ico"@,
        "pnm"@,
        "ppm"@,
        "pgm"@,
        "pbm"@,
        "qoi"@,
    ]
}

/// The video extensions the viewer documents.
pub open spec fn documented_video_extensions() -> Seq<Seq<char>> {
    seq![
        "mp4"@,
        "mkv"@,
        "webm"@,
        "mov"@,
        "avi"@,
        "m4v"@,
        "mpg"@,
        "mpeg"@,
        "wmv"@,
        "flv"@,
        "ts"@,
        "mts"@,
        "m2ts"@,
    ]
}

/// `ext` is `lower` written in any ASCII case: each character is the one of
/// `lower`, or the upper-case form of a lower-case letter of it.
pub open spec fn ascii_case_variant(ext: Seq<char>, lower: Seq<char>) -> bool {
    &&& ext.len() == lower.len()
    &&& forall|i: int|
        0 <= i < ext.len() ==> (#[trigger] ext[i] == lower[i] || ('a' <= lower[i] <= 'z'
            && ext[i] as u32 + 32 == lower[i] as u32))
}

/// Lower-case ASCII letters and digits.
pub open spec fn plain_ascii(s: Seq<char>) -> bool {
    forall|i: int|
        0 <= i < s.len() ==> ('a' <= #[trigger] s[i] <= 'z' || '0' <= s[i] <= '9')
}

proof fn lemma_encode_utf8_append(a: Seq<char>, b: Seq<char>)
    ensures
        encode_utf8(a + b) == encode_utf8(a) + encode_utf8(b),
    decreases a.len(),
{
    if a.len() > 0 {
        lemma_encode_utf8_append(a.drop_first(), b);
        assert((a + b).drop_first() =~= a.drop_first() + b);
        assert((a + b)[0] == a[0]);
        assert(encode_utf8(a) + encode_utf8(b) =~= encode_scalar(a[0] as u32) + (encode_utf8(
            a.drop_first(),
        ) + encode_utf8(b)));
    } else {
        assert(a + b =~= b);
        assert(encode_utf8(a) + encode_utf8(b) =~= encode_utf8(b));
    }
}

proof fn lemma_encode_utf8_nonempty(a: Seq<char>)
    requires
        a.len() > 0,
    ensures
        encode_utf8(a).len() > 0,
{
    let c = a[0] as u32;
    assert(encode_scalar(c).len() > 0);
}

proof fn lemma_char_case(e: char, l: char)
    requires
        'a' <= l <= 'z' || '0' <= l <= '9',
        e == l || ('a' <= l <= 'z' && e as u32 + 32 == l as u32),
    ensures
        '\0' <= e <= '\u{7f}',
        e as u8 != 46,
        lower_byte(e as u8) == l as u8,
{
}

proof fn lemma_last_dot_suffix(s: Seq<u8>, t: Seq<u8>)
    requires
        forall|i: int| 0 <= i < t.len() ==> #[trigger] t[i] != 46,
    ensures
        last_dot(s + t) == last_dot(s),
    decreases t.len(),
{
    if t.len() > 0 {
        lemma_last_dot_suffix(s, t.drop_last());
        assert((s + t).drop_last() =~= s + t.drop_last());
        assert((s + t).last() == t.last());
    } else {
        assert(s + t =~= s);
    }
}

/// A file name whose extension is `ext` (after a non-empty stem) has the
/// extension bytes of `ext`, in lower case those of `lower`.
proof fn lemma_name_extension(stem: Seq<char>, ext: Seq<char>, lower: Seq<char>)
    requires
        stem.len() > 0,
        plain_ascii(lower),
        ascii_case_variant(ext, lower),
    ensures
        ({
            let bytes = encode_utf8(stem + seq!['.'] + ext);
            &&& extension_of(bytes) is Some
            &&& lower_bytes(extension_of(bytes).unwrap()) == lower.map_values(|c: char| c as u8)
        }),
{
    broadcast use vstd::utf8::is_ascii_chars_encode_utf8;
    let dot = seq!['.'];
    assert forall|i: int| 0 <= i < ext.len() implies '\0' <= #[trigger] ext[i] <= '\u{7f}'
        && lower_byte(ext[i] as u8) == lower[i] as u8 by {
        lemma_char_case(ext[i], lower[i]);
    }
    assert(vstd::utf8::is_ascii_chars(ext));
    assert(vstd::utf8::is_ascii_chars(dot));
    lemma_encode_utf8_append(stem + dot, ext);
    lemma_encode_utf8_append(stem, dot);
    lemma_encode_utf8_nonempty(stem);
    let b = encode_utf8(stem);
    let x = encode_utf8(ext);
    assert(encode_utf8(dot) =~= seq![46u8]);
    let bytes = encode_utf8(stem + dot + ext);
    assert(bytes == b.push(46u8) + x);
    assert forall|i: int| 0 <= i < x.len() implies #[trigger] x[i] != 46 by {
        assert(x[i] == ext[i] as u8);
        lemma_char_case(ext[i], lower[i]);
    }
    lemma_last_dot_suffix(b.push(46u8), x);
    assert(b.push(46u8).drop_last() =~= b);
    assert(last_dot(b.push(46u8)) == Some(b.len() as int));
    let e = bytes.subrange(b.len() as int + 1, bytes.len() as int);
    assert(e =~= x);
    assert(extension_of(bytes) == Some(e));
    assert forall|i: int| 0 <= i < x.len() implies #[trigger] lower_bytes(x)[i] == lower[i] as u8 by {
        assert(x[i] == ext[i] as u8);
        lemma_char_case(ext[i], lower[i]);
    }
    assert(lower_bytes(x) =~= lower.map_values(|c: char| c as u8));
}

/// Every documented image extension, in any ASCII case, makes a file an image
/// (for example `photo.JPG` or `a.b.WebP`).
pub proof fn lemma_documented_images(stem: Seq<char>, ext: Seq<char>, k: int)
    requires
        stem.len() > 0,
        0 <= k < documented_image_extensions().len(),
        ascii_case_variant(ext, documented_image_extensions()[k]),
    ensures
        name_kind(stem + seq!['.'] + ext) == Some(MediaKind::Image),
        forall|path: Seq<char>|
            #[trigger] path_file_name(path) == Some(stem + seq!['.'] + ext) ==> media_kind(path)
                == Some(MediaKind::Image),
{
    let names = documented_image_extensions();
    reveal_strlit("png");
    reveal_strlit("jpg");
    reveal_strlit("jpeg");
    reveal_strlit("gif");
    reveal_strlit("bmp");
    reveal_strlit("webp");
    reveal_strlit("tif");
    reveal_strlit("tiff");
    reveal_strlit("ico");
    reveal_strlit("pnm");
    reveal_strlit("ppm");
    reveal_strlit("pgm");
    reveal_strlit("pbm");
    reveal_strlit("qoi");
    let lower = names[k];
    assert(plain_ascii(lower));
    lemma_name_extension(stem, ext, lower);
    let e = lower.map_values(|c: char| c as u8);
    assert(is_image_extension(e)) by {
        if k == 0 {
            assert(e =~= seq![112u8, 110, 103]);
        } else if k == 1 {
            assert(e =~= seq![106u8, 112, 103]);
        } else if k == 2 {
            assert(e =~= seq![106u8, 112, 101, 103]);
        } else if k == 3 {
            assert(e =~= seq![103u8, 105, 102]);
        } else if k == 4 {
            assert(e =~= seq![98u8, 109, 112]);
        } else if k == 5 {
            assert(e =~= seq![119u8, 101, 98, 112]);
        } else if k == 6 {
            assert(e =~= seq![116u8, 105, 102]);
        } else if k == 7 {
            assert(e =~= seq![116u8, 105, 102, 102]);
        } else if k == 8 {
            assert(e =~= seq![105u8, 99, 111]);
        } else if k == 9 {
            assert(e =~= seq![112u8, 110, 109]);
        } else if k == 10 {
            assert(e =~= seq![112u8, 112, 109]);
        } else if k == 11 {
            assert(e =~= seq![112u8, 103, 109]);
        } else if k == 12 {
            assert(e =~= seq![112u8, 98, 109]);
        } else {
            assert(e =~= seq![113u8, 111, 105]);
        }
    }
}

/// Every documented video extension, in any ASCII case, makes a file a video
/// (for example `clip.mov` or `CLIP.M2TS`).
pub proof fn lemma_documented_videos(stem: Seq<char>, ext: Seq<char>, k: int)
    requires
        stem.len() > 0,
        0 <= k < documented_video_extensions().len(),
        ascii_case_variant(ext, documented_video_extensions()[k]),
    ensures
        name_kind(stem + seq!['.'] + ext) == Some(MediaKind::Video),
        forall|path: Seq<char>|
            #[trigger] path_file_name(path) == Some(stem + seq!['.'] + ext) ==> media_kind(path)
                == Some(MediaKind::Video),
{
    let names = documented_video_extensions();
    reveal_strlit("mp4");
    reveal_strlit("mkv");
    reveal_strlit("webm");
    reveal_strlit("mov");
    reveal_strlit("avi");
    reveal_strlit("m4v");
    reveal_strlit("mpg");
    reveal_strlit("mpeg");
    reveal_strlit("wmv");
    reveal_strlit("flv");
    reveal_strlit("ts");
    reveal_strlit("mts");
    reveal_strlit("m2ts");
    let lower = names[k];
    assert(plain_ascii(lower));
    lemma_name_extension(stem, ext, lower);
    let e = lower.map_values(|c: char| c as u8);
    assert(!is_image_extension(e) && is_video_extension(e)) by {
        if k == 0 {
            assert(e =~= seq![109u8, 112, 52]);
        } else if k == 1 {
            assert(e =~= seq![109u8, 107, 118]);
        } else if k == 2 {
            assert(e =~= seq![119u8, 101, 98, 109]);
        } else if k == 3 {
            assert(e =~= seq![109u8, 111, 118]);
        } else if k == 4 {
            assert(e =~= seq![97u8, 118, 105]);
        } else if k == 5 {
            assert(e =~= seq![109u8, 52, 118]);
        } else if k == 6 {
            assert(e =~= seq![109u8, 112, 103]);
        } else if k == 7 {
            assert(e =~= seq![109u8, 112, 101, 103]);
        } else if k == 8 {
            assert(e =~= seq![119u8, 109, 118]);
        } else if k == 9 {
            assert(e =~= seq![102u8, 108, 118]);
        } else if k == 10 {
            assert(e =~= seq![116u8, 115]);
        } else if k == 11 {
            assert(e =~= seq![109u8, 116, 115]);
        } else {
            assert(e =~= seq![109u8, 50, 116, 115]);
        }
    }
}

fn classify_extension(e: &[u8]) -> (r: Option<MediaKind>)
    ensures
        r == kind_of_extension(e@),
{
    if bytes_equal(e, &[112u8, 110, 103] /* png */) || bytes_equal(e, &[106u8, 112, 103] /* jpg */) || bytes_equal(
        e,
        &[106u8, 112, 101, 103] /* jpeg */,
    ) || bytes_equal(e, &[103u8, 105, 102] /* gif */) || bytes_equal(e, &[98u8, 109, 112] /* bmp */)
        || bytes_equal(e, &[119u8, 101, 98, 112] /* webp */) || bytes_equal(e, &[116u8, 105, 102] /* tif */)
        || bytes_equal(e, &[116u8, 105, 102, 102] /* tiff */) || bytes_equal(e, &[105u8, 99, 111] /* ico */)
        || bytes_equal(e, &[112u8, 110, 109] /* pnm */) || bytes_equal(e, &[112u8, 112, 109] /* ppm */)
        || bytes_equal(e, &[112u8, 103, 109] /* pgm */) || bytes_equal(e, &[112u8, 98, 109] /* pbm */)
        || bytes_equal(e, &[113u8, 111, 105] /* qoi */) {
        return Some(MediaKind::Image);
    }
    if bytes_equal(e, &[109u8, 112, 52] /* mp4 */) || bytes_equal(e, &[109u8, 107, 118] /* mkv */) || bytes_equal(
        e,
        &[119u8, 101, 98, 109] /* webm */,
    ) || bytes_equal(e, &[109u8, 111, 118] /* mov */) || bytes_equal(e, &[97u8, 118, 105] /* avi */)
        || bytes_equal(e, &[109u8, 52, 118] /* m4v */) || bytes_equal(e, &[109u8, 112, 103] /* mpg */)
        || bytes_equal(e, &[109u8, 112, 101, 103] /* mpeg */) || bytes_equal(e, &[119u8, 109, 118] /* wmv */)
        || bytes_equal(e, &[102u8, 108, 118] /* flv */) || bytes_equal(e, &[116u8, 115] /* ts */)
        || bytes_equal(e, &[109u8, 116, 115] /* mts */) || bytes_equal(e, &[109u8, 50, 116, 115] /* m2ts */) {
        return Some(MediaKind::Video);
    }
    None
}

/// The kind of media that `path` names, by its extension; `None` for files
/// that are not shown.
pub fn kind_for_path(path: &str) -> (r: Option<MediaKind>)
    ensures
        r == media_kind(path@),
{
    match file_name_of(path) {
        Some(name) => kind_for_name(name.as_str()),
        None => None,
    }
}

/// The kind of media that the file name `name` stands for; `None` for files
/// that are not shown.
pub fn kind_for_name(name: &str) -> (r: Option<MediaKind>)
    ensures
        r == name_kind(name@),
{
    let bytes = name.as_bytes();
    let start = match extension_start(bytes) {
        Some(start) => start,
        None => return None,
    };
    let mut ext: Vec<u8> = Vec::new();
    let mut i = start;
    while i < bytes.len()
        invariant
            start <= i <= bytes.len(),
            ext@ =~= bytes@.subrange(start as int, i as int),
        decreases bytes.len() - i,
    {
        ext.push(bytes[i]);
        i += 1;
    }
    let lower = lowercase_bytes(ext.as_slice());
    classify_extension(lower.as_slice())
}


/// The `std::cmp::Ordering` that a name comparison stands for.
pub open spec fn ordering_of(o: NameOrder) -> Ordering {
    match o {
        NameOrder::Less => Ordering::Less,
        NameOrder::Equal => Ordering::Equal,
        NameOrder::Greater => Ordering::Greater,
    }
}

fn to_ordering(o: NameOrder) -> (r: Ordering)
    ensures
        r == ordering_of(o),
{
    match o {
        NameOrder::Less => Ordering::Less,
        NameOrder::Equal => Ordering::Equal,
        NameOrder::Greater => Ordering::Greater,
    }
}

/// Compares two names in natural order: digit runs compare by value, so that
/// `2.png` comes before `10.png`.
pub fn natural_cmp(a: &str, b: &str) -> (r: Ordering)
    ensures
        r == ordering_of(natural_order(encode_utf8(a@), encode_utf8(b@))),
{
    to_ordering(natural_order_bytes(a.as_bytes(), b.as_bytes()))
}

/// The bytes by which a path is sorted: its file name in ASCII lower case
/// (empty when the path has no file name).
pub open spec fn sort_key(path: Seq<char>) -> Seq<u8> {
    match path_file_name(path) {
        Some(name) => lower_bytes(encode_utf8(name)),
        None => lower_bytes(encode_utf8(Seq::empty())),
    }
}

/// Computes `sort_key(path@)`.
pub fn sort_key_of(path: &str) -> (r: Vec<u8>)
    ensures
        r@ == sort_key(path@),
{
    match file_name_of(path) {
        Some(name) => lowercase_bytes(name.as_str().as_bytes()),
        None => {
            let empty = String::new();
            lowercase_bytes(empty.as_str().as_bytes())
        },
    }
}

/// Compares two paths by the natural order of their file names, ignoring
/// ASCII case.
pub fn natural_path_cmp(a: &str, b: &str) -> (r: Ordering)
    ensures
        r == ordering_of(natural_order(sort_key(a@), sort_key(b@))),
{
    let ka = sort_key_of(a);
    let kb = sort_key_of(b);
    to_ordering(natural_order_bytes(ka.as_slice(), kb.as_slice()))
}


/// One file of a folder listing, with the canonical form of its path when the
/// file system could give one.
pub struct ListingEntry {
    pub path: String,
    pub canonical: Option<String>,
}

/// Why a folder listing gives no media set.
#[derive(Debug, Clone, Copy, PartialEq, Eq, Structural)]
pub enum ScanError {
    /// The folder holds no supported image or video.
    NoMedia,
    /// The requested file is not one of the folder's supported media files.
    NotMedia,
}

/// The message that goes with a scan error.
pub open spec fn scan_error_text(e: ScanError) -> Seq<char> {
    match e {
        ScanError::NoMedia => "folder has no supported images or videos"@,
        ScanError::NotMedia => "requested file is not a supported media file"@,
    }
}

impl ScanError {
    /// The message that goes with the error.
    pub fn message(&self) -> (r: &'static str)
        ensures
            r@ == scan_error_text(*self),
    {
        match self {
            ScanError::NoMedia => "folder has no supported images or videos",
            ScanError::NotMedia => "requested file is not a supported media file",
        }
    }
}

/// Two paths name the same file: the same text, or the same canonical form.
pub open spec fn same_entry(a: ListingEntry, b: ListingEntry) -> bool {
    ||| a.path@ == b.path@
    ||| (a.canonical is Some && b.canonical is Some && a.canonical.unwrap()@
        == b.canonical.unwrap()@)
}

/// Whether `a` and `b` name the same file.
pub fn same_path(a: &ListingEntry, b: &ListingEntry) -> (r: bool)
    ensures
        r == same_entry(*a, *b),
{
    if a.path == b.path {
        return true;
    }
    match (&a.canonical, &b.canonical) {
        (Some(ca), Some(cb)) => *ca == *cb,
        _ => false,
    }
}

fn copy_entry(e: &ListingEntry) -> (r: ListingEntry)
    ensures
        r == *e,
{
    let canonical = match &e.canonical {
        Some(c) => Some(c.clone()),
        None => None,
    };
    ListingEntry { path: e.path.clone(), canonical }
}

pub open spec fn entry_key(e: ListingEntry) -> Seq<u8> {
    sort_key(e.path@)
}

/// Inserts `x` into `s` after every element whose name does not come after it.
pub open spec fn insert_by_name(s: Seq<ListingEntry>, x: ListingEntry) -> Seq<ListingEntry>
    decreases s.len(),
{
    if s.len() == 0 {
        seq![x]
    } else if natural_order(entry_key(s.last()), entry_key(x)) == NameOrder::Greater {
        insert_by_name(s.drop_last(), x).push(s.last())
    } else {
        s.push(x)
    }
}

/// The media files of a listing, in stable natural order of their names.
pub open spec fn sorted_media(entries: Seq<ListingEntry>) -> Seq<ListingEntry>
    decreases entries.len(),
{
    if entries.len() == 0 {
        Seq::empty()
    } else {
        let prev = sorted_media(entries.drop_last());
        if media_kind(entries.last().path@) is Some {
            insert_by_name(prev, entries.last())
        } else {
            prev
        }
    }
}

pub open spec fn media_item_of(e: ListingEntry) -> MediaItem {
    MediaItem { path: e.path, kind: media_kind(e.path@).unwrap() }
}

proof fn lemma_insert_at(s: Seq<ListingEntry>, x: ListingEntry, j: int)
    requires
        0 <= j <= s.len(),
        forall|t: int|
            j <= t < s.len() ==> natural_order(entry_key(#[trigger] s[t]), entry_key(x))
                == NameOrder::Greater,
        j > 0 ==> natural_order(entry_key(s[j - 1]), entry_key(x)) != NameOrder::Greater,
    ensures
        insert_by_name(s, x) == s.insert(j, x),
    decreases s.len(),
{
    if s.len() == 0 {
        assert(s.insert(j, x) =~= seq![x]);
    } else if j == s.len() {
        assert(s.insert(j, x) =~= s.push(x));
    } else {
        assert(natural_order(entry_key(s[s.len() - 1]), entry_key(x)) == NameOrder::Greater);
        lemma_insert_at(s.drop_last(), x, j);
        assert(s.insert(j, x) =~= s.drop_last().insert(j, x).push(s.last()));
    }
}

/// The first position in `items` that names the same file as `q`.
fn first_same_path(items: &Vec<ListingEntry>, q: &ListingEntry) -> (r: Option<usize>)
    ensures
        match r {
            Some(k) => k < items.len() && same_entry(items@[k as int], *q) && forall|t: int|
                0 <= t < k ==> !same_entry(#[trigger] items@[t], *q),
            None => forall|t: int| 0 <= t < items.len() ==> !same_entry(#[trigger] items@[t], *q),
        },
{
    let mut k: usize = 0;
    while k < items.len()
        invariant
            k <= items.len(),
            forall|t: int| 0 <= t < k ==> !same_entry(#[trigger] items@[t], *q),
        decreases items.len() - k,
    {
        if same_path(&items[k], q) {
            return Some(k);
        }
        k += 1;
    }
    None
}

/// Sorts the supported media files of a listing and finds the requested one.
pub fn scan_listing(entries: Vec<ListingEntry>, requested: Option<ListingEntry>) -> (r: Result<
    MediaSet,
    ScanError,
>)
    ensures
        ({
            let sorted = sorted_media(entries@);
            match r {
                Err(ScanError::NoMedia) => sorted.len() == 0,
                Err(ScanError::NotMedia) => {
                    &&& sorted.len() > 0
                    &&& requested is Some
                    &&& forall|k: int|
                        0 <= k < sorted.len() ==> !same_entry(
                            #[trigger] sorted[k],
                            requested.unwrap(),
                        )
                },
                Ok(set) => {
                    &&& sorted.len() > 0
                    &&& set.items@ == sorted.map_values(|e: ListingEntry| media_item_of(e))
                    &&& match requested {
                        None => set.index == 0,
                        Some(q) => {
                            &&& set.index < sorted.len()
                            &&& same_entry(sorted[set.index as int], q)
                            &&& forall|k: int|
                                0 <= k < set.index ==> !same_entry(#[trigger] sorted[k], q)
                        },
                    }
                },
            }
        }),
{
    let mut sorted: Vec<ListingEntry> = Vec::new();
    let mut keys: Vec<Vec<u8>> = Vec::new();
    let mut kinds: Vec<MediaKind> = Vec::new();
    let mut i: usize = 0;
    while i < entries.len()
        invariant
            i <= entries.len(),
            sorted@ == sorted_media(entries@.take(i as int)),
            keys.len() == sorted.len(),
            kinds.len() == sorted.len(),
            forall|k: int| 0 <= k < sorted.len() ==> #[trigger] keys@[k]@ == entry_key(sorted@[k]),
            forall|k: int|
                0 <= k < sorted.len() ==> media_kind(sorted@[k].path@) == Some(
                    #[trigger] kinds@[k],
                ),
        decreases entries.len() - i,
    {
        let ghost before = sorted@;
        assert(entries@.take(i + 1).drop_last() =~= entries@.take(i as int));
        assert(entries@.take(i + 1).last() == entries@[i as int]);
        match kind_for_path(entries[i].path.as_str()) {
            Some(kind) => {
                let key = sort_key_of(entries[i].path.as_str());
                let mut j = sorted.len();
                while j > 0 && natural_order_bytes(keys[j - 1].as_slice(), key.as_slice())
                    == NameOrder::Greater
                    invariant
                        j <= sorted.len(),
                        sorted@ == before,
                        keys.len() == sorted.len(),
                        forall|k: int|
                            0 <= k < sorted.len() ==> #[trigger] keys@[k]@ == entry_key(
                                sorted@[k],
                            ),
                        key@ == entry_key(entries@[i as int]),
                        forall|t: int|
                            j <= t < sorted.len() ==> natural_order(
                                entry_key(#[trigger] sorted@[t]),
                                entry_key(entries@[i as int]),
                            ) == NameOrder::Greater,
                    decreases j,
                {
                    j -= 1;
                }
                proof {
                    lemma_insert_at(before, entries@[i as int], j as int);
                }
                let entry = copy_entry(&entries[i]);
                sorted.insert(j, entry);
                keys.insert(j, key);
                kinds.insert(j, kind);
                assert forall|k: int| 0 <= k < sorted.len() implies #[trigger] keys@[k]@
                    == entry_key(sorted@[k]) by {
                    if k < j {
                    } else if k == j {
                    } else {
                        assert(sorted@[k] == before[k - 1]);
                    }
                }
                assert forall|k: int| 0 <= k < sorted.len() implies media_kind(sorted@[k].path@)
                    == Some(#[trigger] kinds@[k]) by {
                    if k < j {
                    } else if k == j {
                    } else {
                        assert(sorted@[k] == before[k - 1]);
                    }
                }
            },
            None => {},
        }
        i += 1;
    }
    assert(entries@.take(entries.len() as int) =~= entries@);
    if sorted.len() == 0 {
        return Err(ScanError::NoMedia);
    }
    let index = match &requested {
        None => 0,
        Some(q) => match first_same_path(&sorted, q) {
            Some(position) => position,
            None => return Err(ScanError::NotMedia),
        },
    };
    let mut items: Vec<MediaItem> = Vec::new();
    let mut k: usize = 0;
    while k < sorted.len()
        invariant
            k <= sorted.len(),
            kinds.len() == sorted.len(),
            forall|t: int|
                0 <= t < sorted.len() ==> media_kind(sorted@[t].path@) == Some(
                    #[trigger] kinds@[t],
                ),
            items@ =~= sorted@.take(k as int).map_values(|e: ListingEntry| media_item_of(e)),
        decreases sorted.len() - k,
    {
        items.push(MediaItem { path: sorted[k].path.clone(), kind: kinds[k] });
        assert(sorted@.take(k + 1).map_values(|e: ListingEntry| media_item_of(e)) =~= sorted@.take(
            k as int,
        ).map_values(|e: ListingEntry| media_item_of(e)).push(media_item_of(sorted@[k as int])));
        k += 1;
    }
    assert(sorted@.take(sorted.len() as int) =~= sorted@);
    Ok(MediaSet { items, index })
}


/// The name of `a` does not come after the name of `b`.
pub open spec fn name_leq(a: ListingEntry, b: ListingEntry) -> bool {
    natural_order(entry_key(a), entry_key(b)) != NameOrder::Greater
}

pub open spec fn names_ordered(s: Seq<ListingEntry>) -> bool {
    forall|i: int, j: int| 0 <= i < j < s.len() ==> name_leq(#[trigger] s[i], #[trigger] s[j])
}

pub open spec fn is_media_entry(e: ListingEntry) -> bool {
    media_kind(e.path@) is Some
}

proof fn lemma_name_leq_transitive(a: ListingEntry, b: ListingEntry, c: ListingEntry)
    requires
        name_leq(a, b),
        name_leq(b, c),
    ensures
        name_leq(a, c),
{
    lemma_natural_order_equal(entry_key(a), entry_key(b));
    lemma_natural_order_equal(entry_key(b), entry_key(c));
    if natural_order(entry_key(a), entry_key(b)) == NameOrder::Less && natural_order(
        entry_key(b),
        entry_key(c),
    ) == NameOrder::Less {
        lemma_natural_order_transitive(entry_key(a), entry_key(b), entry_key(c));
    }
}

proof fn lemma_insert_bound(s: Seq<ListingEntry>, x: ListingEntry, y: ListingEntry)
    requires
        forall|i: int| 0 <= i < s.len() ==> name_leq(#[trigger] s[i], y),
        name_leq(x, y),
    ensures
        forall|i: int|
            0 <= i < insert_by_name(s, x).len() ==> name_leq(#[trigger] insert_by_name(s, x)[i], y),
    decreases s.len(),
{
    if s.len() == 0 {
        assert(insert_by_name(s, x) =~= seq![x]);
    } else if natural_order(entry_key(s.last()), entry_key(x)) == NameOrder::Greater {
        let p = s.drop_last();
        lemma_insert_bound(p, x, y);
        let q = insert_by_name(p, x);
        assert(name_leq(s[s.len() - 1], y));
        assert forall|i: int| 0 <= i < q.push(s.last()).len() implies name_leq(
            #[trigger] q.push(s.last())[i],
            y,
        ) by {
            if i < q.len() {
                assert(q.push(s.last())[i] == q[i]);
            }
        }
    } else {
        assert forall|i: int| 0 <= i < s.push(x).len() implies name_leq(#[trigger] s.push(x)[i], y) by {
            if i < s.len() {
                assert(s.push(x)[i] == s[i]);
            }
        }
    }
}

proof fn lemma_insert_ordered(s: Seq<ListingEntry>, x: ListingEntry)
    requires
        names_ordered(s),
    ensures
        names_ordered(insert_by_name(s, x)),
        insert_by_name(s, x).to_multiset() == s.to_multiset().insert(x),
    decreases s.len(),
{
    broadcast use vstd::seq_lib::group_to_multiset_ensures;

    if s.len() == 0 {
        assert(seq![x] =~= Seq::<ListingEntry>::empty().push(x));
    } else if natural_order(entry_key(s.last()), entry_key(x)) == NameOrder::Greater {
        let p = s.drop_last();
        lemma_insert_ordered(p, x);
        lemma_natural_order_antisymmetric(entry_key(s.last()), entry_key(x));
        lemma_insert_bound(p, x, s.last());
        assert(s =~= p.push(s.last()));
    } else {
        assert forall|i: int, j: int| 0 <= i < j < s.push(x).len() implies name_leq(
            #[trigger] s.push(x)[i],
            #[trigger] s.push(x)[j],
        ) by {
            if j == s.len() {
                if i < s.len() - 1 {
                    lemma_name_leq_transitive(s[i], s.last(), x);
                }
            }
        }
    }
}

/// The media set of a folder lists exactly its media files, each once, in
/// natural order of their names.
pub proof fn lemma_sorted_media(entries: Seq<ListingEntry>)
    ensures
        names_ordered(sorted_media(entries)),
        sorted_media(entries).to_multiset() == entries.filter(
            |e: ListingEntry| is_media_entry(e),
        ).to_multiset(),
    decreases entries.len(),
{
    reveal(Seq::filter);
    if entries.len() > 0 {
        lemma_sorted_media(entries.drop_last());
        if is_media_entry(entries.last()) {
            lemma_insert_ordered(sorted_media(entries.drop_last()), entries.last());
        }
        broadcast use vstd::seq_lib::group_to_multiset_ensures;
    } else {
        broadcast use vstd::seq_lib::group_to_multiset_ensures;
        assert(entries.filter(|e: ListingEntry| is_media_entry(e)) =~= Seq::<ListingEntry>::empty());
    }
}


/// The path of item `i` as a one-element sequence when it exists and is an
/// image; empty otherwise.
pub open spec fn image_at(items: Seq<MediaItem>, i: int) -> Seq<String> {
    if 0 <= i < items.len() && items[i].kind == MediaKind::Image {
        seq![items[i].path]
    } else {
        Seq::empty()
    }
}

/// The image paths within `distance` of `index`: the current one first, then
/// for each step outwards the one after and the one before.
pub open spec fn neighbour_images(items: Seq<MediaItem>, index: int, distance: int) -> Seq<String>
    decreases distance,
{
    if distance <= 0 {
        image_at(items, index)
    } else {
        neighbour_images(items, index, distance - 1) + image_at(items, index + distance)
            + image_at(items, index - distance)
    }
}

fn push_image_at(out: &mut Vec<String>, items: &[MediaItem], i: usize)
    ensures
        final(out)@ == old(out)@ + image_at(items@, i as int),
{
    if i < items.len() && items[i].kind == MediaKind::Image {
        out.push(items[i].path.clone());
        assert(final(out)@ =~= old(out)@ + image_at(items@, i as int)) by {
        }
    } else {
        assert(old(out)@ + image_at(items@, i as int) =~= old(out)@);
    }
}

/// The images to decode ahead of time, nearest first.
pub fn preload_order(items: &[MediaItem], index: usize, distance: usize) -> (r: Vec<String>)
    ensures
        r@ == neighbour_images(items@, index as int, distance as int),
{
    let mut out: Vec<String> = Vec::new();
    push_image_at(&mut out, items, index);
    let mut delta: usize = 0;
    while delta < distance
        invariant
            delta <= distance,
            out@ == neighbour_images(items@, index as int, delta as int),
        decreases distance - delta,
    {
        delta += 1;
        if index <= usize::MAX - delta {
            push_image_at(&mut out, items, index + delta);
        } else {
            assert(items@.len() == items.len());
            assert(image_at(items@, index + delta) =~= Seq::<String>::empty());
            assert(out@ + image_at(items@, index + delta) =~= out@);
        }
        if delta <= index {
            push_image_at(&mut out, items, index - delta);
        } else {
            assert(out@ + image_at(items@, index - delta) =~= out@);
        }
    }
    out
}

/// The images the cache may keep, nearest first (the same neighbourhood as
/// the preload set, with the cache radius as distance).
pub fn keep_order(items: &[MediaItem], index: usize, radius: usize) -> (r: Vec<String>)
    ensures
        r@ == neighbour_images(items@, index as int, radius as int),
{
    preload_order(items, index, radius)
}

/// The neighbourhood is bounded: at most `2 * distance + 1` paths, each of an
/// image no farther than `distance` from `index`, and the current item's path
/// first when it is an image.
pub proof fn lemma_neighbour_images_bounded(items: Seq<MediaItem>, index: int, distance: int)
    requires
        distance >= 0,
    ensures
        neighbour_images(items, index, distance).len() <= 2 * distance + 1,
        forall|k: int|
            #![trigger neighbour_images(items, index, distance)[k]]
            0 <= k < neighbour_images(items, index, distance).len() ==> exists|i: int|
                #![trigger items[i]]
                0 <= i < items.len() && index - distance <= i <= index + distance
                    && items[i].kind == MediaKind::Image && items[i].path
                    == neighbour_images(items, index, distance)[k],
        0 <= index < items.len() && items[index].kind == MediaKind::Image ==> neighbour_images(
            items,
            index,
            distance,
        ).len() >= 1 && neighbour_images(items, index, distance)[0] == items[index].path,
    decreases distance,
{
    if distance > 0 {
        lemma_neighbour_images_bounded(items, index, distance - 1);
        let prev = neighbour_images(items, index, distance - 1);
        let right = image_at(items, index + distance);
        let left = image_at(items, index - distance);
        let all = neighbour_images(items, index, distance);
        assert(all == prev + right + left);
        assert forall|k: int| #![trigger all[k]] 0 <= k < all.len() implies exists|i: int|
            #![trigger items[i]]
            0 <= i < items.len() && index - distance <= i <= index + distance && items[i].kind
                == MediaKind::Image && items[i].path == all[k] by {
            if k < prev.len() {
                assert(all[k] == prev[k]);
                let i = choose|i: int|
                    #![trigger items[i]]
                    0 <= i < items.len() && index - (distance - 1) <= i <= index + (distance - 1)
                        && items[i].kind == MediaKind::Image && items[i].path == prev[k];
                assert(items[i].path == all[k]);
            } else if k < prev.len() + right.len() {
                assert(all[k] == right[k - prev.len()]);
                assert(items[index + distance].path == all[k]);
            } else {
                assert(all[k] == left[k - prev.len() - right.len()]);
                assert(items[index - distance].path == all[k]);
            }
        }
        if 0 <= index < items.len() && items[index].kind == MediaKind::Image {
            assert(all[0] == prev[0]);
        }
    }
}

} // verus!
