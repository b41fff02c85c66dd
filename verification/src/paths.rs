//! What the library needs to know of paths: file names, extensions and the
//! byte-level helpers that work on them.
use vstd::prelude::*;

verus! {

/// The final component of `path`, as `std::path::Path::file_name` finds it.
pub uninterp spec fn path_file_name(path: Seq<char>) -> Option<Seq<char>>;

/// Calls `std::path::Path::file_name` on `path`. The contract claims only that
/// the outcome is a function of the path's text (named `path_file_name`); the
/// component is converted to a `String`, which is lossless because it is a
/// piece of a `&str`.
#[verifier::external_body]
pub(crate) fn file_name_of(path: &str) -> (r: Option<String>)
    ensures
        match r {
            Some(name) => path_file_name(path@) == Some(name@),
            None => path_file_name(path@) is None,
        },
{
    std::path::Path::new(path).file_name().map(|name| name.to_string_lossy().into_owned())
}

/// ASCII lower case of one byte.
pub open spec fn lower_byte(b: u8) -> u8 {
    if 65 <= b && b <= 90 {
        (b + 32) as u8
    } else {
        b
    }
}

/// ASCII lower case of a byte string (other bytes are kept).
pub open spec fn lower_bytes(s: Seq<u8>) -> Seq<u8> {
    s.map_values(|b: u8| lower_byte(b))
}

/// A copy of `s` in ASCII lower case.
pub fn lowercase_bytes(s: &[u8]) -> (r: Vec<u8>)
    ensures
        r@ == lower_bytes(s@),
{
    let mut out: Vec<u8> = Vec::new();
    let mut i: usize = 0;
    while i < s.len()
        invariant
            i <= s.len(),
            out@ =~= lower_bytes(s@.take(i as int)),
        decreases s.len() - i,
    {
        let b = s[i];
        let l = if 65 <= b && b <= 90 {
            b + 32
        } else {
            b
        };
        out.push(l);
        assert(lower_bytes(s@.take(i + 1)) =~= lower_bytes(s@.take(i as int)).push(lower_byte(b)));
        i += 1;
    }
    assert(s@.take(s.len() as int) =~= s@);
    out
}

/// Whether two byte strings are the same.
pub fn bytes_equal(a: &[u8], b: &[u8]) -> (r: bool)
    ensures
        r == (a@ == b@),
{
    if a.len() != b.len() {
        return false;
    }
    let mut i: usize = 0;
    while i < a.len()
        invariant
            i <= a.len(),
            a.len() == b.len(),
            forall|k: int| 0 <= k < i ==> a@[k] == b@[k],
        decreases a.len() - i,
    {
        if a[i] != b[i] {
            return false;
        }
        i += 1;
    }
    assert(a@ =~= b@);
    true
}

/// Position of the last `.` in `name`, if any.
pub open spec fn last_dot(name: Seq<u8>) -> Option<int>
    decreases name.len(),
{
    if name.len() == 0 {
        None
    } else if name.last() == 46 {
        Some(name.len() - 1)
    } else {
        last_dot(name.drop_last())
    }
}

/// The extension of a file name as `std::path::Path::extension` documents it:
/// the part after the last `.`, and none when there is no `.` or the only one
/// leads the name.
pub open spec fn extension_of(name: Seq<u8>) -> Option<Seq<u8>> {
    match last_dot(name) {
        Some(d) => if d == 0 {
            None
        } else {
            Some(name.subrange(d + 1, name.len() as int))
        },
        None => None,
    }
}

/// The extension of the file name `name` (given as bytes), as start index.
pub fn extension_start(name: &[u8]) -> (r: Option<usize>)
    ensures
        match r {
            Some(start) => start <= name.len() && extension_of(name@) == Some(
                name@.subrange(start as int, name@.len() as int),
            ),
            None => extension_of(name@) is None,
        },
{
    let mut i = name.len();
    assert(name@.take(name.len() as int) =~= name@);
    while i > 0 && name[i - 1] != 46
        invariant
            i <= name.len(),
            last_dot(name@) == last_dot(name@.take(i as int)),
        decreases i,
    {
        assert(name@.take(i as int).drop_last() =~= name@.take(i - 1));
        i -= 1;
    }
    if i == 0 {
        assert(name@.take(0) =~= Seq::<u8>::empty());
        None
    } else {
        assert(last_dot(name@.take(i as int)) == Some(i - 1));
        if i == 1 {
            None
        } else {
            Some(i)
        }
    }
}

} // verus!
