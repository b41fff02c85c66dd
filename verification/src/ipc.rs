//! The single-instance protocol. A second instance sends the primary one a
//! request: the magic `BLV1`, the payload length as a big-endian `u32`, then
//! the payload (the path to open, as UTF-8, or as UTF-16 in little-endian
//! byte pairs where paths are UTF-16, as on Windows; empty to only check that a
//! viewer is there). The primary answers `OKAY`. Payloads over 1 MiB are refused.
use vstd::prelude::*;
use vstd::utf8::{encode_utf8, decode_utf8, valid_utf8, encode_utf8_decode_utf8, encode_utf8_valid_utf8};

verus! {

/// What a process that holds the port can be.
#[derive(Debug, Clone, Copy, PartialEq, Eq, Structural)]
pub enum InstanceRole {
    Primary,
    Forwarded,
}

/// What trying to listen on the instance port came to.
#[derive(Debug, Clone, Copy, PartialEq, Eq, Structural)]
pub enum BindOutcome {
    /// The port is ours: this process is the primary instance.
    Bound,
    /// Another process holds the port.
    InUse,
    /// Listening failed for another reason.
    Failed,
}

/// The role a process takes after trying to listen: the primary instance
/// when it got the port, a forwarder to the primary one when the port is in
/// use, and none (the error is reported) otherwise.
pub fn instance_role(bind: BindOutcome) -> (r: Option<InstanceRole>)
    ensures
        bind == BindOutcome::Bound ==> r == Some(InstanceRole::Primary),
        bind == BindOutcome::InUse ==> r == Some(InstanceRole::Forwarded),
        bind == BindOutcome::Failed ==> r is None,
{
    match bind {
        BindOutcome::Bound => Some(InstanceRole::Primary),
        BindOutcome::InUse => Some(InstanceRole::Forwarded),
        BindOutcome::Failed => None,
    }
}

/// The largest payload the primary instance accepts.
pub const MAX_PAYLOAD: usize = 1048576;

pub open spec fn magic() -> Seq<u8> {
    seq![66u8, 76, 86, 49]  // "BLV1"

}

pub open spec fn ack() -> Seq<u8> {
    seq![79u8, 75, 65, 89]  // "OKAY"

}

/// Big-endian bytes of a 32-bit length.
pub open spec fn be32(n: nat) -> Seq<u8> {
    seq![
        (n / 16777216 % 256) as u8,
        (n / 65536 % 256) as u8,
        (n / 256 % 256) as u8,
        (n % 256) as u8,
    ]
}

/// The number that four big-endian bytes stand for.
pub open spec fn from_be32(b: Seq<u8>) -> nat {
    (b[0] * 16777216 + b[1] * 65536 + b[2] * 256 + b[3]) as nat
}

/// The bytes of a request carrying `payload`.
pub open spec fn request_frame(payload: Seq<u8>) -> Seq<u8> {
    magic() + be32(payload.len()) + payload
}

/// The payload length announced by an 8-byte request header, when the magic
/// is right and the length is acceptable.
pub open spec fn header_length(header: Seq<u8>) -> Option<nat> {
    if header.len() == 8 && header.take(4) == magic() && from_be32(header.skip(4))
        <= MAX_PAYLOAD {
        Some(from_be32(header.skip(4)))
    } else {
        None
    }
}

/// The text that `String::from_utf8_lossy` makes of `bytes`.
pub uninterp spec fn lossy_utf8(bytes: Seq<u8>) -> Seq<char>;

/// Calls `String::from_utf8_lossy`. Claims that the text is a function of the
/// bytes (named `lossy_utf8`), and, as its documentation says, that valid
/// UTF-8 is decoded as is. What replaces invalid sequences is left unsaid.
#[verifier::external_body]
fn text_from_utf8_lossy(bytes: &[u8]) -> (r: String)
    ensures
        r@ == lossy_utf8(bytes@),
        valid_utf8(bytes@) ==> r@ == decode_utf8(bytes@),
{
    String::from_utf8_lossy(bytes).into_owned()
}

/// The bytes sent for a path.
pub fn encode_path(path: &str) -> (r: Vec<u8>)
    ensures
        r@ == encode_utf8(path@),
{
    path.as_bytes_vec()
}

/// The path that received bytes name.
pub fn decode_path(bytes: Vec<u8>) -> (r: String)
    ensures
        r@ == lossy_utf8(bytes@),
        valid_utf8(bytes@) ==> r@ == decode_utf8(bytes@),
{
    text_from_utf8_lossy(bytes.as_slice())
}

/// The request that carries `payload`; `None` when its length does not fit
/// the 32-bit length field.
pub fn encode_request(payload: &[u8]) -> (r: Option<Vec<u8>>)
    ensures
        payload.len() > u32::MAX ==> r is None,
        payload.len() <= u32::MAX ==> r is Some && r.unwrap()@ == request_frame(payload@),
{
    if payload.len() > 0xFFFF_FFFF {
        return None;
    }
    let n = payload.len();
    let mut out: Vec<u8> = Vec::new();
    out.push(66);
    out.push(76);
    out.push(86);
    out.push(49);
    out.push((n / 16777216 % 256) as u8);
    out.push((n / 65536 % 256) as u8);
    out.push((n / 256 % 256) as u8);
    out.push((n % 256) as u8);
    let mut i: usize = 0;
    while i < payload.len()
        invariant
            i <= payload.len(),
            out@ =~= magic() + be32(payload@.len()) + payload@.take(i as int),
        decreases payload.len() - i,
    {
        out.push(payload[i]);
        assert(payload@.take(i + 1) =~= payload@.take(i as int).push(payload@[i as int]));
        i += 1;
    }
    assert(payload@.take(payload.len() as int) =~= payload@);
    Some(out)
}

/// The payload length announced by a request header (8 bytes), if the
/// request is to be read.
pub fn request_length(header: &[u8]) -> (r: Option<usize>)
    ensures
        match header_length(header@) {
            Some(n) => r == Some(n as usize),
            None => r is None,
        },
{
    if header.len() != 8 {
        return None;
    }
    if !(header[0] == 66 && header[1] == 76 && header[2] == 86 && header[3] == 49) {
        assert(header@.take(4)[0] == header@[0]);
        assert(header@.take(4)[1] == header@[1]);
        assert(header@.take(4)[2] == header@[2]);
        assert(header@.take(4)[3] == header@[3]);
        return None;
    }
    assert(header@.take(4) =~= magic());
    let len = (header[4] as usize) * 16777216 + (header[5] as usize) * 65536 + (header[6] as usize)
        * 256 + (header[7] as usize);
    assert(header@.skip(4)[0] == header@[4]);
    assert(header@.skip(4)[1] == header@[5]);
    assert(header@.skip(4)[2] == header@[6]);
    assert(header@.skip(4)[3] == header@[7]);
    if len > MAX_PAYLOAD {
        return None;
    }
    Some(len)
}

/// The primary instance's answer to a request it accepted.
pub fn acknowledgement() -> (r: Vec<u8>)
    ensures
        r@ == ack(),
{
    let r: Vec<u8> = vec![79, 75, 65, 89];
    assert(r@ =~= ack());
    r
}

/// Whether the answer to a request is the primary instance's acknowledgement.
pub fn is_ack(answer: &[u8]) -> (r: bool)
    ensures
        r == (answer@ == ack()),
{
    let ok = answer.len() == 4 && answer[0] == 79 && answer[1] == 75 && answer[2] == 65
        && answer[3] == 89;
    if ok {
        assert(answer@ =~= ack());
    }
    ok
}

/// The path a received payload asks to open; an empty payload asks for none.
pub fn requested_path(payload: Vec<u8>) -> (r: Option<String>)
    ensures
        payload@.len() == 0 ==> r is None,
        payload@.len() > 0 ==> r is Some && r.unwrap()@ == lossy_utf8(payload@) && (valid_utf8(
            payload@,
        ) ==> r.unwrap()@ == decode_utf8(payload@)),
{
    if payload.len() == 0 {
        None
    } else {
        Some(decode_path(payload))
    }
}

// ---------------------------------------------------------------------------
// Paths as UTF-16 (the form Windows gives them), two little-endian bytes per
// unit.

/// The UTF-16 units of one character.
pub open spec fn utf16_of_char(c: char) -> Seq<u16> {
    let v = c as u32;
    if v < 0x10000 {
        seq![v as u16]
    } else {
        let w = v - 0x10000;
        seq![(0xD800 + w / 1024) as u16, (0xDC00 + w % 1024) as u16]
    }
}

/// The UTF-16 units of a text.
pub open spec fn utf16_units(s: Seq<char>) -> Seq<u16>
    decreases s.len(),
{
    if s.len() == 0 {
        Seq::empty()
    } else {
        utf16_units(s.drop_last()) + utf16_of_char(s.last())
    }
}

/// Units as little-endian byte pairs.
pub open spec fn le_bytes(units: Seq<u16>) -> Seq<u8>
    decreases units.len(),
{
    if units.len() == 0 {
        Seq::empty()
    } else {
        le_bytes(units.drop_last()) + seq![
            (units.last() % 256) as u8,
            (units.last() / 256) as u8,
        ]
    }
}

/// Little-endian byte pairs as units; a trailing odd byte is ignored.
pub open spec fn le_units(bytes: Seq<u8>) -> Seq<u16> {
    Seq::new(bytes.len() / 2, |i: int| (bytes[2 * i] + 256 * bytes[2 * i + 1]) as u16)
}

/// The text that `String::from_utf16_lossy` makes of `units`.
pub uninterp spec fn lossy_utf16(units: Seq<u16>) -> Seq<char>;

/// Calls `String::from_utf16_lossy`. Claims that the text is a function of
/// the units (named `lossy_utf16`) and, as its documentation says, that
/// valid UTF-16 is decoded as is: units that encode a text give that text.
/// What replaces unpaired surrogates is left unsaid.
#[verifier::external_body]
fn text_from_utf16_lossy(units: &[u16]) -> (r: String)
    ensures
        r@ == lossy_utf16(units@),
        forall|s: Seq<char>| #[trigger] utf16_units(s) == units@ ==> r@ == s,
{
    String::from_utf16_lossy(units)
}

fn push_unit(out: &mut Vec<u8>, u: u16)
    ensures
        final(out)@ == old(out)@ + seq![(u % 256) as u8, (u / 256) as u8],
{
    out.push((u % 256) as u8);
    out.push((u / 256) as u8);
    assert(final(out)@ =~= old(out)@ + seq![(u % 256) as u8, (u / 256) as u8]);
}

proof fn lemma_le_bytes_unit(u: u16)
    ensures
        le_bytes(seq![u]) == seq![(u % 256) as u8, (u / 256) as u8],
{
    assert(seq![u].drop_last() =~= Seq::<u16>::empty());
    assert(le_bytes(Seq::<u16>::empty()) == Seq::<u8>::empty());
    assert(seq![u].last() == u);
    assert(le_bytes(seq![u]) =~= seq![(u % 256) as u8, (u / 256) as u8]);
}

proof fn lemma_le_bytes_append(a: Seq<u16>, b: Seq<u16>)
    ensures
        le_bytes(a + b) == le_bytes(a) + le_bytes(b),
    decreases b.len(),
{
    if b.len() == 0 {
        assert(a + b =~= a);
        assert(le_bytes(a) + le_bytes(b) =~= le_bytes(a));
    } else {
        lemma_le_bytes_append(a, b.drop_last());
        assert((a + b).drop_last() =~= a + b.drop_last());
        assert((a + b).last() == b.last());
        assert(le_bytes(a) + le_bytes(b) =~= le_bytes(a) + le_bytes(b.drop_last()) + seq![
            (b.last() % 256) as u8,
            (b.last() / 256) as u8,
        ]);
    }
}

/// The bytes sent for a path where paths are UTF-16: its units, each as
/// two little-endian bytes.
pub fn encode_path_wide(path: &str) -> (r: Vec<u8>)
    ensures
        r@ == le_bytes(utf16_units(path@)),
{
    let n = path.unicode_len();
    let mut out: Vec<u8> = Vec::new();
    let mut i: usize = 0;
    while i < n
        invariant
            i <= n,
            n == path@.len(),
            out@ == le_bytes(utf16_units(path@.take(i as int))),
        decreases n - i,
    {
        let c = path.get_char(i);
        let v = c as u32;
        let ghost before = path@.take(i as int);
        assert(path@.take(i + 1).drop_last() =~= before);
        assert(path@.take(i + 1).last() == c);
        if v < 0x10000 {
            push_unit(&mut out, v as u16);
            proof {
                lemma_le_bytes_append(utf16_units(before), utf16_of_char(c));
                assert(utf16_of_char(c) == seq![v as u16]);
                lemma_le_bytes_unit(v as u16);
            }
        } else {
            let w = v - 0x10000;
            let hi = (0xD800 + w / 1024) as u16;
            let lo = (0xDC00 + w % 1024) as u16;
            push_unit(&mut out, hi);
            push_unit(&mut out, lo);
            proof {
                lemma_le_bytes_append(utf16_units(before), utf16_of_char(c));
                assert(utf16_of_char(c) == seq![hi, lo]);
                assert(seq![hi, lo] =~= seq![hi] + seq![lo]);
                lemma_le_bytes_append(seq![hi], seq![lo]);
                lemma_le_bytes_unit(hi);
                lemma_le_bytes_unit(lo);
                assert(le_bytes(seq![hi, lo]) =~= seq![
                    (hi % 256) as u8,
                    (hi / 256) as u8,
                    (lo % 256) as u8,
                    (lo / 256) as u8,
                ]);
            }
        }
        i += 1;
    }
    assert(path@.take(n as int) =~= path@);
    out
}

/// The units of little-endian byte pairs (a trailing odd byte is dropped).
fn units_of(bytes: &[u8]) -> (r: Vec<u16>)
    ensures
        r@ == le_units(bytes@),
{
    let n = bytes.len() / 2;
    let mut out: Vec<u16> = Vec::new();
    let mut k: usize = 0;
    while k < n
        invariant
            k <= n,
            n == bytes.len() / 2,
            out@ =~= le_units(bytes@).take(k as int),
        decreases n - k,
    {
        let u = bytes[2 * k] as u16 + 256 * (bytes[2 * k + 1] as u16);
        out.push(u);
        k += 1;
    }
    out
}

/// The path that received bytes name where paths are UTF-16.
pub fn decode_path_wide(bytes: Vec<u8>) -> (r: String)
    ensures
        r@ == lossy_utf16(le_units(bytes@)),
        forall|s: Seq<char>| #[trigger] utf16_units(s) == le_units(bytes@) ==> r@ == s,
{
    let units = units_of(bytes.as_slice());
    text_from_utf16_lossy(units.as_slice())
}

/// The path a received payload asks to open where paths are UTF-16; an empty
/// payload asks for none.
pub fn requested_path_wide(payload: Vec<u8>) -> (r: Option<String>)
    ensures
        payload@.len() == 0 ==> r is None,
        payload@.len() > 0 ==> r is Some && r.unwrap()@ == lossy_utf16(le_units(payload@)) && (
        forall|s: Seq<char>| #[trigger] utf16_units(s) == le_units(payload@) ==> r.unwrap()@ == s),
{
    if payload.len() == 0 {
        None
    } else {
        Some(decode_path_wide(payload))
    }
}

proof fn lemma_le_round_trip(units: Seq<u16>)
    ensures
        le_units(le_bytes(units)) == units,
    decreases units.len(),
{
    if units.len() > 0 {
        let d = units.drop_last();
        lemma_le_round_trip(d);
        let u = units.last();
        let b = le_bytes(units);
        assert(b.len() == le_bytes(d).len() + 2);
        lemma_le_bytes_len(d);
        assert forall|i: int| 0 <= i < units.len() implies #[trigger] le_units(b)[i] == units[i] by {
            if i < d.len() {
                assert(b[2 * i] == le_bytes(d)[2 * i]);
                assert(b[2 * i + 1] == le_bytes(d)[2 * i + 1]);
                assert(le_units(le_bytes(d))[i] == d[i]);
            } else {
                assert(b[2 * i] == (u % 256) as u8);
                assert(b[2 * i + 1] == (u / 256) as u8);
                assert((u % 256) + 256 * (u / 256) == u);
            }
        }
        assert(le_units(b) =~= units);
    }
}

proof fn lemma_le_bytes_len(units: Seq<u16>)
    ensures
        le_bytes(units).len() == 2 * units.len(),
    decreases units.len(),
{
    if units.len() > 0 {
        lemma_le_bytes_len(units.drop_last());
    }
}

/// The round trip where paths are UTF-16: the request a second instance sends
/// for a path (of at most 1 MiB as UTF-16) is accepted by the primary
/// instance, whose payload holds exactly the path's units.
pub proof fn lemma_wide_request_round_trip(path: Seq<char>)
    requires
        le_bytes(utf16_units(path)).len() <= MAX_PAYLOAD,
    ensures
        ({
            let payload = le_bytes(utf16_units(path));
            let frame = request_frame(payload);
            &&& header_length(frame.take(8)) == Some(payload.len())
            &&& frame.skip(8) == payload
            &&& le_units(frame.skip(8)) == utf16_units(path)
        }),
{
    let payload = le_bytes(utf16_units(path));
    let frame = request_frame(payload);
    lemma_be32_round_trip(payload.len());
    assert(frame.take(8).take(4) =~= magic());
    assert(frame.take(8).skip(4) =~= be32(payload.len()));
    assert(frame.skip(8) =~= payload);
    lemma_le_round_trip(utf16_units(path));
}

proof fn lemma_be32_round_trip(n: nat)
    requires
        n <= u32::MAX,
    ensures
        from_be32(be32(n)) == n,
{
    let b = be32(n);
    assert(b[0] == n / 16777216 % 256);
    assert(b[1] == n / 65536 % 256);
    assert(b[2] == n / 256 % 256);
    assert(b[3] == n % 256);
    assert((n / 16777216 % 256) * 16777216 + (n / 65536 % 256) * 65536 + (n / 256 % 256) * 256
        + n % 256 == n) by (nonlinear_arith)
        requires
            n <= 4294967295,
    {
        vstd::arithmetic::div_mod::lemma_fundamental_div_mod(n as int, 256);
        vstd::arithmetic::div_mod::lemma_fundamental_div_mod(n as int, 65536);
        vstd::arithmetic::div_mod::lemma_fundamental_div_mod(n as int, 16777216);
    }
}

/// The protocol's round trip: the request a second instance sends for a path
/// (of at most 1 MiB as UTF-8) is accepted by the primary instance, which reads
/// back the very path.
pub proof fn lemma_request_round_trip(path: Seq<char>)
    requires
        encode_utf8(path).len() <= MAX_PAYLOAD,
    ensures
        ({
            let payload = encode_utf8(path);
            let frame = request_frame(payload);
            &&& header_length(frame.take(8)) == Some(payload.len())
            &&& frame.skip(8) == payload
            &&& valid_utf8(frame.skip(8))
            &&& decode_utf8(frame.skip(8)) == path
        }),
{
    let payload = encode_utf8(path);
    let frame = request_frame(payload);
    lemma_be32_round_trip(payload.len());
    assert(frame.take(8).take(4) =~= magic());
    assert(frame.take(8).skip(4) =~= be32(payload.len()));
    assert(frame.skip(8) =~= payload);
    encode_utf8_valid_utf8(path);
    encode_utf8_decode_utf8(path);
}

} // verus!
