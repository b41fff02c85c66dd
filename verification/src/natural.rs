//! Natural ("human") ordering of file names.
//!
//! Two byte strings are compared from the front. Where both continue with a
//! run of ASCII digits, the runs are compared as numbers: first by the number
//! of significant digits, then digit by digit, then (for equal values) by the
//! length of the run, so that `img009` sorts before `img10` and `01` after `1`.
//! Any other pair of bytes is compared as bytes. When one string runs out, the
//! shorter one comes first.
use vstd::prelude::*;
use crate::text::{all_digits, decimal_value};

verus! {

/// The outcome of comparing two names.
#[derive(PartialEq, Eq, Structural, Clone, Copy, Debug)]
pub enum NameOrder {
    Less,
    Equal,
    Greater,
}

/// The outcome with the two sides swapped.
pub open spec fn flipped(o: NameOrder) -> NameOrder {
    match o {
        NameOrder::Less => NameOrder::Greater,
        NameOrder::Equal => NameOrder::Equal,
        NameOrder::Greater => NameOrder::Less,
    }
}

/// Comparison of two integers.
pub open spec fn order_int(x: int, y: int) -> NameOrder {
    if x < y {
        NameOrder::Less
    } else if x == y {
        NameOrder::Equal
    } else {
        NameOrder::Greater
    }
}

pub open spec fn is_digit(b: u8) -> bool {
    48 <= b && b <= 57
}

/// Number of ASCII digits at the front of `s`.
pub open spec fn digit_run(s: Seq<u8>) -> nat
    decreases s.len(),
{
    if s.len() > 0 && is_digit(s[0]) {
        1 + digit_run(s.drop_first())
    } else {
        0
    }
}

/// Number of `'0'` bytes at the front of `s`.
pub open spec fn zero_run(s: Seq<u8>) -> nat
    decreases s.len(),
{
    if s.len() > 0 && s[0] == 48 {
        1 + zero_run(s.drop_first())
    } else {
        0
    }
}

/// Lexicographic order of byte strings, as `Ord` on slices defines it.
pub open spec fn order_lex(a: Seq<u8>, b: Seq<u8>) -> NameOrder
    decreases a.len(),
{
    if a.len() == 0 || b.len() == 0 {
        order_int(a.len() as int, b.len() as int)
    } else if a[0] != b[0] {
        order_int(a[0] as int, b[0] as int)
    } else {
        order_lex(a.drop_first(), b.drop_first())
    }
}

/// Order of two leading digit runs of lengths `ra` and `rb`: number of
/// significant digits, then the significant digits, then the run length.
pub open spec fn order_runs(a: Seq<u8>, b: Seq<u8>, ra: int, rb: int) -> NameOrder {
    let za = zero_run(a) as int;
    let zb = zero_run(b) as int;
    let by_width = order_int(ra - za, rb - zb);
    if by_width != NameOrder::Equal {
        by_width
    } else {
        let by_digits = order_lex(a.subrange(za, ra), b.subrange(zb, rb));
        if by_digits != NameOrder::Equal {
            by_digits
        } else {
            order_int(ra, rb)
        }
    }
}

/// The natural order of two names given as bytes.
pub open spec fn natural_order(a: Seq<u8>, b: Seq<u8>) -> NameOrder
    decreases a.len(),
{
    if a.len() == 0 || b.len() == 0 {
        order_int(a.len() as int, b.len() as int)
    } else if is_digit(a[0]) && is_digit(b[0]) {
        let ra = digit_run(a) as int;
        let rb = digit_run(b) as int;
        let by_run = order_runs(a, b, ra, rb);
        if by_run != NameOrder::Equal {
            by_run
        } else {
            proof {
                lemma_digit_run(a);
            }
            natural_order(a.skip(ra), b.skip(rb))
        }
    } else if a[0] != b[0] {
        order_int(a[0] as int, b[0] as int)
    } else {
        natural_order(a.drop_first(), b.drop_first())
    }
}

pub proof fn lemma_digit_run(s: Seq<u8>)
    ensures
        digit_run(s) <= s.len(),
        s.len() > 0 && is_digit(s[0]) ==> digit_run(s) >= 1,
        forall|i: int| 0 <= i < digit_run(s) ==> is_digit(#[trigger] s[i]),
        digit_run(s) < s.len() ==> !is_digit(s[digit_run(s) as int]),
    decreases s.len(),
{
    if s.len() > 0 && is_digit(s[0]) {
        lemma_digit_run(s.drop_first());
        assert forall|i: int| 0 <= i < digit_run(s) implies is_digit(#[trigger] s[i]) by {
            if i > 0 {
                assert(s[i] == s.drop_first()[i - 1]);
            }
        }
    }
}

pub proof fn lemma_zero_run(s: Seq<u8>)
    ensures
        zero_run(s) <= digit_run(s),
        forall|i: int| 0 <= i < zero_run(s) ==> #[trigger] s[i] == 48,
        zero_run(s) < s.len() ==> s[zero_run(s) as int] != 48,
    decreases s.len(),
{
    lemma_digit_run(s);
    if s.len() > 0 && s[0] == 48 {
        lemma_zero_run(s.drop_first());
        assert forall|i: int| 0 <= i < zero_run(s) implies #[trigger] s[i] == 48 by {
            if i > 0 {
                assert(s[i] == s.drop_first()[i - 1]);
            }
        }
    }
}

// ---------------------------------------------------------------------------
// Laws of the integer and lexicographic orders.

pub proof fn lemma_order_lex_flip(a: Seq<u8>, b: Seq<u8>)
    ensures
        order_lex(b, a) == flipped(order_lex(a, b)),
    decreases a.len(),
{
    if a.len() > 0 && b.len() > 0 && a[0] == b[0] {
        lemma_order_lex_flip(a.drop_first(), b.drop_first());
    }
}

pub proof fn lemma_order_lex_equal(a: Seq<u8>, b: Seq<u8>)
    ensures
        order_lex(a, b) == NameOrder::Equal <==> a == b,
    decreases a.len(),
{
    if a.len() > 0 && b.len() > 0 && a[0] == b[0] {
        lemma_order_lex_equal(a.drop_first(), b.drop_first());
        if a.drop_first() == b.drop_first() {
            assert(a =~= seq![a[0]] + a.drop_first());
            assert(b =~= seq![b[0]] + b.drop_first());
        }
    } else if a.len() == 0 && b.len() == 0 {
        assert(a =~= b);
    }
}

pub proof fn lemma_order_lex_transitive(a: Seq<u8>, b: Seq<u8>, c: Seq<u8>)
    requires
        order_lex(a, b) == NameOrder::Less,
        order_lex(b, c) == NameOrder::Less,
    ensures
        order_lex(a, c) == NameOrder::Less,
    decreases a.len(),
{
    if a.len() > 0 && b.len() > 0 && c.len() > 0 && a[0] == b[0] && b[0] == c[0] {
        lemma_order_lex_transitive(a.drop_first(), b.drop_first(), c.drop_first());
    }
}

// ---------------------------------------------------------------------------
// Laws of the run order.

proof fn lemma_order_runs_flip(a: Seq<u8>, b: Seq<u8>, ra: int, rb: int)
    ensures
        order_runs(b, a, rb, ra) == flipped(order_runs(a, b, ra, rb)),
{
    let za = zero_run(a) as int;
    let zb = zero_run(b) as int;
    lemma_order_lex_flip(a.subrange(za, ra), b.subrange(zb, rb));
}

/// Runs that compare equal are the same bytes.
proof fn lemma_order_runs_equal(a: Seq<u8>, b: Seq<u8>)
    requires
        a.len() > 0,
        b.len() > 0,
        is_digit(a[0]),
        is_digit(b[0]),
        order_runs(a, b, digit_run(a) as int, digit_run(b) as int) == NameOrder::Equal,
    ensures
        digit_run(a) == digit_run(b),
        a.take(digit_run(a) as int) == b.take(digit_run(b) as int),
{
    lemma_digit_run(a);
    lemma_digit_run(b);
    lemma_zero_run(a);
    lemma_zero_run(b);
    let ra = digit_run(a) as int;
    let rb = digit_run(b) as int;
    let za = zero_run(a) as int;
    let zb = zero_run(b) as int;
    lemma_order_lex_equal(a.subrange(za, ra), b.subrange(zb, rb));
    assert(ra == rb);
    assert(za == zb);
    assert forall|i: int| 0 <= i < ra implies a.take(ra)[i] == b.take(rb)[i] by {
        if i < za {
        } else {
            assert(a.subrange(za, ra)[i - za] == b.subrange(zb, rb)[i - zb]);
        }
    }
    assert(a.take(ra) =~= b.take(rb));
}

/// Lexicographic composition of the three keys of a run is transitive.
proof fn lemma_order_runs_transitive(a: Seq<u8>, b: Seq<u8>, c: Seq<u8>, ra: int, rb: int, rc: int)
    requires
        order_runs(a, b, ra, rb) != NameOrder::Greater,
        order_runs(b, c, rb, rc) != NameOrder::Greater,
        order_runs(a, b, ra, rb) == NameOrder::Less || order_runs(b, c, rb, rc)
            == NameOrder::Less,
    ensures
        order_runs(a, c, ra, rc) == NameOrder::Less,
{
    let za = zero_run(a) as int;
    let zb = zero_run(b) as int;
    let zc = zero_run(c) as int;
    let da = a.subrange(za, ra);
    let db = b.subrange(zb, rb);
    let dc = c.subrange(zc, rc);
    lemma_order_lex_equal(da, db);
    lemma_order_lex_equal(db, dc);
    lemma_order_lex_equal(da, dc);
    if order_lex(da, db) == NameOrder::Less && order_lex(db, dc) == NameOrder::Less {
        lemma_order_lex_transitive(da, db, dc);
    }
}

// ---------------------------------------------------------------------------
// Laws of the natural order.

/// Splitting a name at the end of its leading digit run.
proof fn lemma_split_run(a: Seq<u8>)
    requires
        a.len() > 0,
        is_digit(a[0]),
    ensures
        digit_run(a) >= 1,
        digit_run(a) <= a.len(),
        a == a.take(digit_run(a) as int) + a.skip(digit_run(a) as int),
        a.skip(digit_run(a) as int).len() < a.len(),
{
    lemma_digit_run(a);
    assert(a =~= a.take(digit_run(a) as int) + a.skip(digit_run(a) as int));
}

/// Every name is equal to itself.
pub proof fn lemma_natural_order_reflexive(a: Seq<u8>)
    ensures
        natural_order(a, a) == NameOrder::Equal,
    decreases a.len(),
{
    if a.len() > 0 {
        if is_digit(a[0]) {
            let ra = digit_run(a) as int;
            let za = zero_run(a) as int;
            lemma_order_lex_equal(a.subrange(za, ra), a.subrange(za, ra));
            lemma_split_run(a);
            lemma_natural_order_reflexive(a.skip(ra));
        } else {
            lemma_natural_order_reflexive(a.drop_first());
        }
    }
}

/// Two names are equal in the natural order only when they are the same bytes.
pub proof fn lemma_natural_order_equal(a: Seq<u8>, b: Seq<u8>)
    ensures
        natural_order(a, b) == NameOrder::Equal <==> a == b,
    decreases a.len(),
{
    if a == b {
        lemma_natural_order_reflexive(a);
        return;
    }
    if a.len() == 0 || b.len() == 0 {
        if a.len() == 0 && b.len() == 0 {
            assert(a =~= b);
        }
    } else if is_digit(a[0]) && is_digit(b[0]) {
        let ra = digit_run(a) as int;
        let rb = digit_run(b) as int;
        if order_runs(a, b, ra, rb) == NameOrder::Equal {
            lemma_order_runs_equal(a, b);
            lemma_split_run(a);
            lemma_split_run(b);
            lemma_natural_order_equal(a.skip(ra), b.skip(rb));
        }
    } else if a[0] == b[0] {
        lemma_natural_order_equal(a.drop_first(), b.drop_first());
        if a.drop_first() == b.drop_first() {
            assert(a =~= seq![a[0]] + a.drop_first());
            assert(b =~= seq![b[0]] + b.drop_first());
        }
    }
}

/// Swapping the two names swaps the outcome.
pub proof fn lemma_natural_order_antisymmetric(a: Seq<u8>, b: Seq<u8>)
    ensures
        natural_order(b, a) == flipped(natural_order(a, b)),
    decreases a.len(),
{
    if a.len() > 0 && b.len() > 0 {
        if is_digit(a[0]) && is_digit(b[0]) {
            let ra = digit_run(a) as int;
            let rb = digit_run(b) as int;
            lemma_order_runs_flip(a, b, ra, rb);
            if order_runs(a, b, ra, rb) == NameOrder::Equal {
                lemma_split_run(a);
                lemma_split_run(b);
                lemma_natural_order_antisymmetric(a.skip(ra), b.skip(rb));
            }
        } else if a[0] == b[0] {
            lemma_natural_order_antisymmetric(a.drop_first(), b.drop_first());
        }
    }
}

/// The natural order is transitive.
pub proof fn lemma_natural_order_transitive(a: Seq<u8>, b: Seq<u8>, c: Seq<u8>)
    requires
        natural_order(a, b) == NameOrder::Less,
        natural_order(b, c) == NameOrder::Less,
    ensures
        natural_order(a, c) == NameOrder::Less,
    decreases a.len(),
{
    if a.len() == 0 || b.len() == 0 || c.len() == 0 {
        return;
    }
    let da = is_digit(a[0]);
    let db = is_digit(b[0]);
    let dc = is_digit(c[0]);
    if da && db && dc {
        let ra = digit_run(a) as int;
        let rb = digit_run(b) as int;
        let rc = digit_run(c) as int;
        let ab = order_runs(a, b, ra, rb);
        let bc = order_runs(b, c, rb, rc);
        if ab == NameOrder::Equal && bc == NameOrder::Equal {
            lemma_order_runs_equal(a, b);
            lemma_order_runs_equal(b, c);
            lemma_split_run(a);
            lemma_split_run(b);
            lemma_split_run(c);
            lemma_natural_order_transitive(a.skip(ra), b.skip(rb), c.skip(rc));
            // The runs of `a` and `c` are the same bytes, so they compare equal.
            lemma_order_runs_equal_same(a, c);
        } else {
            if ab == NameOrder::Equal {
                lemma_order_runs_equal(a, b);
                lemma_same_run_same_order(a, b, c);
            } else if bc == NameOrder::Equal {
                lemma_order_runs_equal(b, c);
                lemma_same_run_same_order_right(a, b, c);
            } else {
                lemma_order_runs_transitive(a, b, c, ra, rb, rc);
            }
        }
    } else if !da && !db && !dc && a[0] == b[0] && b[0] == c[0] {
        lemma_natural_order_transitive(a.drop_first(), b.drop_first(), c.drop_first());
    }
}

/// Names whose leading digit runs are the same bytes compare equal by runs.
proof fn lemma_order_runs_equal_same(a: Seq<u8>, c: Seq<u8>)
    requires
        a.len() > 0,
        c.len() > 0,
        is_digit(a[0]),
        is_digit(c[0]),
        digit_run(a) == digit_run(c),
        a.take(digit_run(a) as int) == c.take(digit_run(c) as int),
    ensures
        order_runs(a, c, digit_run(a) as int, digit_run(c) as int) == NameOrder::Equal,
{
    let r = digit_run(a) as int;
    lemma_digit_run(a);
    lemma_digit_run(c);
    lemma_zero_run(a);
    lemma_zero_run(c);
    let za = zero_run(a) as int;
    let zc = zero_run(c) as int;
    lemma_zero_run_prefix(a, c, r);
    assert(za == zc);
    assert(a.subrange(za, r) =~= c.subrange(zc, r)) by {
        assert forall|i: int| 0 <= i < r - za implies a.subrange(za, r)[i] == c.subrange(zc, r)[i] by {
            assert(a.take(r)[za + i] == c.take(r)[za + i]);
        }
    }
    lemma_order_lex_equal(a.subrange(za, r), c.subrange(zc, r));
}

proof fn lemma_zero_run_prefix(s: Seq<u8>, t: Seq<u8>, n: int)
    requires
        0 <= n <= s.len(),
        n <= t.len(),
        s.take(n) == t.take(n),
        n == digit_run(s),
        n == digit_run(t),
    ensures
        zero_run(t) == zero_run(s),
{
    lemma_digit_run(s);
    lemma_digit_run(t);
    lemma_zero_run(s);
    let z = zero_run(s) as int;
    assert forall|i: int| 0 <= i < z implies #[trigger] t[i] == 48 by {
        assert(s[i] == s.take(n)[i]);
        assert(t[i] == t.take(n)[i]);
    }
    if z < n {
        assert(s[z] == s.take(n)[z]);
        assert(t[z] == t.take(n)[z]);
    }
    lemma_zero_run_exact(t, z);
}

/// `zero_run(t) == z` when exactly the first `z` bytes of `t` are zeros.
proof fn lemma_zero_run_exact(t: Seq<u8>, z: int)
    requires
        0 <= z <= t.len(),
        forall|i: int| 0 <= i < z ==> #[trigger] t[i] == 48,
        z < t.len() ==> t[z] != 48,
    ensures
        zero_run(t) == z,
    decreases z,
{
    if z > 0 {
        assert forall|i: int| 0 <= i < z - 1 implies #[trigger] t.drop_first()[i] == 48 by {
            assert(t[i + 1] == 48);
        }
        lemma_zero_run_exact(t.drop_first(), z - 1);
    }
}

/// When `a` and `b` share their leading run, `a` compares with `c` as `b` does.
proof fn lemma_same_run_same_order(a: Seq<u8>, b: Seq<u8>, c: Seq<u8>)
    requires
        a.len() > 0,
        b.len() > 0,
        c.len() > 0,
        is_digit(a[0]),
        is_digit(b[0]),
        is_digit(c[0]),
        digit_run(a) == digit_run(b),
        a.take(digit_run(a) as int) == b.take(digit_run(b) as int),
        order_runs(b, c, digit_run(b) as int, digit_run(c) as int) == NameOrder::Less,
    ensures
        order_runs(a, c, digit_run(a) as int, digit_run(c) as int) == NameOrder::Less,
{
    let r = digit_run(a) as int;
    lemma_digit_run(a);
    lemma_digit_run(b);
    lemma_zero_run(a);
    lemma_zero_run_prefix(a, b, r);
    let z = zero_run(a) as int;
    assert(a.subrange(z, r) =~= b.subrange(z, r)) by {
        assert forall|i: int| 0 <= i < r - z implies a.subrange(z, r)[i] == b.subrange(z, r)[i] by {
            assert(a.take(r)[z + i] == b.take(r)[z + i]);
        }
    }
}

/// When `b` and `c` share their leading run, `a` compares with `c` as with `b`.
proof fn lemma_same_run_same_order_right(a: Seq<u8>, b: Seq<u8>, c: Seq<u8>)
    requires
        a.len() > 0,
        b.len() > 0,
        c.len() > 0,
        is_digit(a[0]),
        is_digit(b[0]),
        is_digit(c[0]),
        digit_run(b) == digit_run(c),
        b.take(digit_run(b) as int) == c.take(digit_run(c) as int),
        order_runs(a, b, digit_run(a) as int, digit_run(b) as int) == NameOrder::Less,
    ensures
        order_runs(a, c, digit_run(a) as int, digit_run(c) as int) == NameOrder::Less,
{
    let r = digit_run(b) as int;
    lemma_digit_run(b);
    lemma_digit_run(c);
    lemma_zero_run(b);
    lemma_zero_run_prefix(b, c, r);
    let z = zero_run(b) as int;
    assert(b.subrange(z, r) =~= c.subrange(z, r)) by {
        assert forall|i: int| 0 <= i < r - z implies b.subrange(z, r)[i] == c.subrange(z, r)[i] by {
            assert(b.take(r)[z + i] == c.take(r)[z + i]);
        }
    }
}


// ---------------------------------------------------------------------------
// Executable comparison.

fn order_usize(x: usize, y: usize) -> (r: NameOrder)
    ensures
        r == order_int(x as int, y as int),
{
    if x < y {
        NameOrder::Less
    } else if x == y {
        NameOrder::Equal
    } else {
        NameOrder::Greater
    }
}

fn order_byte(x: u8, y: u8) -> (r: NameOrder)
    ensures
        r == order_int(x as int, y as int),
{
    if x < y {
        NameOrder::Less
    } else if x == y {
        NameOrder::Equal
    } else {
        NameOrder::Greater
    }
}

/// End of the digit run of `s` that starts at `start`.
fn digit_run_end(s: &[u8], start: usize) -> (end: usize)
    requires
        start <= s.len(),
    ensures
        start <= end <= s.len(),
        end - start == digit_run(s@.skip(start as int)),
{
    let mut i = start;
    while i < s.len() && 48 <= s[i] && s[i] <= 57
        invariant
            start <= i <= s.len(),
            (i - start) + digit_run(s@.skip(i as int)) == digit_run(s@.skip(start as int)),
        decreases s.len() - i,
    {
        assert(s@.skip(i as int).drop_first() =~= s@.skip(i + 1));
        i += 1;
    }
    i
}

/// End of the run of `'0'` bytes of `s` that starts at `start`, stopping at `limit`.
fn zero_run_end(s: &[u8], start: usize, limit: usize) -> (end: usize)
    requires
        start <= limit <= s.len(),
        limit - start == digit_run(s@.skip(start as int)),
    ensures
        start <= end <= limit,
        end - start == zero_run(s@.skip(start as int)),
{
    let ghost t = s@.skip(start as int);
    proof {
        lemma_digit_run(t);
        lemma_zero_run(t);
    }
    let mut i = start;
    while i < limit && s[i] == 48
        invariant
            start <= i <= limit,
            limit <= s.len(),
            t == s@.skip(start as int),
            forall|k: int| 0 <= k < i - start ==> #[trigger] t[k] == 48,
            i - start <= zero_run(t),
            zero_run(t) <= digit_run(t),
            limit - start == digit_run(t),
            forall|k: int| 0 <= k < zero_run(t) ==> #[trigger] t[k] == 48,
            zero_run(t) < t.len() ==> t[zero_run(t) as int] != 48,
        decreases limit - i,
    {
        assert(t[i - start] == s@[i as int]);
        i += 1;
    }
    if i < limit {
        assert(t[i - start] == s@[i as int]);
    }
    i
}

/// Lexicographic comparison of `a[a0..a0+n]` with `b[b0..b0+n]`.
fn order_slices(a: &[u8], a0: usize, b: &[u8], b0: usize, n: usize) -> (r: NameOrder)
    requires
        a0 + n <= a.len(),
        b0 + n <= b.len(),
    ensures
        r == order_lex(a@.subrange(a0 as int, a0 + n), b@.subrange(b0 as int, b0 + n)),
{
    let ghost x = a@.subrange(a0 as int, a0 + n);
    let ghost y = b@.subrange(b0 as int, b0 + n);
    let mut k: usize = 0;
    assert(x.skip(0) =~= x);
    assert(y.skip(0) =~= y);
    while k < n
        invariant
            k <= n,
            a0 + n <= a.len(),
            b0 + n <= b.len(),
            x == a@.subrange(a0 as int, a0 + n),
            y == b@.subrange(b0 as int, b0 + n),
            order_lex(x, y) == order_lex(x.skip(k as int), y.skip(k as int)),
        decreases n - k,
    {
        let p = a[a0 + k];
        let q = b[b0 + k];
        assert(x.skip(k as int)[0] == p);
        assert(y.skip(k as int)[0] == q);
        if p != q {
            return order_byte(p, q);
        }
        assert(x.skip(k as int).drop_first() =~= x.skip(k + 1));
        assert(y.skip(k as int).drop_first() =~= y.skip(k + 1));
        k += 1;
    }
    NameOrder::Equal
}

/// Compares two names, given as bytes, in natural order.
pub fn natural_order_bytes(a: &[u8], b: &[u8]) -> (r: NameOrder)
    ensures
        r == natural_order(a@, b@),
{
    let mut i: usize = 0;
    assert(a@.skip(0) =~= a@);
    assert(b@.skip(0) =~= b@);
    while i < a.len() && i < b.len()
        invariant
            i <= a.len(),
            i <= b.len(),
            natural_order(a@, b@) == natural_order(a@.skip(i as int), b@.skip(i as int)),
        decreases a.len() - i,
    {
        let ghost sa = a@.skip(i as int);
        let ghost sb = b@.skip(i as int);
        assert(sa[0] == a@[i as int]);
        assert(sb[0] == b@[i as int]);
        let ad = 48 <= a[i] && a[i] <= 57;
        let bd = 48 <= b[i] && b[i] <= 57;
        if ad && bd {
            let ae = digit_run_end(a, i);
            let be = digit_run_end(b, i);
            let az = zero_run_end(a, i, ae);
            let bz = zero_run_end(b, i, be);
            let width = order_usize(ae - az, be - bz);
            if width != NameOrder::Equal {
                return width;
            }
            let digits = order_slices(a, az, b, bz, ae - az);
            assert(a@.subrange(az as int, ae as int) =~= sa.subrange(az - i, ae - i));
            assert(b@.subrange(bz as int, be as int) =~= sb.subrange(bz - i, be - i));
            if digits != NameOrder::Equal {
                return digits;
            }
            let run = order_usize(ae - i, be - i);
            if run != NameOrder::Equal {
                return run;
            }
            proof {
                lemma_digit_run(sa);
                assert(sa.skip(ae - i) =~= a@.skip(ae as int));
                assert(sb.skip(be - i) =~= b@.skip(be as int));
            }
            i = ae;
        } else {
            if a[i] != b[i] {
                return order_byte(a[i], b[i]);
            }
            assert(sa.drop_first() =~= a@.skip(i + 1));
            assert(sb.drop_first() =~= b@.skip(i + 1));
            i += 1;
        }
    }
    order_usize(a.len(), b.len())
}


// ---------------------------------------------------------------------------
// What the order means.

/// Byte strings compared front first: the first index where they differ
/// decides, by the bytes there.
pub proof fn lemma_order_lex_first_difference(a: Seq<u8>, b: Seq<u8>, i: int)
    requires
        0 <= i < a.len(),
        i < b.len(),
        a[i] != b[i],
        forall|j: int| 0 <= j < i ==> a[j] == b[j],
    ensures
        order_lex(a, b) == order_int(a[i] as int, b[i] as int),
    decreases i,
{
    if i > 0 {
        assert(a[0] == b[0]);
        lemma_order_lex_first_difference(a.drop_first(), b.drop_first(), i - 1);
    }
}

/// A proper prefix comes first.
pub proof fn lemma_order_lex_prefix(a: Seq<u8>, b: Seq<u8>)
    requires
        a.len() < b.len(),
        a == b.take(a.len() as int),
    ensures
        order_lex(a, b) == NameOrder::Less,
    decreases a.len(),
{
    if a.len() > 0 {
        assert(a[0] == b[0]);
        assert(a.drop_first() =~= b.drop_first().take(a.drop_first().len() as int));
        lemma_order_lex_prefix(a.drop_first(), b.drop_first());
    }
}

/// `10` to the power `n`.
pub open spec fn pow10(n: nat) -> nat
    decreases n,
{
    if n == 0 {
        1
    } else {
        10 * pow10((n - 1) as nat)
    }
}

proof fn lemma_pow10_monotone(a: nat, b: nat)
    requires
        a <= b,
    ensures
        1 <= pow10(a) <= pow10(b),
    decreases b,
{
    if b > a {
        lemma_pow10_monotone(a, (b - 1) as nat);
    } else if a > 0 {
        lemma_pow10_monotone((a - 1) as nat, (a - 1) as nat);
    }
}

proof fn lemma_value_below_power(x: Seq<u8>)
    requires
        all_digits(x),
    ensures
        decimal_value(x) < pow10(x.len()),
    decreases x.len(),
{
    if x.len() > 0 {
        let d = x.drop_last();
        assert(all_digits(d)) by {
            assert forall|i: int| 0 <= i < d.len() implies is_digit(#[trigger] d[i]) by {
                assert(d[i] == x[i]);
            }
        }
        lemma_value_below_power(d);
        assert(is_digit(x[x.len() - 1]));
        let v = decimal_value(d);
        let p = pow10(d.len());
        assert(10 * v + 9 < 10 * p) by (nonlinear_arith)
            requires
                v < p,
        ;
    }
}

proof fn lemma_value_front(x: Seq<u8>)
    requires
        x.len() > 0,
        all_digits(x),
    ensures
        decimal_value(x) == (x[0] - 48) * pow10((x.len() - 1) as nat) + decimal_value(
            x.drop_first(),
        ),
    decreases x.len(),
{
    if x.len() == 1 {
        assert(x.drop_last() =~= Seq::<u8>::empty());
        assert(x.drop_first() =~= Seq::<u8>::empty());
        assert(is_digit(x[0]));
        assert(x.last() == x[0]);
        assert(decimal_value(x) == 10 * decimal_value(x.drop_last()) + (x.last() - 48));
        assert(decimal_value(x.drop_first()) == 0);
        assert(decimal_value(x.drop_last()) == 0);
        assert(pow10(0) == 1);
        assert(pow10((x.len() - 1) as nat) == 1);
        let a = (x[0] - 48) as int;
        assert(a * 1 == a);
    } else {
        let d = x.drop_last();
        assert(all_digits(d)) by {
            assert forall|i: int| 0 <= i < d.len() implies is_digit(#[trigger] d[i]) by {
                assert(d[i] == x[i]);
            }
        }
        lemma_value_front(d);
        let t = x.drop_first();
        assert(t.drop_last() =~= d.drop_first());
        assert(t.last() == x.last());
        let a = (x[0] - 48) as int;
        let p = pow10((d.len() - 1) as nat);
        let r = decimal_value(d.drop_first());
        assert(d[0] == x[0]);
        assert(is_digit(x[x.len() - 1]));
        assert(pow10((x.len() - 1) as nat) == 10 * p);
        assert(decimal_value(x) == 10 * decimal_value(d) + (x.last() - 48));
        assert(decimal_value(t) == 10 * decimal_value(t.drop_last()) + (t.last() - 48));
        assert(decimal_value(d) == a * p + r);
        assert(10 * (a * p + r) == a * (10 * p) + 10 * r) by (nonlinear_arith);
        assert(decimal_value(x) == a * pow10((x.len() - 1) as nat) + decimal_value(t));
    }
}

proof fn lemma_value_at_least(x: Seq<u8>)
    requires
        x.len() > 0,
        all_digits(x),
        x[0] != 48,
    ensures
        decimal_value(x) >= pow10((x.len() - 1) as nat),
{
    lemma_value_front(x);
    let p = pow10((x.len() - 1) as nat);
    assert(is_digit(x[0]));
    assert((x[0] - 48) * p >= p) by (nonlinear_arith)
        requires
            x[0] - 48 >= 1,
            p >= 0,
    ;
}

/// Digit strings of one length compare front first as their values do.
proof fn lemma_same_width_by_value(x: Seq<u8>, y: Seq<u8>)
    requires
        x.len() == y.len(),
        all_digits(x),
        all_digits(y),
    ensures
        order_lex(x, y) == order_int(decimal_value(x) as int, decimal_value(y) as int),
    decreases x.len(),
{
    if x.len() > 0 {
        let xt = x.drop_first();
        let yt = y.drop_first();
        assert(all_digits(xt)) by {
            assert forall|i: int| 0 <= i < xt.len() implies is_digit(#[trigger] xt[i]) by {
                assert(xt[i] == x[i + 1]);
            }
        }
        assert(all_digits(yt)) by {
            assert forall|i: int| 0 <= i < yt.len() implies is_digit(#[trigger] yt[i]) by {
                assert(yt[i] == y[i + 1]);
            }
        }
        lemma_value_front(x);
        lemma_value_front(y);
        lemma_value_below_power(xt);
        lemma_value_below_power(yt);
        lemma_same_width_by_value(xt, yt);
        assert(is_digit(x[0]) && is_digit(y[0]));
        let p = pow10(xt.len());
        let a = x[0] - 48;
        let b = y[0] - 48;
        let u = decimal_value(xt);
        let v = decimal_value(yt);
        if a < b {
            assert(a * p + u < b * p + v) by (nonlinear_arith)
                requires
                    a < b,
                    u < p,
                    v >= 0,
            ;
        } else if a > b {
            assert(a * p + u > b * p + v) by (nonlinear_arith)
                requires
                    a > b,
                    v < p,
                    u >= 0,
            ;
        }
    } else {
        assert(decimal_value(x) == 0 && decimal_value(y) == 0);
    }
}

proof fn lemma_digit_run_of(x: Seq<u8>, s: Seq<u8>)
    requires
        all_digits(x),
        s.len() == 0 || !is_digit(s[0]),
    ensures
        digit_run(x + s) == x.len(),
    decreases x.len(),
{
    if x.len() > 0 {
        let xt = x.drop_first();
        assert(all_digits(xt)) by {
            assert forall|i: int| 0 <= i < xt.len() implies is_digit(#[trigger] xt[i]) by {
                assert(xt[i] == x[i + 1]);
            }
        }
        assert((x + s).drop_first() =~= xt + s);
        assert((x + s)[0] == x[0]);
        lemma_digit_run_of(xt, s);
    } else {
        assert(x + s =~= s);
    }
}

/// Digit runs compare by value: two names that begin with numbers written
/// without leading zeros, and then go on with something other than a digit,
/// come in the order of those numbers when they differ (`2.png` before
/// `10.png`, `12.png` before `21.png`).
pub proof fn lemma_numbers_by_value(x: Seq<u8>, s: Seq<u8>, y: Seq<u8>, t: Seq<u8>)
    requires
        x.len() > 0,
        y.len() > 0,
        all_digits(x),
        all_digits(y),
        x[0] != 48,
        y[0] != 48,
        s.len() == 0 || !is_digit(s[0]),
        t.len() == 0 || !is_digit(t[0]),
        decimal_value(x) != decimal_value(y),
    ensures
        natural_order(x + s, y + t) == order_int(decimal_value(x) as int, decimal_value(y) as int),
{
    let a = x + s;
    let b = y + t;
    lemma_digit_run_of(x, s);
    lemma_digit_run_of(y, t);
    assert(a[0] == x[0] && b[0] == y[0]);
    assert(is_digit(x[0]) && is_digit(y[0]));
    assert(zero_run(a) == 0 && zero_run(b) == 0);
    assert(a.subrange(0, x.len() as int) =~= x);
    assert(b.subrange(0, y.len() as int) =~= y);
    lemma_value_below_power(x);
    lemma_value_below_power(y);
    lemma_value_at_least(x);
    lemma_value_at_least(y);
    if x.len() < y.len() {
        lemma_pow10_monotone(x.len(), (y.len() - 1) as nat);
    } else if x.len() > y.len() {
        lemma_pow10_monotone(y.len(), (x.len() - 1) as nat);
    } else {
        lemma_same_width_by_value(x, y);
    }
}

} // verus!
