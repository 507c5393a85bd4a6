//! Byte-string utilities: ASCII classification, decimal numerals, substring
//! search and literal replacement.  All contracts are stated over `Seq<u8>`
//! views of the byte vectors the tool passes around.

use vstd::prelude::*;

verus! {

/// True when `b` is an ASCII decimal digit.
pub open spec fn is_digit(b: u8) -> bool {
    48 <= b && b <= 57
}

/// True when every byte of `s` is a decimal digit.
pub open spec fn all_digits(s: Seq<u8>) -> bool {
    forall|i: int| 0 <= i < s.len() ==> is_digit(#[trigger] s[i])
}

/// True when `s` is a non-empty run of decimal digits.
pub open spec fn is_numeral(s: Seq<u8>) -> bool {
    s.len() > 0 && all_digits(s)
}

/// The natural number a digit string denotes, most significant digit first.
pub open spec fn numeral_value(s: Seq<u8>) -> nat
    decreases s.len(),
{
    if s.len() == 0 {
        0
    } else {
        numeral_value(s.drop_last()) * 10 + (s.last() - 48) as nat
    }
}

/// The canonical decimal numeral of `n`: no leading zeros, `"0"` for zero.
pub open spec fn numeral_of(n: nat) -> Seq<u8>
    decreases n,
{
    if n < 10 {
        seq![(n + 48) as u8]
    } else {
        numeral_of(n / 10).push((n % 10 + 48) as u8)
    }
}

/// A value of a version component that the tool can increment: a digit run
/// whose successor still fits in a machine word.
pub open spec fn bumpable_numeral(s: Seq<u8>) -> bool {
    is_numeral(s) && numeral_value(s) < u64::MAX
}

proof fn lemma_numeral_of_is_numeral(n: nat)
    ensures
        is_numeral(numeral_of(n)),
        all_digits(numeral_of(n)),
    decreases n,
{
    if n >= 10 {
        lemma_numeral_of_is_numeral(n / 10);
    }
}

proof fn lemma_numeral_of_value(n: nat)
    ensures
        numeral_value(numeral_of(n)) == n,
    decreases n,
{
    if n < 10 {
        let s = seq![(n + 48) as u8];
        assert(s.drop_last() =~= Seq::<u8>::empty());
        assert(numeral_value(Seq::<u8>::empty()) == 0);
        assert(numeral_value(s) == (s.last() - 48) as nat);
    } else {
        lemma_numeral_of_value(n / 10);
        let s = numeral_of(n / 10).push((n % 10 + 48) as u8);
        assert(s.drop_last() =~= numeral_of(n / 10));
        assert(numeral_value(s) == (n / 10) * 10 + (n % 10));
        assert((n / 10) * 10 + (n % 10) == n) by (nonlinear_arith);
    }
}

/// Printing a value and reading the numeral back is the identity: the
/// incremented component a bump writes is canonical and denotes exactly the
/// incremented value.
pub proof fn lemma_numeral_round_trip(n: nat)
    ensures
        numeral_value(numeral_of(n)) == n,
        is_numeral(numeral_of(n)),
{
    lemma_numeral_of_value(n);
    lemma_numeral_of_is_numeral(n);
}

/// Every prefix of a digit run denotes no more than the whole run.
proof fn lemma_numeral_prefix_le(s: Seq<u8>, i: int)
    requires
        all_digits(s),
        0 <= i <= s.len(),
    ensures
        numeral_value(s.take(i)) <= numeral_value(s),
    decreases s.len() - i,
{
    if i < s.len() {
        lemma_numeral_prefix_le(s, i + 1);
        let t = s.take(i + 1);
        assert(t.drop_last() =~= s.take(i));
        assert(numeral_value(t) == numeral_value(s.take(i)) * 10 + (t.last() - 48) as nat);
        assert(numeral_value(s.take(i)) * 10 >= numeral_value(s.take(i))) by (nonlinear_arith);
    } else {
        assert(s.take(i) =~= s);
    }
}

/// Parses a decimal numeral.  Returns the denoted value exactly when `s` is a
/// non-empty digit run whose value fits in a `u64`.
pub fn parse_numeral(s: &[u8]) -> (r: Option<u64>)
    ensures
        match r {
            Some(v) => is_numeral(s@) && v as nat == numeral_value(s@),
            None => !(is_numeral(s@) && numeral_value(s@) <= u64::MAX),
        },
{
    if s.len() == 0 {
        return None;
    }
    let mut acc: u64 = 0;
    let mut i: usize = 0;
    while i < s.len()
        invariant
            0 <= i <= s@.len(),
            all_digits(s@.take(i as int)),
            acc as nat == numeral_value(s@.take(i as int)),
        decreases s@.len() - i,
    {
        let b = s[i];
        if !(48 <= b && b <= 57) {
            return None;
        }
        let d: u64 = (b - 48) as u64;
        if acc > (u64::MAX - d) / 10 {
            proof {
                let t = s@.take(i as int + 1);
                assert(t.drop_last() =~= s@.take(i as int));
                assert(numeral_value(t) == acc * 10 + d);
                assert(acc * 10 + d > u64::MAX) by (nonlinear_arith)
                    requires
                        acc > (u64::MAX - d) / 10,
                        d <= 9,
                ;
                if all_digits(s@) {
                    lemma_numeral_prefix_le(s@, i as int + 1);
                }
            }
            return None;
        }
        proof {
            let t = s@.take(i as int + 1);
            assert(t.drop_last() =~= s@.take(i as int));
            assert(acc * 10 + d <= u64::MAX) by (nonlinear_arith)
                requires
                    acc <= (u64::MAX - d) / 10,
                    d <= 9,
            ;
        }
        acc = acc * 10 + d;
        i = i + 1;
    }
    proof {
        assert(s@.take(i as int) =~= s@);
    }
    Some(acc)
}

/// `s` read back to front.
spec fn rev_seq(s: Seq<u8>) -> Seq<u8> {
    Seq::new(s.len(), |i: int| s[s.len() - 1 - i])
}

/// Prints `n` as its canonical decimal numeral.
pub fn numeral_bytes(n: u64) -> (r: Vec<u8>)
    ensures
        r@ == numeral_of(n as nat),
{
    if n == 0 {
        let mut out: Vec<u8> = Vec::new();
        out.push(48u8);
        proof {
            assert(out@ =~= numeral_of(0));
        }
        return out;
    }
    let mut rev: Vec<u8> = Vec::new();
    let mut m: u64 = n;
    while m > 0
        invariant
            m > 0 ==> numeral_of(n as nat) =~= numeral_of(m as nat).add(rev_seq(rev@)),
            m == 0 ==> numeral_of(n as nat) =~= rev_seq(rev@),
        decreases m,
    {
        let ghost old_rev = rev@;
        let ghost old_m = m;
        let d: u8 = (m % 10 + 48) as u8;
        rev.push(d);
        m = m / 10;
        proof {
            assert(rev_seq(rev@) =~= seq![d].add(rev_seq(old_rev)));
            if old_m >= 10 {
                assert(numeral_of(old_m as nat) =~= numeral_of((old_m / 10) as nat).push(d));
                assert(numeral_of((old_m / 10) as nat).push(d).add(rev_seq(old_rev)) =~= numeral_of(
                    m as nat,
                ).add(rev_seq(rev@)));
                assert(numeral_of(n as nat) =~= numeral_of(m as nat).add(rev_seq(rev@)));
            } else {
                assert(numeral_of(old_m as nat) =~= seq![d]);
                assert(numeral_of(old_m as nat).add(rev_seq(old_rev)) =~= rev_seq(rev@));
                assert(numeral_of(n as nat) =~= rev_seq(rev@));
            }
        }
    }
    let mut out: Vec<u8> = Vec::new();
    let mut j: usize = rev.len();
    while j > 0
        invariant
            0 <= j <= rev@.len(),
            out@ =~= Seq::new(
                (rev@.len() - j) as nat,
                |i: int| rev@[rev@.len() - 1 - i],
            ),
        decreases j,
    {
        j = j - 1;
        out.push(rev[j]);
    }
    proof {
        assert(out@ =~= rev_seq(rev@));
    }
    out
}

/// Is `b` an ASCII decimal digit?
pub fn is_digit_byte(b: u8) -> (r: bool)
    ensures
        r == is_digit(b),
{
    48 <= b && b <= 57
}

/// Copies a byte slice into a fresh vector.
pub fn copy_bytes(v: &[u8]) -> (r: Vec<u8>)
    ensures
        r@ == v@,
{
    let mut out: Vec<u8> = Vec::new();
    let mut i: usize = 0;
    while i < v.len()
        invariant
            0 <= i <= v@.len(),
            out@ =~= v@.take(i as int),
        decreases v@.len() - i,
    {
        out.push(v[i]);
        i = i + 1;
    }
    proof {
        assert(v@.take(v@.len() as int) =~= v@);
    }
    out
}

/// The literal `p` occurs in `t` at position `i`.
pub open spec fn matches_at(t: Seq<u8>, p: Seq<u8>, i: int) -> bool {
    0 <= i && i + p.len() <= t.len() && t.subrange(i, i + p.len()) == p
}

/// The literal `p` occurs somewhere in `t`.
pub open spec fn contains_seq(t: Seq<u8>, p: Seq<u8>) -> bool {
    exists|i: int| matches_at(t, p, i)
}

/// `t` with every occurrence of the literal `p` replaced by `r`, scanning
/// left to right without overlap.  `p` is assumed non-empty.
pub open spec fn replaced(t: Seq<u8>, p: Seq<u8>, r: Seq<u8>) -> Seq<u8>
    decreases t.len(),
{
    if p.len() == 0 || t.len() < p.len() {
        t
    } else if t.take(p.len() as int) == p {
        r + replaced(t.skip(p.len() as int), p, r)
    } else {
        seq![t[0]] + replaced(t.skip(1), p, r)
    }
}

/// Byte-for-byte equality of two slices.
pub fn bytes_eq(a: &[u8], b: &[u8]) -> (r: bool)
    ensures
        r == (a@ == b@),
{
    if a.len() != b.len() {
        proof {
            assert(a@.len() != b@.len());
        }
        return false;
    }
    let mut i: usize = 0;
    while i < a.len()
        invariant
            0 <= i <= a@.len(),
            a@.len() == b@.len(),
            forall|j: int| 0 <= j < i ==> a@[j] == b@[j],
        decreases a@.len() - i,
    {
        if a[i] != b[i] {
            return false;
        }
        i = i + 1;
    }
    proof {
        assert(a@ =~= b@);
    }
    true
}

/// Does the literal `p` stand at position `i` of `t`?
pub fn slice_matches_at(t: &[u8], p: &[u8], i: usize) -> (r: bool)
    requires
        i <= t@.len(),
    ensures
        r == matches_at(t@, p@, i as int),
{
    if t.len() - i < p.len() {
        return false;
    }
    let mut j: usize = 0;
    while j < p.len()
        invariant
            0 <= j <= p@.len(),
            i + p@.len() <= t@.len(),
            t@.len() <= usize::MAX,
            forall|k: int| 0 <= k < j ==> t@[i + k] == p@[k],
        decreases p@.len() - j,
    {
        if t[i + j] != p[j] {
            proof {
                assert(t@.subrange(i as int, i + p@.len())[j as int] == t@[i + j]);
            }
            return false;
        }
        j = j + 1;
    }
    proof {
        assert(t@.subrange(i as int, i + p@.len()) =~= p@);
    }
    true
}

/// Does `t` contain the literal `p`?
pub fn contains_bytes(t: &[u8], p: &[u8]) -> (r: bool)
    ensures
        r == contains_seq(t@, p@),
{
    let mut i: usize = 0;
    while i < t.len()
        invariant
            0 <= i <= t@.len(),
            forall|j: int| 0 <= j < i ==> !matches_at(t@, p@, j),
        decreases t@.len() - i,
    {
        if slice_matches_at(t, p, i) {
            return true;
        }
        i = i + 1;
    }
    let r = slice_matches_at(t, p, i);
    proof {
        assert(forall|j: int| matches_at(t@, p@, j) ==> 0 <= j <= t@.len());
    }
    r
}

proof fn lemma_matches_at_skip(t: Seq<u8>, p: Seq<u8>, i: int)
    requires
        0 <= i <= t.len(),
    ensures
        matches_at(t, p, i) == (p.len() <= t.len() - i && t.skip(i).take(p.len() as int) == p),
{
    if i + p.len() <= t.len() {
        assert(t.skip(i).take(p.len() as int) =~= t.subrange(i, i + p.len()));
    }
}

/// `t` with every occurrence of the non-empty literal `p` replaced by `r`.
pub fn replace_all(t: &[u8], p: &[u8], r: &[u8]) -> (out: Vec<u8>)
    requires
        p@.len() > 0,
    ensures
        out@ == replaced(t@, p@, r@),
{
    let mut out: Vec<u8> = Vec::new();
    let mut i: usize = 0;
    proof {
        assert(t@.skip(0) =~= t@);
        assert(Seq::<u8>::empty() + replaced(t@, p@, r@) =~= replaced(t@, p@, r@));
    }
    while i < t.len()
        invariant
            0 <= i <= t@.len(),
            p@.len() > 0,
            replaced(t@, p@, r@) == out@ + replaced(t@.skip(i as int), p@, r@),
        decreases t@.len() - i,
    {
        let ghost old_out = out@;
        let ghost rest = t@.skip(i as int);
        if slice_matches_at(t, p, i) {
            proof {
                lemma_matches_at_skip(t@, p@, i as int);
                assert(rest.take(p@.len() as int) == p@);
                assert(replaced(rest, p@, r@) == r@ + replaced(
                    rest.skip(p@.len() as int),
                    p@,
                    r@,
                ));
                assert(rest.skip(p@.len() as int) =~= t@.skip(i + p@.len()));
            }
            let mut k: usize = 0;
            while k < r.len()
                invariant
                    0 <= k <= r@.len(),
                    out@ =~= old_out + r@.take(k as int),
                decreases r@.len() - k,
            {
                out.push(r[k]);
                k = k + 1;
            }
            proof {
                assert(out@ =~= old_out + r@);
                assert(replaced(t@, p@, r@) =~= out@ + replaced(
                    t@.skip(i + p@.len()),
                    p@,
                    r@,
                ));
            }
            i = i + p.len();
        } else {
            proof {
                lemma_matches_at_skip(t@, p@, i as int);
                assert(rest.len() > 0);
                if rest.len() >= p@.len() {
                    assert(rest.take(p@.len() as int) != p@);
                    assert(replaced(rest, p@, r@) == seq![rest[0]] + replaced(
                        rest.skip(1),
                        p@,
                        r@,
                    ));
                } else {
                    assert(replaced(rest, p@, r@) == rest);
                    assert(rest.skip(1).len() < p@.len());
                    assert(replaced(rest.skip(1), p@, r@) == rest.skip(1));
                    assert(seq![rest[0]] + rest.skip(1) =~= rest);
                    assert(replaced(rest, p@, r@) == seq![rest[0]] + replaced(
                        rest.skip(1),
                        p@,
                        r@,
                    ));
                }
                assert(rest.skip(1) =~= t@.skip(i + 1));
                assert(rest[0] == t@[i as int]);
            }
            out.push(t[i]);
            proof {
                assert(out@ =~= old_out + seq![t@[i as int]]);
                assert(replaced(t@, p@, r@) =~= out@ + replaced(t@.skip(i + 1), p@, r@));
            }
            i = i + 1;
        }
    }
    proof {
        assert(t@.skip(i as int) =~= Seq::<u8>::empty());
        assert(replaced(Seq::<u8>::empty(), p@, r@) =~= Seq::<u8>::empty());
        assert(replaced(t@, p@, r@) =~= out@);
    }
    out
}

/// The position of the first occurrence of `b` in `s`, or `s.len()`.
pub open spec fn byte_pos(s: Seq<u8>, b: u8) -> int
    decreases s.len(),
{
    if s.len() == 0 {
        0
    } else if s[0] == b {
        0
    } else {
        1 + byte_pos(s.skip(1), b)
    }
}

pub proof fn lemma_byte_pos_range(s: Seq<u8>, b: u8)
    ensures
        0 <= byte_pos(s, b) <= s.len(),
        byte_pos(s, b) < s.len() ==> s[byte_pos(s, b)] == b,
        forall|j: int| 0 <= j < byte_pos(s, b) ==> s[j] != b,
    decreases s.len(),
{
    if s.len() > 0 && s[0] != b {
        lemma_byte_pos_range(s.skip(1), b);
        assert forall|j: int| 0 <= j < byte_pos(s, b) implies s[j] != b by {
            if j > 0 {
                assert(s.skip(1)[j - 1] == s[j]);
            }
        }
        if byte_pos(s, b) < s.len() {
            assert(s.skip(1)[byte_pos(s, b) - 1] == s[byte_pos(s, b)]);
        }
    }
}

/// Finds the first occurrence of `b` at or after `from`; `t.len()` if none.
pub fn find_byte(t: &[u8], from: usize, b: u8) -> (r: usize)
    requires
        from <= t@.len(),
    ensures
        from <= r <= t@.len(),
        r - from == byte_pos(t@.skip(from as int), b),
{
    let mut j: usize = from;
    while j < t.len() && t[j] != b
        invariant
            from <= j <= t@.len(),
            byte_pos(t@.skip(from as int), b) == (j - from) + byte_pos(t@.skip(j as int), b),
        decreases t@.len() - j,
    {
        proof {
            assert(t@.skip(j as int)[0] == t@[j as int]);
            assert(t@.skip(j as int).skip(1) =~= t@.skip(j as int + 1));
        }
        j = j + 1;
    }
    proof {
        if j < t@.len() {
            assert(t@.skip(j as int)[0] == t@[j as int]);
        } else {
            assert(t@.skip(j as int) =~= Seq::<u8>::empty());
        }
    }
    j
}

} // verus!
