//! Reading the tool's own configuration file: the `current_version`
//! assignment under the `[bumpversion]` header, and the `[bumpversion:file:…]`
//! sections that name the files to update.
//!
//! The grammar is small and stated exactly: a match is the literal header,
//! optional whitespace, the literal key, `=` between optional whitespace, and
//! a version of one to three dot-separated digit runs, each run taken as long
//! as possible; the first position where all of that holds wins.

use vstd::prelude::*;

use crate::text::byte_pos;
use crate::text::copy_bytes;
use crate::text::is_digit;
use crate::text::is_digit_byte;
use crate::text::find_byte;
use crate::text::lemma_byte_pos_range;
use crate::text::matches_at;
use crate::text::slice_matches_at;
use crate::version::copy_range;
use crate::version::is_ws;
use crate::version::is_ws_byte;
use crate::version::names_view;
use crate::version::lemma_names_view_push;
use crate::version::trim_copy;
use crate::version::trimmed;

verus! {

/// The bytes of `[bumpversion]`.
pub open spec fn header_lit() -> Seq<u8> {
    seq![91u8, 98, 117, 109, 112, 118, 101, 114, 115, 105, 111, 110, 93]
}

/// The bytes of `current_version`.
pub open spec fn key_lit() -> Seq<u8> {
    seq![99u8, 117, 114, 114, 101, 110, 116, 95, 118, 101, 114, 115, 105, 111, 110]
}

fn header_bytes() -> (r: Vec<u8>)
    ensures
        r@ == header_lit(),
{
    let mut v: Vec<u8> = Vec::new();
    v.push(91u8);
    v.push(98u8);
    v.push(117u8);
    v.push(109u8);
    v.push(112u8);
    v.push(118u8);
    v.push(101u8);
    v.push(114u8);
    v.push(115u8);
    v.push(105u8);
    v.push(111u8);
    v.push(110u8);
    v.push(93u8);
    proof {
        assert(v@ =~= header_lit());
    }
    v
}

fn key_bytes() -> (r: Vec<u8>)
    ensures
        r@ == key_lit(),
{
    let mut v: Vec<u8> = Vec::new();
    v.push(99u8);
    v.push(117u8);
    v.push(114u8);
    v.push(114u8);
    v.push(101u8);
    v.push(110u8);
    v.push(116u8);
    v.push(95u8);
    v.push(118u8);
    v.push(101u8);
    v.push(114u8);
    v.push(115u8);
    v.push(105u8);
    v.push(111u8);
    v.push(110u8);
    proof {
        assert(v@ =~= key_lit());
    }
    v
}

/// The end of the whitespace run that starts at `i`.
pub open spec fn skip_ws(s: Seq<u8>, i: int) -> int
    decreases s.len() - i,
{
    if i < s.len() && is_ws(s[i]) {
        skip_ws(s, i + 1)
    } else {
        i
    }
}

/// The end of the digit run that starts at `i`.
pub open spec fn skip_digits(s: Seq<u8>, i: int) -> int
    decreases s.len() - i,
{
    if i < s.len() && is_digit(s[i]) {
        skip_digits(s, i + 1)
    } else {
        i
    }
}

/// Where the version value ends: the digit run from `d`, extended by at most
/// two further `.`‑and‑digit‑run groups, each run as long as possible.
pub open spec fn version_end(s: Seq<u8>, d: int) -> int {
    let e1 = skip_digits(s, d);
    if e1 < s.len() && s[e1] == 46 && e1 + 1 < s.len() && is_digit(s[e1 + 1]) {
        let e2 = skip_digits(s, e1 + 1);
        if e2 < s.len() && s[e2] == 46 && e2 + 1 < s.len() && is_digit(s[e2 + 1]) {
            skip_digits(s, e2 + 1)
        } else {
            e2
        }
    } else {
        e1
    }
}

/// The span `(start, end)` of the version value of a config assignment whose
/// header starts at `i`, if the grammar matches there.
pub open spec fn match_at(s: Seq<u8>, i: int) -> Option<(int, int)> {
    if !matches_at(s, header_lit(), i) {
        None
    } else {
        let j = skip_ws(s, i + 13);
        if !matches_at(s, key_lit(), j) {
            None
        } else {
            let k = skip_ws(s, j + 15);
            if !(k < s.len() && s[k] == 61) {
                None
            } else {
                let d = skip_ws(s, k + 1);
                if !(d < s.len() && is_digit(s[d])) {
                    None
                } else {
                    Some((d, version_end(s, d)))
                }
            }
        }
    }
}

/// The span of the leftmost config assignment at or after `i`.
pub open spec fn first_match(s: Seq<u8>, i: int) -> Option<(int, int)>
    decreases s.len() - i,
{
    if i >= s.len() {
        None
    } else if match_at(s, i) is Some {
        match_at(s, i)
    } else {
        first_match(s, i + 1)
    }
}

/// The current version the config content records, if any.
pub open spec fn config_version(s: Seq<u8>) -> Option<Seq<u8>> {
    match first_match(s, 0) {
        Some((a, b)) => Some(s.subrange(a, b)),
        None => None,
    }
}

/// Walks past whitespace.
fn skip_ws_exec(s: &[u8], from: usize) -> (r: usize)
    requires
        from <= s@.len(),
    ensures
        from <= r <= s@.len(),
        r as int == skip_ws(s@, from as int),
{
    let mut j: usize = from;
    while j < s.len() && is_ws_byte(s[j])
        invariant
            from <= j <= s@.len(),
            skip_ws(s@, from as int) == skip_ws(s@, j as int),
        decreases s@.len() - j,
    {
        j = j + 1;
    }
    j
}

/// Walks past decimal digits.
pub fn skip_digits_exec(s: &[u8], from: usize) -> (r: usize)
    requires
        from <= s@.len(),
    ensures
        from <= r <= s@.len(),
        r as int == skip_digits(s@, from as int),
{
    let mut j: usize = from;
    while j < s.len() && is_digit_byte(s[j])
        invariant
            from <= j <= s@.len(),
            skip_digits(s@, from as int) == skip_digits(s@, j as int),
        decreases s@.len() - j,
    {
        j = j + 1;
    }
    j
}

/// Computes where the version value starting at `d` ends.
fn version_end_exec(s: &[u8], d: usize) -> (r: usize)
    requires
        d <= s@.len(),
    ensures
        d <= r <= s@.len(),
        r as int == version_end(s@, d as int),
{
    let e1 = skip_digits_exec(s, d);
    if e1 < s.len() && s[e1] == 46 && e1 + 1 < s.len() && is_digit_byte(s[e1 + 1]) {
        let e2 = skip_digits_exec(s, e1 + 1);
        if e2 < s.len() && s[e2] == 46 && e2 + 1 < s.len() && is_digit_byte(s[e2 + 1]) {
            skip_digits_exec(s, e2 + 1)
        } else {
            e2
        }
    } else {
        e1
    }
}

/// Tries the grammar at position `i`.
fn match_at_exec(s: &[u8], i: usize, header: &Vec<u8>, key: &Vec<u8>) -> (r: Option<
    (usize, usize),
>)
    requires
        i <= s@.len(),
        header@ == header_lit(),
        key@ == key_lit(),
    ensures
        match r {
            Some(span) => {
                &&& match_at(s@, i as int) == Some((span.0 as int, span.1 as int))
                &&& span.0 <= span.1 <= s@.len()
            },
            None => match_at(s@, i as int) is None,
        },
{
    let n = s.len();
    if !slice_matches_at(s, header.as_slice(), i) {
        return None;
    }
    proof {
        assert(header_lit().len() == 13);
        assert(i + 13 <= n);
    }
    let j = skip_ws_exec(s, i + 13);
    if !slice_matches_at(s, key.as_slice(), j) {
        return None;
    }
    proof {
        assert(key_lit().len() == 15);
        assert(j + 15 <= n);
    }
    let k = skip_ws_exec(s, j + 15);
    if !(k < s.len() && s[k] == 61) {
        return None;
    }
    let d = skip_ws_exec(s, k + 1);
    if !(d < s.len() && is_digit_byte(s[d])) {
        return None;
    }
    let e = version_end_exec(s, d);
    Some((d, e))
}

/// Extracts the current version recorded in the config content: the value of
/// the leftmost `[bumpversion] … current_version = …` assignment.
pub fn get_current_version_from_config(config_content: &[u8]) -> (r: Option<Vec<u8>>)
    ensures
        match r {
            Some(v) => config_version(config_content@) == Some(v@),
            None => config_version(config_content@) is None,
        },
{
    let header = header_bytes();
    let key = key_bytes();
    let mut i: usize = 0;
    while i < config_content.len()
        invariant
            0 <= i <= config_content@.len(),
            header@ == header_lit(),
            key@ == key_lit(),
            first_match(config_content@, 0) == first_match(config_content@, i as int),
        decreases config_content@.len() - i,
    {
        match match_at_exec(config_content, i, &header, &key) {
            Some(span) => {
                proof {
                    assert(first_match(config_content@, i as int) == match_at(
                        config_content@,
                        i as int,
                    ));
                }
                return Some(copy_range(config_content, span.0, span.1));
            },
            None => {},
        }
        i = i + 1;
    }
    None
}

/// A line segment without its trailing carriage return.
pub open spec fn strip_cr(l: Seq<u8>) -> Seq<u8> {
    if l.len() > 0 && l.last() == 13 {
        l.drop_last()
    } else {
        l
    }
}

/// The lines of `s`: split at `\n`, a carriage return before the newline
/// stripped, the final line ending optional.
pub open spec fn lines_of(s: Seq<u8>) -> Seq<Seq<u8>>
    decreases s.len(),
    via lines_of_dec
{
    if s.len() == 0 {
        Seq::empty()
    } else {
        let n = byte_pos(s, 10);
        if n == s.len() {
            seq![s]
        } else {
            seq![strip_cr(s.take(n))] + lines_of(s.skip(n + 1))
        }
    }
}

#[via_fn]
proof fn lines_of_dec(s: Seq<u8>) {
    lemma_byte_pos_range(s, 10);
}

/// The bytes of `[bumpversion:file:`.
pub open spec fn file_prefix() -> Seq<u8> {
    seq![91u8, 98, 117, 109, 112, 118, 101, 114, 115, 105, 111, 110, 58, 102, 105, 108, 101, 58]
}

fn file_prefix_bytes() -> (r: Vec<u8>)
    ensures
        r@ == file_prefix(),
{
    let mut v: Vec<u8> = Vec::new();
    v.push(91u8);
    v.push(98u8);
    v.push(117u8);
    v.push(109u8);
    v.push(112u8);
    v.push(118u8);
    v.push(101u8);
    v.push(114u8);
    v.push(115u8);
    v.push(105u8);
    v.push(111u8);
    v.push(110u8);
    v.push(58u8);
    v.push(102u8);
    v.push(105u8);
    v.push(108u8);
    v.push(101u8);
    v.push(58u8);
    proof {
        assert(v@ =~= file_prefix());
    }
    v
}

/// The file a config line names: for a line that begins with the section
/// prefix, the text up to the first `]` (or the end of the line), trimmed.
pub open spec fn line_file(line: Seq<u8>) -> Option<Seq<u8>> {
    if matches_at(line, file_prefix(), 0) {
        let rest = line.skip(18);
        Some(trimmed(rest.take(byte_pos(rest, 93))))
    } else {
        None
    }
}

/// The files the config lines name, in order, duplicates kept.
pub open spec fn collect_files(ls: Seq<Seq<u8>>) -> Seq<Seq<u8>>
    decreases ls.len(),
{
    if ls.len() == 0 {
        Seq::empty()
    } else {
        let p = collect_files(ls.drop_last());
        match line_file(ls.last()) {
            Some(f) => p.push(f),
            None => p,
        }
    }
}

/// The file list with every repeated name dropped after its first
/// occurrence.
pub open spec fn dedup_names(ns: Seq<Seq<u8>>) -> Seq<Seq<u8>>
    decreases ns.len(),
{
    if ns.len() == 0 {
        ns
    } else {
        let p = dedup_names(ns.drop_last());
        if ns.drop_last().contains(ns.last()) {
            p
        } else {
            p.push(ns.last())
        }
    }
}

/// Dropping repeated names keeps exactly the same set of names.
proof fn lemma_dedup_names_contains(ns: Seq<Seq<u8>>, x: Seq<u8>)
    ensures
        dedup_names(ns).contains(x) <==> ns.contains(x),
    decreases ns.len(),
{
    if ns.len() > 0 {
        let d = ns.drop_last();
        lemma_dedup_names_contains(d, x);
        assert forall|i: int| 0 <= i < d.len() && d[i] == x implies ns.contains(x) by {
            assert(ns[i] == x);
        }
        if ns.contains(x) {
            let i = choose|i: int| 0 <= i < ns.len() && ns[i] == x;
            if i < d.len() {
                assert(d[i] == x);
                assert(d.contains(x));
            } else {
                assert(ns.last() == x);
            }
        }
        if ns.last() == x && !d.contains(x) {
            assert(dedup_names(ns) == dedup_names(d).push(x));
            assert(dedup_names(ns).last() == x);
            assert(dedup_names(ns).contains(x));
        }
        if dedup_names(ns).contains(x) {
            if d.contains(x) {
            } else if ns.last() == x {
            } else {
                assert(dedup_names(ns) == dedup_names(d));
            }
        }
        if ns.contains(x) && !d.contains(x) {
            assert(ns.last() == x);
        }
        assert forall|i: int|
            0 <= i < dedup_names(d).len() && dedup_names(ns) == dedup_names(d).push(
                ns.last(),
            ) && dedup_names(d)[i] == x implies dedup_names(ns).contains(x) by {
            assert(dedup_names(ns)[i] == x);
        }
    }
}

/// Splits content into its lines.
fn split_lines(s: &[u8]) -> (r: Vec<Vec<u8>>)
    ensures
        names_view(r@) == lines_of(s@),
{
    let mut out: Vec<Vec<u8>> = Vec::new();
    let mut pos: usize = 0;
    proof {
        assert(s@.skip(0) =~= s@);
        assert(names_view(out@) =~= Seq::<Seq<u8>>::empty());
    }
    while pos < s.len()
        invariant
            0 <= pos <= s@.len(),
            lines_of(s@) == names_view(out@) + lines_of(s@.skip(pos as int)),
        decreases s@.len() - pos,
    {
        let ghost u = s@.skip(pos as int);
        let ghost prev = out@;
        let nl = find_byte(s, pos, 10);
        let ghost n = nl - pos;
        proof {
            assert(u.len() > 0);
        }
        if nl == s.len() {
            let seg = copy_range(s, pos, s.len());
            proof {
                assert(n == u.len());
                assert(lines_of(u) == seq![u]);
                assert(seg@ =~= u);
            }
            out.push(seg);
            proof {
                lemma_names_view_push(prev, out@, out@.last());
                assert(s@.skip(s@.len() as int) =~= Seq::<u8>::empty());
                assert(lines_of(s@) =~= names_view(out@) + lines_of(
                    s@.skip(s@.len() as int),
                ));
            }
            pos = s.len();
        } else {
            let mut end = nl;
            proof {
                assert(u.take(n) =~= s@.subrange(pos as int, nl as int));
                assert(u[n] == s@[nl as int]);
            }
            if end > pos && s[end - 1] == 13 {
                end = end - 1;
            }
            let seg = copy_range(s, pos, end);
            proof {
                let raw = u.take(n);
                if raw.len() > 0 && raw.last() == 13 {
                    assert(raw.drop_last() =~= s@.subrange(pos as int, nl as int - 1));
                    assert(seg@ =~= strip_cr(raw));
                } else {
                    assert(seg@ =~= strip_cr(raw));
                }
                assert(lines_of(u) == seq![strip_cr(raw)] + lines_of(u.skip(n + 1)));
                assert(u.skip(n + 1) =~= s@.skip(nl + 1));
            }
            out.push(seg);
            proof {
                lemma_names_view_push(prev, out@, out@.last());
                assert(lines_of(s@) =~= names_view(out@) + lines_of(s@.skip(nl + 1)));
            }
            pos = nl + 1;
        }
    }
    proof {
        assert(s@.skip(pos as int) =~= Seq::<u8>::empty());
        assert(lines_of(s@) =~= names_view(out@));
    }
    out
}

/// Reads the files named by `[bumpversion:file:…]` sections, in first-
/// occurrence order, each file once.
pub fn read_files_from_config(config_content: &[u8]) -> (r: Vec<Vec<u8>>)
    ensures
        names_view(r@) == dedup_names(collect_files(lines_of(config_content@))),
{
    let lines = split_lines(config_content);
    let prefix = file_prefix_bytes();
    let ghost ls = names_view(lines@);
    let mut out: Vec<Vec<u8>> = Vec::new();
    let mut t: usize = 0;
    proof {
        assert(ls.take(0) =~= Seq::<Seq<u8>>::empty());
        assert(names_view(out@) =~= dedup_names(collect_files(ls.take(0))));
    }
    while t < lines.len()
        invariant
            0 <= t <= lines@.len(),
            ls == names_view(lines@),
            ls.len() == lines@.len(),
            prefix@ == file_prefix(),
            names_view(out@) == dedup_names(collect_files(ls.take(t as int))),
        decreases lines@.len() - t,
    {
        let line = lines[t].as_slice();
        let ghost prev = out@;
        let ghost done = collect_files(ls.take(t as int));
        proof {
            assert(ls[t as int] == lines@[t as int]@);
            assert(ls.take(t + 1).drop_last() =~= ls.take(t as int));
            assert(ls.take(t + 1).last() == ls[t as int]);
        }
        if slice_matches_at(line, prefix.as_slice(), 0) {
            proof {
                assert(file_prefix().len() == 18);
            }
            let c = find_byte(line, 18, 93);
            let name = trim_copy(copy_range(line, 18, c).as_slice());
            proof {
                let rest = ls[t as int].skip(18);
                assert(rest.take(byte_pos(rest, 93)) =~= line@.subrange(18, c as int));
                assert(line_file(ls[t as int]) == Some(name@));
                assert(collect_files(ls.take(t + 1)) == done.push(name@));
                assert(collect_files(ls.take(t + 1)).drop_last() =~= done);
                assert(dedup_names(done.push(name@)) == if done.contains(name@) {
                    dedup_names(done)
                } else {
                    dedup_names(done).push(name@)
                });
                lemma_dedup_names_contains(done, name@);
            }
            if !crate::repo::names_contain(&out, name.as_slice()) {
                out.push(name);
                proof {
                    lemma_names_view_push(prev, out@, out@.last());
                }
            }
        } else {
            proof {
                assert(line_file(ls[t as int]) is None);
                assert(collect_files(ls.take(t + 1)) == done);
            }
        }
        t = t + 1;
    }
    proof {
        assert(ls.take(t as int) =~= ls);
        assert(names_view(lines@) == lines_of(config_content@));
    }
    out
}

} // verus!
