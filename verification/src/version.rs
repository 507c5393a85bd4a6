//! The version bumper: extract the component order from the serialization
//! template, increment the target component, reset the ones after it, and
//! render the template with the new values.
//!
//! A parsed version is a list of `(name, value)` byte-string pairs in the
//! order the pattern captured them; the serialization template is a byte
//! string in which `{name}` marks a component to substitute.

use vstd::prelude::*;

use crate::text::bytes_eq;
use crate::text::copy_bytes;
use crate::text::is_digit_byte;
use crate::text::is_digit;
use crate::text::is_numeral;
use crate::text::bumpable_numeral;
use crate::text::numeral_bytes;
use crate::text::numeral_of;
use crate::text::numeral_value;
use crate::text::parse_numeral;
use crate::pattern::captures_of;
use crate::pattern::regex_named_captures;
use crate::BumpError;

verus! {

/// The views of a list of `(name, value)` pairs.
pub open spec fn pairs_view(s: Seq<(Vec<u8>, Vec<u8>)>) -> Seq<(Seq<u8>, Seq<u8>)> {
    s.map_values(|p: (Vec<u8>, Vec<u8>)| (p.0@, p.1@))
}

/// The views of a list of names.
pub open spec fn names_view(s: Seq<Vec<u8>>) -> Seq<Seq<u8>> {
    s.map_values(|n: Vec<u8>| n@)
}

/// The value of the first pair named `name`, if any.
pub open spec fn lookup(ps: Seq<(Seq<u8>, Seq<u8>)>, name: Seq<u8>) -> Option<Seq<u8>>
    decreases ps.len(),
{
    if ps.len() == 0 {
        None
    } else if ps[0].0 == name {
        Some(ps[0].1)
    } else {
        lookup(ps.skip(1), name)
    }
}

/// No two pairs share a name.
pub open spec fn distinct_names(ps: Seq<(Seq<u8>, Seq<u8>)>) -> bool {
    forall|i: int, j: int| 0 <= i < j < ps.len() ==> ps[i].0 != ps[j].0
}

/// The index of the first occurrence of `name`, or `order.len()` when absent.
pub open spec fn first_index(order: Seq<Seq<u8>>, name: Seq<u8>) -> int
    decreases order.len(),
{
    if order.len() == 0 {
        0
    } else if order[0] == name {
        0
    } else {
        1 + first_index(order.skip(1), name)
    }
}

/// `name` occurs in `order`.
pub open spec fn order_contains(order: Seq<Seq<u8>>, name: Seq<u8>) -> bool {
    first_index(order, name) < order.len()
}

/// The view of a list with one more name is the view with that name's view.
pub proof fn lemma_names_view_push(prev: Seq<Vec<u8>>, cur: Seq<Vec<u8>>, x: Vec<u8>)
    requires
        cur == prev.push(x),
    ensures
        names_view(cur) == names_view(prev).push(x@),
{
    assert forall|j: int| 0 <= j < cur.len() implies names_view(cur)[j] == names_view(prev).push(
        x@,
    )[j] by {
        if j < prev.len() {
            assert(cur[j] == prev[j]);
        } else {
            assert(cur[j] == x);
        }
    }
    assert(names_view(cur) =~= names_view(prev).push(x@));
}

/// Finds the first pair with the given name.
pub fn find_pair(parts: &Vec<(Vec<u8>, Vec<u8>)>, name: &[u8]) -> (r: Option<usize>)
    ensures
        match r {
            Some(k) => {
                &&& k < parts@.len()
                &&& parts@[k as int].0@ == name@
                &&& lookup(pairs_view(parts@), name@) == Some(parts@[k as int].1@)
            },
            None => lookup(pairs_view(parts@), name@) is None,
        },
{
    let ghost ps = pairs_view(parts@);
    proof {
        assert(ps.skip(0) =~= ps);
    }
    let mut k: usize = 0;
    while k < parts.len()
        invariant
            0 <= k <= parts@.len(),
            ps == pairs_view(parts@),
            ps.len() == parts@.len(),
            forall|j: int| 0 <= j < k ==> ps[j].0 != name@,
            lookup(ps, name@) == lookup(ps.skip(k as int), name@),
        decreases parts@.len() - k,
    {
        if bytes_eq(parts[k].0.as_slice(), name) {
            proof {
                assert(ps.skip(k as int)[0] == ps[k as int]);
                assert(lookup(ps.skip(k as int), name@) == Some(ps[k as int].1));
            }
            return Some(k);
        }
        proof {
            assert(ps.skip(k as int)[0] == ps[k as int]);
            assert(ps.skip(k as int).skip(1) =~= ps.skip(k as int + 1));
        }
        k = k + 1;
    }
    proof {
        assert(ps.skip(k as int) =~= Seq::<(Seq<u8>, Seq<u8>)>::empty());
    }
    None
}

/// Finds the first occurrence of `name` in `order`; `order.len()` when absent.
pub fn find_name(order: &Vec<Vec<u8>>, name: &[u8]) -> (r: usize)
    ensures
        r as int == first_index(names_view(order@), name@),
        r <= order@.len(),
{
    let ghost ns = names_view(order@);
    proof {
        assert(ns.skip(0) =~= ns);
    }
    let mut k: usize = 0;
    while k < order.len()
        invariant
            0 <= k <= order@.len(),
            ns == names_view(order@),
            ns.len() == order@.len(),
            forall|j: int| 0 <= j < k ==> ns[j] != name@,
            first_index(ns, name@) == k + first_index(ns.skip(k as int), name@),
        decreases order@.len() - k,
    {
        if bytes_eq(order[k].as_slice(), name) {
            proof {
                assert(ns.skip(k as int)[0] == ns[k as int]);
            }
            return k;
        }
        proof {
            assert(ns.skip(k as int)[0] == ns[k as int]);
            assert(ns.skip(k as int).skip(1) =~= ns.skip(k as int + 1));
        }
        k = k + 1;
    }
    proof {
        assert(ns.skip(k as int) =~= Seq::<Seq<u8>>::empty());
    }
    k
}

/// ASCII whitespace, as both the template names and the config lines use it.
pub open spec fn is_ws(b: u8) -> bool {
    b == 32 || (9 <= b && b <= 13)
}

/// `s` without its leading whitespace.
pub open spec fn trim_front(s: Seq<u8>) -> Seq<u8>
    decreases s.len(),
{
    if s.len() > 0 && is_ws(s[0]) {
        trim_front(s.skip(1))
    } else {
        s
    }
}

/// `s` without its trailing whitespace.
pub open spec fn trim_back(s: Seq<u8>) -> Seq<u8>
    decreases s.len(),
{
    if s.len() > 0 && is_ws(s.last()) {
        trim_back(s.drop_last())
    } else {
        s
    }
}

/// `s` without leading and trailing whitespace.
pub open spec fn trimmed(s: Seq<u8>) -> Seq<u8> {
    trim_back(trim_front(s))
}

/// Copies `s[lo..hi]` into a fresh vector.
pub fn copy_range(s: &[u8], lo: usize, hi: usize) -> (r: Vec<u8>)
    requires
        lo <= hi <= s@.len(),
    ensures
        r@ == s@.subrange(lo as int, hi as int),
{
    let mut out: Vec<u8> = Vec::new();
    let mut i: usize = lo;
    while i < hi
        invariant
            lo <= i <= hi <= s@.len(),
            out@ =~= s@.subrange(lo as int, i as int),
        decreases hi - i,
    {
        out.push(s[i]);
        proof {
            assert(out@ =~= s@.subrange(lo as int, i + 1));
        }
        i = i + 1;
    }
    out
}

/// Is `b` ASCII whitespace?
pub fn is_ws_byte(b: u8) -> (r: bool)
    ensures
        r == is_ws(b),
{
    b == 32 || (9 <= b && b <= 13)
}

/// Copies `s` without its leading and trailing ASCII whitespace.
pub fn trim_copy(s: &[u8]) -> (r: Vec<u8>)
    ensures
        r@ == trimmed(s@),
{
    let mut a: usize = 0;
    proof {
        assert(s@.skip(0) =~= s@);
    }
    while a < s.len() && is_ws_byte(s[a])
        invariant
            0 <= a <= s@.len(),
            trim_front(s@) == trim_front(s@.skip(a as int)),
            forall|j: int| 0 <= j < a ==> is_ws(s@[j]),
        decreases s@.len() - a,
    {
        proof {
            assert(s@.skip(a as int).skip(1) =~= s@.skip(a as int + 1));
        }
        a = a + 1;
    }
    proof {
        assert(trim_front(s@.skip(a as int)) == s@.skip(a as int));
    }
    let mut b: usize = s.len();
    while b > a && is_ws_byte(s[b - 1])
        invariant
            a <= b <= s@.len(),
            trim_back(s@.skip(a as int)) == trim_back(s@.subrange(a as int, b as int)),
        decreases b,
    {
        proof {
            let cur = s@.subrange(a as int, b as int);
            assert(cur.len() > 0 && is_ws(cur.last()));
            assert(cur.drop_last() =~= s@.subrange(a as int, b as int - 1));
        }
        b = b - 1;
    }
    proof {
        let cur = s@.subrange(a as int, b as int);
        assert(trim_back(cur) == cur);
    }
    copy_range(s, a, b)
}

/// The position of the first `}` in `s`, or `s.len()` when there is none.
pub open spec fn close_pos(s: Seq<u8>) -> int
    decreases s.len(),
{
    if s.len() == 0 {
        0
    } else if s[0] == 125 {
        0
    } else {
        1 + close_pos(s.skip(1))
    }
}

proof fn lemma_close_pos_range(s: Seq<u8>)
    ensures
        0 <= close_pos(s) <= s.len(),
        close_pos(s) < s.len() ==> s[close_pos(s)] == 125,
        forall|j: int| 0 <= j < close_pos(s) ==> s[j] != 125,
    decreases s.len(),
{
    if s.len() > 0 && s[0] != 125 {
        lemma_close_pos_range(s.skip(1));
        assert forall|j: int| 0 <= j < close_pos(s) implies s[j] != 125 by {
            if j > 0 {
                assert(s.skip(1)[j - 1] == s[j]);
            }
        }
        if close_pos(s) < s.len() {
            assert(s.skip(1)[close_pos(s) - 1] == s[close_pos(s)]);
        }
    }
}

/// Finds the first `}` at or after `from`; `t.len()` when there is none.
fn find_close(t: &[u8], from: usize) -> (r: usize)
    requires
        from <= t@.len(),
    ensures
        from <= r <= t@.len(),
        r - from == close_pos(t@.skip(from as int)),
{
    let mut j: usize = from;
    while j < t.len() && t[j] != 125
        invariant
            from <= j <= t@.len(),
            close_pos(t@.skip(from as int)) == (j - from) + close_pos(t@.skip(j as int)),
        decreases t@.len() - j,
    {
        proof {
            assert(t@.skip(j as int)[0] == t@[j as int]);
            assert(t@.skip(j as int).skip(1) =~= t@.skip(j as int + 1));
        }
        j = j + 1;
    }
    proof {
        if j < t@.len() {
            assert(t@.skip(j as int)[0] == t@[j as int]);
        } else {
            assert(t@.skip(j as int) =~= Seq::<u8>::empty());
        }
    }
    j
}

/// The component names of a template: the contents of each `{`…`}` pair in
/// first-occurrence order, trimmed of whitespace; an unclosed `{` opens a
/// final name that runs to the end of the template.
pub open spec fn order_spec(t: Seq<u8>) -> Seq<Seq<u8>>
    decreases t.len(),
    via order_spec_dec
{
    if t.len() == 0 {
        Seq::empty()
    } else if t[0] == 123 {
        let rest = t.skip(1);
        let c = close_pos(rest);
        let name = trimmed(rest.take(c));
        let after = if c < rest.len() {
            rest.skip(c + 1)
        } else {
            Seq::<u8>::empty()
        };
        seq![name] + order_spec(after)
    } else {
        order_spec(t.skip(1))
    }
}

#[via_fn]
proof fn order_spec_dec(t: Seq<u8>) {
    if t.len() > 0 && t[0] == 123 {
        lemma_close_pos_range(t.skip(1));
    }
}

/// The template rendered with the given component values, `None` when a name
/// the template references has no value.
pub open spec fn rendered(t: Seq<u8>, ps: Seq<(Seq<u8>, Seq<u8>)>) -> Option<Seq<u8>>
    decreases t.len(),
    via rendered_dec
{
    if t.len() == 0 {
        Some(Seq::empty())
    } else if t[0] == 123 {
        let rest = t.skip(1);
        let c = close_pos(rest);
        let name = trimmed(rest.take(c));
        let after = if c < rest.len() {
            rest.skip(c + 1)
        } else {
            Seq::<u8>::empty()
        };
        match lookup(ps, name) {
            Some(v) => match rendered(after, ps) {
                Some(r2) => Some(v + r2),
                None => None,
            },
            None => None,
        }
    } else {
        match rendered(t.skip(1), ps) {
            Some(r2) => Some(seq![t[0]] + r2),
            None => None,
        }
    }
}

#[via_fn]
proof fn rendered_dec(t: Seq<u8>, ps: Seq<(Seq<u8>, Seq<u8>)>) {
    if t.len() > 0 && t[0] == 123 {
        lemma_close_pos_range(t.skip(1));
    }
}

/// Extracts the component names a template mentions, in order.
pub fn template_order(t: &[u8]) -> (r: Vec<Vec<u8>>)
    ensures
        names_view(r@) == order_spec(t@),
{
    let mut out: Vec<Vec<u8>> = Vec::new();
    let mut i: usize = 0;
    proof {
        assert(t@.skip(0) =~= t@);
        assert(names_view(out@) + order_spec(t@) =~= order_spec(t@));
    }
    while i < t.len()
        invariant
            0 <= i <= t@.len(),
            order_spec(t@) == names_view(out@) + order_spec(t@.skip(i as int)),
        decreases t@.len() - i,
    {
        let ghost rest0 = t@.skip(i as int);
        let ghost old_out = out@;
        if t[i] == 123 {
            let c = find_close(t, i + 1);
            let name = trim_copy(copy_range(t, i + 1, c).as_slice());
            out.push(name);
            proof {
                let rest = rest0.skip(1);
                assert(rest =~= t@.skip(i as int + 1));
                let cp = close_pos(rest);
                assert(cp == c - (i + 1));
                assert(rest.take(cp) =~= t@.subrange(i as int + 1, c as int));
                assert(name@ == trimmed(rest.take(cp)));
                let after = if cp < rest.len() {
                    rest.skip(cp + 1)
                } else {
                    Seq::<u8>::empty()
                };
                assert(order_spec(rest0) == seq![name@] + order_spec(after));
                assert(names_view(out@) =~= names_view(old_out) + seq![name@]);
                if cp < rest.len() {
                    assert(after =~= t@.skip(c as int + 1));
                } else {
                    assert(t@.skip(t@.len() as int) =~= Seq::<u8>::empty());
                }
                assert(order_spec(t@) == names_view(out@) + order_spec(after));
            }
            if c < t.len() {
                i = c + 1;
            } else {
                i = t.len();
                proof {
                    assert(t@.skip(i as int) =~= Seq::<u8>::empty());
                }
            }
        } else {
            proof {
                assert(rest0[0] == t@[i as int]);
                assert(rest0.skip(1) =~= t@.skip(i as int + 1));
                assert(order_spec(rest0) == order_spec(t@.skip(i as int + 1)));
            }
            i = i + 1;
        }
    }
    proof {
        assert(t@.skip(i as int) =~= Seq::<u8>::empty());
        assert(names_view(out@) + Seq::<Seq<u8>>::empty() =~= names_view(out@));
    }
    out
}

/// The continuation `o` with `prefix` prepended when it succeeded.
pub open spec fn opt_prepend(prefix: Seq<u8>, o: Option<Seq<u8>>) -> Option<Seq<u8>> {
    match o {
        Some(x) => Some(prefix + x),
        None => None,
    }
}

/// Renders the template with the given component values.  Succeeds exactly
/// when every name the template references has a value.
pub fn render_template(t: &[u8], parts: &Vec<(Vec<u8>, Vec<u8>)>) -> (r: Result<
    Vec<u8>,
    BumpError,
>)
    ensures
        match r {
            Ok(out) => rendered(t@, pairs_view(parts@)) == Some(out@),
            Err(e) => rendered(t@, pairs_view(parts@)) is None && e == BumpError::Serialization,
        },
{
    let ghost ps = pairs_view(parts@);
    let mut out: Vec<u8> = Vec::new();
    let mut i: usize = 0;
    proof {
        assert(t@.skip(0) =~= t@);
        assert(opt_prepend(Seq::<u8>::empty(), rendered(t@, ps)) == rendered(t@, ps));
    }
    while i < t.len()
        invariant
            0 <= i <= t@.len(),
            ps == pairs_view(parts@),
            rendered(t@, ps) == opt_prepend(out@, rendered(t@.skip(i as int), ps)),
        decreases t@.len() - i,
    {
        let ghost rest0 = t@.skip(i as int);
        let ghost old_out = out@;
        if t[i] == 123 {
            let c = find_close(t, i + 1);
            let name = trim_copy(copy_range(t, i + 1, c).as_slice());
            let ghost rest = rest0.skip(1);
            let ghost cp = close_pos(rest);
            proof {
                assert(rest =~= t@.skip(i as int + 1));
                assert(cp == c - (i + 1));
                assert(rest.take(cp) =~= t@.subrange(i as int + 1, c as int));
                assert(name@ == trimmed(rest.take(cp)));
            }
            let ghost after = if cp < rest.len() {
                rest.skip(cp + 1)
            } else {
                Seq::<u8>::empty()
            };
            match find_pair(parts, name.as_slice()) {
                None => {
                    proof {
                        assert(rendered(rest0, ps) is None);
                        assert(rendered(t@, ps) is None);
                    }
                    return Err(BumpError::Serialization);
                },
                Some(k) => {
                    let v = &parts[k].1;
                    let mut x: usize = 0;
                    while x < v.len()
                        invariant
                            0 <= x <= v@.len(),
                            out@ =~= old_out + v@.take(x as int),
                        decreases v@.len() - x,
                    {
                        out.push(v[x]);
                        x = x + 1;
                    }
                    proof {
                        assert(out@ =~= old_out + v@);
                        assert(lookup(ps, name@) == Some(v@));
                        assert(rendered(rest0, ps) == opt_prepend(v@, rendered(after, ps)));
                        if cp < rest.len() {
                            assert(after =~= t@.skip(c as int + 1));
                        } else {
                            assert(t@.skip(t@.len() as int) =~= Seq::<u8>::empty());
                        }
                        assert(rendered(t@, ps) == opt_prepend(
                            out@,
                            rendered(
                                if c < t@.len() {
                                    t@.skip(c as int + 1)
                                } else {
                                    t@.skip(t@.len() as int)
                                },
                                ps,
                            ),
                        ));
                    }
                    if c < t.len() {
                        i = c + 1;
                    } else {
                        i = t.len();
                    }
                },
            }
        } else {
            out.push(t[i]);
            proof {
                assert(rest0[0] == t@[i as int]);
                assert(rest0.skip(1) =~= t@.skip(i as int + 1));
                assert(rendered(rest0, ps) == opt_prepend(
                    seq![t@[i as int]],
                    rendered(t@.skip(i as int + 1), ps),
                ));
                assert(out@ =~= old_out + seq![t@[i as int]]);
                assert(rendered(t@, ps) == opt_prepend(out@, rendered(t@.skip(i as int + 1), ps)));
            }
            i = i + 1;
        }
    }
    proof {
        assert(t@.skip(i as int) =~= Seq::<u8>::empty());
        assert(rendered(Seq::<u8>::empty(), ps) == Some(Seq::<u8>::empty()));
        assert(rendered(t@, ps) == Some(out@));
    }
    Ok(out)
}

/// The bump applies only when the target component occurs in the template
/// and the pattern captured a value for it; otherwise there is no new
/// version and the pipeline stops without error.
pub open spec fn target_active(
    ps: Seq<(Seq<u8>, Seq<u8>)>,
    order: Seq<Seq<u8>>,
    target: Seq<u8>,
) -> bool {
    order_contains(order, target) && lookup(ps, target) is Some
}

/// A component strictly after the target in template order is reset to zero.
pub open spec fn resets(order: Seq<Seq<u8>>, target: Seq<u8>, name: Seq<u8>) -> bool {
    order_contains(order, name) && first_index(order, target) < first_index(order, name)
}

/// The value of the component `name`, holding `v`, after bumping `target`:
/// the target is incremented, components after it are reset to `"0"`, and
/// components before it or outside the template order keep their value.
pub open spec fn bumped_value(
    order: Seq<Seq<u8>>,
    target: Seq<u8>,
    name: Seq<u8>,
    v: Seq<u8>,
) -> Seq<u8> {
    if name == target {
        numeral_of((numeral_value(v) + 1) as nat)
    } else if resets(order, target, name) {
        seq![48u8]
    } else {
        v
    }
}

/// All components after bumping `target`.
pub open spec fn bumped_parts(
    ps: Seq<(Seq<u8>, Seq<u8>)>,
    order: Seq<Seq<u8>>,
    target: Seq<u8>,
) -> Seq<(Seq<u8>, Seq<u8>)> {
    ps.map_values(|p: (Seq<u8>, Seq<u8>)| (p.0, bumped_value(order, target, p.0, p.1)))
}

/// Bumps the target component of a parsed version.  Returns `Ok(None)` when
/// the target is not an active component (no new version, not an error),
/// `Err` when the target's value is not an incrementable numeral, and the
/// fully bumped component list otherwise.
pub fn bump_version_parts(
    parts: &Vec<(Vec<u8>, Vec<u8>)>,
    order: &Vec<Vec<u8>>,
    target: &[u8],
) -> (r: Result<Option<Vec<(Vec<u8>, Vec<u8>)>>, BumpError>)
    requires
        distinct_names(pairs_view(parts@)),
    ensures
        ({
            let ps = pairs_view(parts@);
            let ord = names_view(order@);
            &&& (!target_active(ps, ord, target@) ==> (r matches Ok(o) && o is None))
            &&& (target_active(ps, ord, target@) ==> {
                let v = lookup(ps, target@)->Some_0;
                if bumpable_numeral(v) {
                    &&& r matches Ok(o)
                    &&& o matches Some(np)
                    &&& pairs_view(np@) == bumped_parts(ps, ord, target@)
                } else {
                    r == Err::<Option<Vec<(Vec<u8>, Vec<u8>)>>, BumpError>(
                        BumpError::NonNumericComponent,
                    )
                }
            })
        }),
{
    let ghost ps = pairs_view(parts@);
    let ghost ord = names_view(order@);
    let ti = find_name(order, target);
    if ti == order.len() {
        return Ok(None);
    }
    let k = match find_pair(parts, target) {
        None => {
            return Ok(None);
        },
        Some(k) => k,
    };
    let n = match parse_numeral(parts[k].1.as_slice()) {
        None => {
            return Err(BumpError::NonNumericComponent);
        },
        Some(n) => n,
    };
    if n == u64::MAX {
        return Err(BumpError::NonNumericComponent);
    }
    let nb = numeral_bytes(n + 1);
    let mut out: Vec<(Vec<u8>, Vec<u8>)> = Vec::new();
    let mut idx: usize = 0;
    while idx < parts.len()
        invariant
            0 <= idx <= parts@.len(),
            ps == pairs_view(parts@),
            ord == names_view(order@),
            ps.len() == parts@.len(),
            distinct_names(ps),
            target_active(ps, ord, target@),
            ti as int == first_index(ord, target@),
            ti < ord.len(),
            k < parts@.len(),
            parts@[k as int].0@ == target@,
            lookup(ps, target@) == Some(parts@[k as int].1@),
            nb@ == numeral_of((numeral_value(lookup(ps, target@)->Some_0) + 1) as nat),
            pairs_view(out@) == bumped_parts(ps, ord, target@).take(idx as int),
        decreases parts@.len() - idx,
    {
        let name = copy_bytes(parts[idx].0.as_slice());
        let ghost prev_out = out@;
        let ghost expect = bumped_parts(ps, ord, target@)[idx as int];
        proof {
            assert(ps[idx as int] == (parts@[idx as int].0@, parts@[idx as int].1@));
            assert(name@ == ps[idx as int].0);
            assert(expect == (ps[idx as int].0, bumped_value(
                ord,
                target@,
                ps[idx as int].0,
                ps[idx as int].1,
            )));
        }
        if bytes_eq(name.as_slice(), target) {
            proof {
                assert(ps[k as int] == (parts@[k as int].0@, parts@[k as int].1@));
                if idx != k {
                    assert(ps[idx as int].0 == ps[k as int].0);
                    assert(false);
                }
            }
            out.push((name, copy_bytes(nb.as_slice())));
        } else {
            let ni = find_name(order, name.as_slice());
            if ni < order.len() && ti < ni {
                let mut zero: Vec<u8> = Vec::new();
                zero.push(48u8);
                proof {
                    assert(zero@ =~= seq![48u8]);
                    assert(resets(ord, target@, ps[idx as int].0));
                }
                out.push((name, zero));
            } else {
                proof {
                    assert(!resets(ord, target@, ps[idx as int].0));
                }
                let value = copy_bytes(parts[idx].1.as_slice());
                out.push((name, value));
            }
        }
        proof {
            let bp = bumped_parts(ps, ord, target@);
            assert(pairs_view(prev_out).len() == prev_out.len());
            assert(bp.take(idx as int).len() == idx);
            assert(prev_out.len() == idx);
            assert(out@.len() == idx + 1);
            assert(pairs_view(out@)[idx as int] == (out@[idx as int].0@, out@[idx as int].1@));
            assert(out@[idx as int].0@ == expect.0);
            assert(out@[idx as int].1@ == expect.1);
            assert(pairs_view(out@)[idx as int] == expect);
            assert forall|i: int| 0 <= i < idx + 1 implies pairs_view(out@)[i] == bp.take(
                idx + 1,
            )[i] by {
                assert(bp.take(idx + 1)[i] == bp[i]);
                assert(pairs_view(out@)[i] == (out@[i].0@, out@[i].1@));
                if i < idx {
                    assert(out@[i] == prev_out[i]);
                    assert(pairs_view(prev_out)[i] == (prev_out[i].0@, prev_out[i].1@));
                    assert(pairs_view(prev_out)[i] == bp.take(idx as int)[i]);
                    assert(bp.take(idx as int)[i] == bp[i]);
                }
            }
            assert(pairs_view(out@) =~= bp.take(idx + 1));
        }
        idx = idx + 1;
    }
    proof {
        assert(bumped_parts(ps, ord, target@).take(parts@.len() as int) =~= bumped_parts(
            ps,
            ord,
            target@,
        ));
        assert(pairs_view(out@) == bumped_parts(ps, ord, target@));
    }
    Ok(Some(out))
}

/// The capture list with every repeated name dropped after its first
/// occurrence.
pub open spec fn dedup_spec(ps: Seq<(Seq<u8>, Seq<u8>)>) -> Seq<(Seq<u8>, Seq<u8>)>
    decreases ps.len(),
{
    if ps.len() == 0 {
        ps
    } else {
        let prefix = dedup_spec(ps.drop_last());
        if lookup(ps.drop_last(), ps.last().0) is Some {
            prefix
        } else {
            prefix.push(ps.last())
        }
    }
}

/// A name that stands at some index is found by `lookup`.
pub proof fn lemma_lookup_some(ps: Seq<(Seq<u8>, Seq<u8>)>, i: int)
    requires
        0 <= i < ps.len(),
    ensures
        lookup(ps, ps[i].0) is Some,
    decreases ps.len(),
{
    if ps[0].0 != ps[i].0 {
        assert(ps.skip(1)[i - 1] == ps[i]);
        lemma_lookup_some(ps.skip(1), i - 1);
    }
}

/// Looking a name up in `s.push(x)` finds the earlier pair when one exists.
pub proof fn lemma_lookup_push(s: Seq<(Seq<u8>, Seq<u8>)>, x: (Seq<u8>, Seq<u8>), n: Seq<u8>)
    ensures
        lookup(s.push(x), n) == if lookup(s, n) is Some {
            lookup(s, n)
        } else if x.0 == n {
            Some(x.1)
        } else {
            None::<Seq<u8>>
        },
    decreases s.len(),
{
    let q = s.push(x);
    if s.len() == 0 {
        assert(q[0] == x);
        assert(q.skip(1) =~= Seq::<(Seq<u8>, Seq<u8>)>::empty());
        assert(lookup(q.skip(1), n) is None);
        if x.0 == n {
            assert(lookup(q, n) == Some(x.1));
        } else {
            assert(lookup(q, n) is None);
        }
    } else {
        assert(q[0] == s[0]);
        assert(q.skip(1) =~= s.skip(1).push(x));
        lemma_lookup_push(s.skip(1), x, n);
        assert(lookup(q.skip(1), n) == lookup(s.skip(1).push(x), n));
        if s[0].0 == n {
            assert(lookup(q, n) == Some(s[0].1));
            assert(lookup(s, n) == Some(s[0].1));
        } else {
            assert(lookup(q, n) == lookup(q.skip(1), n));
            assert(lookup(s, n) == lookup(s.skip(1), n));
        }
    }
}

/// Dropping repeated names does not change what any name looks up to.
proof fn lemma_dedup_lookup(ps: Seq<(Seq<u8>, Seq<u8>)>, n: Seq<u8>)
    ensures
        lookup(dedup_spec(ps), n) == lookup(ps, n),
    decreases ps.len(),
{
    if ps.len() > 0 {
        let d = ps.drop_last();
        let x = ps.last();
        lemma_dedup_lookup(d, n);
        assert(d.push(x) =~= ps);
        lemma_lookup_push(d, x, n);
        if lookup(d, x.0) is Some {
            assert(dedup_spec(ps) == dedup_spec(d));
        } else {
            assert(dedup_spec(ps) == dedup_spec(d).push(x));
            lemma_lookup_push(dedup_spec(d), x, n);
        }
    }
}

/// The deduplicated list has distinct names.
proof fn lemma_dedup_distinct(ps: Seq<(Seq<u8>, Seq<u8>)>)
    ensures
        distinct_names(dedup_spec(ps)),
        forall|i: int| #![all_triggers] 0 <= i < dedup_spec(ps).len() ==> lookup(
            ps,
            dedup_spec(ps)[i].0,
        ) is Some,
    decreases ps.len(),
{
    if ps.len() > 0 {
        let d = ps.drop_last();
        let x = ps.last();
        lemma_dedup_distinct(d);
        assert forall|i: int| #![all_triggers] 0 <= i < dedup_spec(ps).len() implies lookup(
            ps,
            dedup_spec(ps)[i].0,
        ) is Some by {
            assert(d.push(x) =~= ps);
            if lookup(d, x.0) is Some {
                lemma_lookup_push(d, x, dedup_spec(d)[i].0);
            } else {
                if i < dedup_spec(d).len() {
                    lemma_lookup_push(d, x, dedup_spec(d)[i].0);
                } else {
                    lemma_lookup_push(d, x, x.0);
                }
            }
        }
        if !(lookup(d, x.0) is Some) {
            let dd = dedup_spec(d);
            assert forall|i: int, j: int|
                0 <= i < j < dedup_spec(ps).len() implies dedup_spec(ps)[i].0 != dedup_spec(
                ps,
            )[j].0 by {
                if j < dd.len() {
                } else {
                    assert(dedup_spec(ps)[j] == x);
                    if lookup(d, dd[i].0) is Some && dd[i].0 == x.0 {
                        assert(false);
                    }
                }
            }
        }
    }
}

/// Keeps the first pair of each name, in first-occurrence order.
pub fn dedup_pairs(parts: &Vec<(Vec<u8>, Vec<u8>)>) -> (r: Vec<(Vec<u8>, Vec<u8>)>)
    ensures
        pairs_view(r@) == dedup_spec(pairs_view(parts@)),
        distinct_names(pairs_view(r@)),
{
    let ghost ps = pairs_view(parts@);
    let mut out: Vec<(Vec<u8>, Vec<u8>)> = Vec::new();
    let mut i: usize = 0;
    proof {
        assert(ps.take(0) =~= Seq::<(Seq<u8>, Seq<u8>)>::empty());
        assert(pairs_view(out@) =~= dedup_spec(ps.take(0)));
    }
    while i < parts.len()
        invariant
            0 <= i <= parts@.len(),
            ps == pairs_view(parts@),
            ps.len() == parts@.len(),
            pairs_view(out@) == dedup_spec(ps.take(i as int)),
        decreases parts@.len() - i,
    {
        let ghost prev_out = out@;
        let name = copy_bytes(parts[i].0.as_slice());
        proof {
            assert(ps[i as int] == (parts@[i as int].0@, parts@[i as int].1@));
            assert(ps.take(i + 1).drop_last() =~= ps.take(i as int));
            assert(ps.take(i + 1).last() == ps[i as int]);
        }
        match find_pair(&out, name.as_slice()) {
            Some(_) => {
                proof {
                    lemma_dedup_lookup(ps.take(i as int), ps[i as int].0);
                    assert(lookup(ps.take(i as int), ps[i as int].0) is Some);
                    assert(dedup_spec(ps.take(i + 1)) == dedup_spec(ps.take(i as int)));
                }
            },
            None => {
                proof {
                    lemma_dedup_lookup(ps.take(i as int), ps[i as int].0);
                    assert(!(lookup(ps.take(i as int), ps[i as int].0) is Some));
                    assert(dedup_spec(ps.take(i + 1)) == dedup_spec(ps.take(i as int)).push(
                        ps[i as int],
                    ));
                }
                let value = copy_bytes(parts[i].1.as_slice());
                out.push((name, value));
                proof {
                    assert(out@.len() == prev_out.len() + 1);
                    assert forall|j: int|
                        0 <= j < out@.len() implies pairs_view(out@)[j] == dedup_spec(
                        ps.take(i + 1),
                    )[j] by {
                        assert(pairs_view(out@)[j] == (out@[j].0@, out@[j].1@));
                        if j < prev_out.len() {
                            assert(out@[j] == prev_out[j]);
                            assert(pairs_view(prev_out)[j] == (prev_out[j].0@, prev_out[j].1@));
                        } else {
                            assert(out@[j] == out@.last());
                        }
                    }
                    assert(pairs_view(out@) =~= dedup_spec(ps.take(i + 1)));
                }
            },
        }
        i = i + 1;
    }
    proof {
        assert(ps.take(i as int) =~= ps);
        lemma_dedup_distinct(ps);
    }
    out
}

/// What the bump yields for a given capture list, template and target: no
/// new version when the target is not an active component, an error when its
/// value is not an incrementable numeral or the template references a
/// missing name, and the rendered new version otherwise.
pub open spec fn bump_outcome(
    caps: Seq<(Seq<u8>, Seq<u8>)>,
    template: Seq<u8>,
    target: Seq<u8>,
) -> Result<Option<Seq<u8>>, BumpError> {
    let ps = dedup_spec(caps);
    let ord = order_spec(template);
    if !target_active(ps, ord, target) {
        Ok(None)
    } else if !bumpable_numeral(lookup(ps, target)->Some_0) {
        Err(BumpError::NonNumericComponent)
    } else {
        match rendered(template, bumped_parts(ps, ord, target)) {
            Some(s) => Ok(Some(s)),
            None => Err(BumpError::Serialization),
        }
    }
}

/// The view of an executable bump result.
pub open spec fn outcome_view(r: Result<Option<Vec<u8>>, BumpError>) -> Result<
    Option<Seq<u8>>,
    BumpError,
> {
    match r {
        Ok(Some(v)) => Ok(Some(v@)),
        Ok(None) => Ok(None),
        Err(e) => Err(e),
    }
}

/// Parses the current version with the given pattern, bumps the target
/// component, and serializes the result through the template.  `Ok(None)`
/// means no new version is called for; every error case is pinned down by
/// `bump_outcome`.
pub fn attempt_version_bump(current_version: &[u8], parse: &[u8], serialize: &[u8], bump: &[u8]) -> (r: Result<
    Option<Vec<u8>>,
    BumpError,
>)
    ensures
        captures_of(parse@, current_version@) is None ==> r == Err::<
            Option<Vec<u8>>,
            BumpError,
        >(BumpError::Pattern),
        captures_of(parse@, current_version@) matches Some(caps) ==> outcome_view(r)
            == bump_outcome(caps, serialize@, bump@),
{
    let caps = match regex_named_captures(parse, current_version) {
        None => {
            return Err(BumpError::Pattern);
        },
        Some(caps) => caps,
    };
    let parts = dedup_pairs(&caps);
    let order = template_order(serialize);
    match bump_version_parts(&parts, &order, bump) {
        Ok(None) => Ok(None),
        Err(e) => Err(e),
        Ok(Some(np)) => match render_template(serialize, &np) {
            Ok(out) => Ok(Some(out)),
            Err(e) => Err(e),
        },
    }
}

/// When the target does not occur in the template's component list, the
/// bump yields no new version — and no error, whatever the captures hold.
pub proof fn lemma_absent_target_no_bump(
    caps: Seq<(Seq<u8>, Seq<u8>)>,
    template: Seq<u8>,
    target: Seq<u8>,
)
    requires
        !order_contains(order_spec(template), target),
    ensures
        bump_outcome(caps, template, target) == Ok::<Option<Seq<u8>>, BumpError>(None),
{
}

/// The bytes of `major`.
pub open spec fn major_name() -> Seq<u8> {
    seq![109u8, 97, 106, 111, 114]
}

/// The bytes of `minor`.
pub open spec fn minor_name() -> Seq<u8> {
    seq![109u8, 105, 110, 111, 114]
}

/// The bytes of `patch`.
pub open spec fn patch_name() -> Seq<u8> {
    seq![112u8, 97, 116, 99, 104]
}

/// The components a three-part version parses into.
pub open spec fn default_parts(a: Seq<u8>, b: Seq<u8>, c: Seq<u8>) -> Seq<(Seq<u8>, Seq<u8>)> {
    seq![(major_name(), a), (minor_name(), b), (patch_name(), c)]
}

/// The component order of the default template.
pub open spec fn default_order() -> Seq<Seq<u8>> {
    seq![major_name(), minor_name(), patch_name()]
}

proof fn lemma_default_names_distinct()
    ensures
        major_name() != minor_name(),
        major_name() != patch_name(),
        minor_name() != patch_name(),
        first_index(default_order(), major_name()) == 0,
        first_index(default_order(), minor_name()) == 1,
        first_index(default_order(), patch_name()) == 2,
{
    assert(major_name() != minor_name()) by {
        assert(major_name()[1] == 97);
        assert(minor_name()[1] == 105);
    }
    assert(major_name() != patch_name()) by {
        assert(major_name()[0] == 109);
        assert(patch_name()[0] == 112);
    }
    assert(minor_name() != patch_name()) by {
        assert(minor_name()[0] == 109);
        assert(patch_name()[0] == 112);
    }
    let ord = default_order();
    let s1 = seq![minor_name(), patch_name()];
    let s2 = seq![patch_name()];
    assert(ord[0] == major_name());
    assert(ord.skip(1) =~= s1);
    assert(s1[0] == minor_name());
    assert(s1.skip(1) =~= s2);
    assert(s2[0] == patch_name());
    assert(s2.skip(1) =~= Seq::<Seq<u8>>::empty());
    assert(first_index(ord, major_name()) == 0);
    assert(first_index(s1, minor_name()) == 0);
    assert(first_index(ord, minor_name()) == 1 + first_index(s1, minor_name()));
    assert(first_index(s2, patch_name()) == 0);
    assert(first_index(s1, patch_name()) == 1 + first_index(s2, patch_name()));
    assert(first_index(ord, patch_name()) == 1 + first_index(s1, patch_name()));
}

/// Bumping `minor` of a three-part version increments it, resets `patch` to
/// zero and leaves `major` untouched; bumping `major` resets both lower
/// components to zero.
pub proof fn lemma_default_bump_resets(a: Seq<u8>, b: Seq<u8>, c: Seq<u8>)
    requires
        is_numeral(a),
        is_numeral(b),
        is_numeral(c),
    ensures
        bumped_parts(default_parts(a, b, c), default_order(), minor_name()) == default_parts(
            a,
            numeral_of((numeral_value(b) + 1) as nat),
            seq![48u8],
        ),
        bumped_parts(default_parts(a, b, c), default_order(), major_name()) == default_parts(
            numeral_of((numeral_value(a) + 1) as nat),
            seq![48u8],
            seq![48u8],
        ),
{
    lemma_default_names_distinct();
    let ps = default_parts(a, b, c);
    let ord = default_order();
    assert(bumped_parts(ps, ord, minor_name())[0] == (major_name(), a));
    assert(bumped_parts(ps, ord, minor_name())[1] == (minor_name(), numeral_of(
        (numeral_value(b) + 1) as nat,
    )));
    assert(bumped_parts(ps, ord, minor_name())[2] == (patch_name(), seq![48u8]));
    assert(bumped_parts(ps, ord, minor_name()) =~= default_parts(
        a,
        numeral_of((numeral_value(b) + 1) as nat),
        seq![48u8],
    ));
    assert(bumped_parts(ps, ord, major_name())[0] == (major_name(), numeral_of(
        (numeral_value(a) + 1) as nat,
    )));
    assert(bumped_parts(ps, ord, major_name())[1] == (minor_name(), seq![48u8]));
    assert(bumped_parts(ps, ord, major_name())[2] == (patch_name(), seq![48u8]));
    assert(bumped_parts(ps, ord, major_name()) =~= default_parts(
        numeral_of((numeral_value(a) + 1) as nat),
        seq![48u8],
        seq![48u8],
    ));
}

/// The capture spans of the default three-part shape at position `i`:
/// a maximal digit run, a dot, a maximal digit run, a dot, a maximal digit
/// run — or nothing, when that shape does not start at `i`.
pub open spec fn default_match_at(s: Seq<u8>, i: int) -> Option<(Seq<u8>, Seq<u8>, Seq<u8>)> {
    if !(0 <= i < s.len() && is_digit(s[i])) {
        None
    } else {
        let e1 = crate::utils::skip_digits(s, i);
        if !(e1 < s.len() && s[e1] == 46 && e1 + 1 < s.len() && is_digit(s[e1 + 1])) {
            None
        } else {
            let e2 = crate::utils::skip_digits(s, e1 + 1);
            if !(e2 < s.len() && s[e2] == 46 && e2 + 1 < s.len() && is_digit(s[e2 + 1])) {
                None
            } else {
                let e3 = crate::utils::skip_digits(s, e2 + 1);
                Some((s.subrange(i, e1), s.subrange(e1 + 1, e2), s.subrange(e2 + 1, e3)))
            }
        }
    }
}

/// The leftmost default-shape match at or after `i`.
pub open spec fn first_default(s: Seq<u8>, i: int) -> Option<(Seq<u8>, Seq<u8>, Seq<u8>)>
    decreases s.len() - i,
{
    if i >= s.len() {
        None
    } else if default_match_at(s, i) is Some {
        default_match_at(s, i)
    } else {
        first_default(s, i + 1)
    }
}

/// What the default pattern captures from a version string: the three
/// components of its leftmost three-part match.
pub open spec fn default_captures(s: Seq<u8>) -> Option<(Seq<u8>, Seq<u8>, Seq<u8>)> {
    first_default(s, 0)
}

/// The serialized form of three components under the default template.
pub open spec fn joined3(a: Seq<u8>, b: Seq<u8>, c: Seq<u8>) -> Seq<u8> {
    a + seq![46u8] + b + seq![46u8] + c
}

/// A maximal digit run: all of `s[i..j]` are digits and `j` is a boundary.
proof fn lemma_skip_digits_all(s: Seq<u8>, i: int, j: int)
    requires
        0 <= i <= j <= s.len(),
        forall|k: int| i <= k < j ==> is_digit(#[trigger] s[k]),
        j == s.len() || !is_digit(s[j]),
    ensures
        crate::utils::skip_digits(s, i) == j,
    decreases j - i,
{
    if i < j {
        lemma_skip_digits_all(s, i + 1, j);
    }
}

/// Parsing the serialized form of three digit-run components captures
/// exactly those components: the round trip through the default shape is
/// the identity, so serializing again reproduces the same version string.
pub proof fn lemma_default_round_trip(a: Seq<u8>, b: Seq<u8>, c: Seq<u8>)
    requires
        is_numeral(a),
        is_numeral(b),
        is_numeral(c),
    ensures
        default_captures(joined3(a, b, c)) == Some((a, b, c)),
{
    let s = joined3(a, b, c);
    let la = a.len() as int;
    let lb = b.len() as int;
    let lc = c.len() as int;
    assert(s.len() == la + 1 + lb + 1 + lc);
    assert forall|k: int| 0 <= k < la implies is_digit(#[trigger] s[k]) by {
        assert(s[k] == a[k]);
    }
    assert(s[la] == 46);
    assert forall|k: int| la + 1 <= k < la + 1 + lb implies is_digit(#[trigger] s[k]) by {
        assert(s[k] == b[k - la - 1]);
    }
    assert(s[la + 1 + lb] == 46);
    assert forall|k: int| la + 2 + lb <= k < s.len() implies is_digit(#[trigger] s[k]) by {
        assert(s[k] == c[k - la - lb - 2]);
    }
    assert(!is_digit(46u8));
    lemma_skip_digits_all(s, 0, la);
    lemma_skip_digits_all(s, la + 1, la + 1 + lb);
    lemma_skip_digits_all(s, la + 2 + lb, s.len() as int);
    assert(s.subrange(0, la) =~= a);
    assert(s.subrange(la + 1, la + 1 + lb) =~= b);
    assert(s.subrange(la + 2 + lb, s.len() as int) =~= c);
    assert(is_digit(s[0]));
    assert(default_match_at(s, 0) == Some((a, b, c)));
    assert(first_default(s, 0) == default_match_at(s, 0));
}

/// Both parts present, the continuation prefixed; otherwise nothing.
pub open spec fn combine(v: Option<Seq<u8>>, r: Option<Seq<u8>>) -> Option<Seq<u8>> {
    match (v, r) {
        (Some(x), Some(y)) => Some(x + y),
        _ => None,
    }
}

proof fn lemma_close_pos_at(s: Seq<u8>, m: int)
    requires
        0 <= m < s.len(),
        s[m] == 125,
        forall|j: int| 0 <= j < m ==> s[j] != 125,
    ensures
        close_pos(s) == m,
    decreases m,
{
    if m > 0 {
        assert(s[0] != 125);
        assert(s.skip(1)[m - 1] == s[m]);
        assert forall|j: int| 0 <= j < m - 1 implies s.skip(1)[j] != 125 by {
            assert(s.skip(1)[j] == s[j + 1]);
        }
        lemma_close_pos_at(s.skip(1), m - 1);
    }
}

/// Rendering a template that opens with a complete placeholder substitutes
/// the named value and goes on with the rest.
proof fn lemma_rendered_placeholder(name: Seq<u8>, rest: Seq<u8>, ps: Seq<(Seq<u8>, Seq<u8>)>)
    requires
        forall|k: int| 0 <= k < name.len() ==> name[k] != 125,
        trimmed(name) == name,
    ensures
        rendered(seq![123u8] + name + seq![125u8] + rest, ps) == combine(
            lookup(ps, name),
            rendered(rest, ps),
        ),
{
    let t = seq![123u8] + name + seq![125u8] + rest;
    assert(t[0] == 123);
    let r1 = t.skip(1);
    assert(r1 =~= name + seq![125u8] + rest);
    assert forall|j: int| 0 <= j < name.len() implies r1[j] != 125 by {
        assert(r1[j] == name[j]);
    }
    assert(r1[name.len() as int] == 125);
    lemma_close_pos_at(r1, name.len() as int);
    assert(r1.take(name.len() as int) =~= name);
    assert(r1.skip(name.len() as int + 1) =~= rest);
}

/// Rendering a template that opens with an ordinary byte copies it.
proof fn lemma_rendered_literal(ch: u8, rest: Seq<u8>, ps: Seq<(Seq<u8>, Seq<u8>)>)
    requires
        ch != 123,
    ensures
        rendered(seq![ch] + rest, ps) == combine(Some(seq![ch]), rendered(rest, ps)),
{
    let t = seq![ch] + rest;
    assert(t[0] == ch);
    assert(t.skip(1) =~= rest);
}

/// The default serialization template, placeholder by placeholder.
pub open spec fn default_template() -> Seq<u8> {
    seq![123u8] + major_name() + seq![125u8, 46, 123] + minor_name() + seq![125u8, 46, 123]
        + patch_name() + seq![125u8]
}

proof fn lemma_name_plain(name: Seq<u8>)
    requires
        name.len() > 0,
        !is_ws(name[0]),
        !is_ws(name.last()),
        forall|k: int| 0 <= k < name.len() ==> name[k] != 125,
    ensures
        trimmed(name) == name,
{
    assert(trim_front(name) == name);
    assert(trim_back(name) == name);
}

/// Rendering the default template over three components joins them with
/// dots.
pub proof fn lemma_render_default(a: Seq<u8>, b: Seq<u8>, c: Seq<u8>)
    ensures
        rendered(default_template(), default_parts(a, b, c)) == Some(joined3(a, b, c)),
{
    lemma_default_names_distinct();
    let ps = default_parts(a, b, c);
    assert(ps[0] == (major_name(), a));
    assert(lookup(ps, major_name()) == Some(a));
    assert(ps.skip(1) =~= seq![(minor_name(), b), (patch_name(), c)]);
    assert(ps.skip(1)[0] == (minor_name(), b));
    assert(lookup(ps, minor_name()) == lookup(ps.skip(1), minor_name()));
    assert(lookup(ps.skip(1), minor_name()) == Some(b));
    assert(ps.skip(1).skip(1) =~= seq![(patch_name(), c)]);
    assert(seq![(patch_name(), c)][0] == (patch_name(), c));
    assert(lookup(ps, patch_name()) == lookup(ps.skip(1), patch_name()));
    assert(lookup(ps.skip(1), patch_name()) == lookup(seq![(patch_name(), c)], patch_name()));
    assert(lookup(seq![(patch_name(), c)], patch_name()) == Some(c));
    assert forall|k: int| 0 <= k < major_name().len() implies major_name()[k] != 125 by {}
    assert forall|k: int| 0 <= k < minor_name().len() implies minor_name()[k] != 125 by {}
    assert forall|k: int| 0 <= k < patch_name().len() implies patch_name()[k] != 125 by {}
    lemma_name_plain(major_name());
    lemma_name_plain(minor_name());
    lemma_name_plain(patch_name());
    let e = Seq::<u8>::empty();
    assert(rendered(e, ps) == Some(e));
    let tp = seq![123u8] + patch_name() + seq![125u8] + e;
    lemma_rendered_placeholder(patch_name(), e, ps);
    assert(rendered(tp, ps) == Some(c + e));
    assert(c + e =~= c);
    let tdp = seq![46u8] + tp;
    lemma_rendered_literal(46u8, tp, ps);
    assert(rendered(tdp, ps) == Some(seq![46u8] + c));
    let tm = seq![123u8] + minor_name() + seq![125u8] + tdp;
    lemma_rendered_placeholder(minor_name(), tdp, ps);
    assert(rendered(tm, ps) == Some(b + (seq![46u8] + c)));
    let tdm = seq![46u8] + tm;
    lemma_rendered_literal(46u8, tm, ps);
    assert(rendered(tdm, ps) == Some(seq![46u8] + (b + (seq![46u8] + c))));
    let tt = seq![123u8] + major_name() + seq![125u8] + tdm;
    lemma_rendered_placeholder(major_name(), tdm, ps);
    assert(rendered(tt, ps) == Some(a + (seq![46u8] + (b + (seq![46u8] + c)))));
    assert(tt =~= default_template());
    assert(a + (seq![46u8] + (b + (seq![46u8] + c))) =~= joined3(a, b, c));
}

/// The serialize–parse round trip: serializing three digit-run components
/// through the default template and parsing the result back captures the
/// same components, so serializing once more reproduces the same string.
pub proof fn lemma_default_serialize_parse_round_trip(a: Seq<u8>, b: Seq<u8>, c: Seq<u8>)
    requires
        is_numeral(a),
        is_numeral(b),
        is_numeral(c),
    ensures
        rendered(default_template(), default_parts(a, b, c)) == Some(joined3(a, b, c)),
        default_captures(joined3(a, b, c)) == Some((a, b, c)),
{
    lemma_render_default(a, b, c);
    lemma_default_round_trip(a, b, c);
}

/// Parses a version of the default three-part shape without the engine:
/// the leftmost run of digits, dot, digits, dot, digits, each run maximal.
pub fn parse_default_version(s: &[u8]) -> (r: Option<(Vec<u8>, Vec<u8>, Vec<u8>)>)
    ensures
        match r {
            Some(t) => default_captures(s@) == Some((t.0@, t.1@, t.2@)),
            None => default_captures(s@) is None,
        },
{
    let mut i: usize = 0;
    while i < s.len()
        invariant
            0 <= i <= s@.len(),
            first_default(s@, 0) == first_default(s@, i as int),
        decreases s@.len() - i,
    {
        if is_digit_byte(s[i]) {
            let e1 = crate::utils::skip_digits_exec(s, i);
            if e1 < s.len() && s[e1] == 46 && e1 + 1 < s.len() && is_digit_byte(s[e1 + 1]) {
                let e2 = crate::utils::skip_digits_exec(s, e1 + 1);
                if e2 < s.len() && s[e2] == 46 && e2 + 1 < s.len() && is_digit_byte(s[e2 + 1]) {
                    let e3 = crate::utils::skip_digits_exec(s, e2 + 1);
                    proof {
                        assert(default_match_at(s@, i as int) == Some((
                            s@.subrange(i as int, e1 as int),
                            s@.subrange(e1 + 1, e2 as int),
                            s@.subrange(e2 + 1, e3 as int),
                        )));
                        assert(first_default(s@, i as int) == default_match_at(s@, i as int));
                    }
                    return Some(
                        (copy_range(s, i, e1), copy_range(s, e1 + 1, e2), copy_range(s, e2 + 1, e3)),
                    );
                }
            }
        }
        proof {
            assert(default_match_at(s@, i as int) is None);
        }
        i = i + 1;
    }
    None
}

} // verus!
