//! The tie to the regular-expression engine.  The engine's behaviour on an
//! arbitrary pattern is not restated here; its result is only given a name,
//! and everything after the match is verified against that name.

use vstd::prelude::*;

use crate::version::pairs_view;

verus! {

/// The named captures of the leftmost match of `pattern` on `text`: each
/// named capture group that participates in the match, in the order the
/// groups appear in the pattern, paired with the bytes it matched.  `None`
/// when `pattern` is not a valid pattern or does not match `text`.  The
/// engine is deterministic, so this is a function of the two arguments.
pub uninterp spec fn captures_of(pattern: Seq<u8>, text: Seq<u8>) -> Option<
    Seq<(Seq<u8>, Seq<u8>)>,
>;

/// Relies on regex::bytes::Regex: `new` compiles the pattern, `captures`
/// finds the leftmost match, `capture_names` lists the groups in pattern
/// order, and `Captures::name` yields the bytes a named group matched.
#[verifier::external_body]
pub fn regex_named_captures(pattern: &[u8], text: &[u8]) -> (r: Option<Vec<(Vec<u8>, Vec<u8>)>>)
    ensures
        r is Some <==> captures_of(pattern@, text@) is Some,
        r matches Some(v) ==> captures_of(pattern@, text@) == Some(pairs_view(v@)),
{
    let p = core::str::from_utf8(pattern).ok()?;
    let re = regex::bytes::Regex::new(p).ok()?;
    let caps = re.captures(text)?;
    let mut out: Vec<(Vec<u8>, Vec<u8>)> = Vec::new();
    for name in re.capture_names().flatten() {
        if let Some(m) = caps.name(name) {
            out.push((name.as_bytes().to_vec(), m.as_bytes().to_vec()));
        }
    }
    Some(out)
}

} // verus!
