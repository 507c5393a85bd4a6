//! Building the tree of a version-bump commit: new blobs replace the entries
//! of the files that changed, every other entry of the current tree is
//! copied forward unchanged, and the result is sorted by filename for a
//! canonical encoding.  When no blob actually differs, the commit is a no-op.

use vstd::prelude::*;
use vstd::multiset::Multiset;

use crate::text::bytes_eq;
use crate::text::copy_bytes;

verus! {

/// Whether a tree entry is an ordinary or an executable file.
#[derive(Clone, Copy, Debug, PartialEq, Eq, Structural)]
pub enum EntryMode {
    Regular,
    Executable,
}

/// One entry of a flat, single-level tree: a filename, the content id of the
/// file's blob, and its mode.
#[derive(Debug)]
pub struct TreeEntry {
    pub filename: Vec<u8>,
    pub oid: Vec<u8>,
    pub mode: EntryMode,
}

impl TreeEntry {
    /// An entry with the same filename, object id and mode.
    pub fn duplicate(&self) -> (r: TreeEntry)
        ensures
            r.filename@ == self.filename@,
            r.oid@ == self.oid@,
            r.mode == self.mode,
    {
        TreeEntry {
            filename: copy_bytes(self.filename.as_slice()),
            oid: copy_bytes(self.oid.as_slice()),
            mode: self.mode,
        }
    }
}

/// No two entries share a filename.
pub open spec fn distinct_filenames(s: Seq<TreeEntry>) -> bool {
    forall|i: int, j: int| 0 <= i < j < s.len() ==> s[i].filename@ != s[j].filename@
}

/// The index of the first entry named `n`, or `s.len()` when there is none.
pub open spec fn entry_index(s: Seq<TreeEntry>, n: Seq<u8>) -> int
    decreases s.len(),
{
    if s.len() == 0 {
        0
    } else if s[0].filename@ == n {
        0
    } else {
        1 + entry_index(s.skip(1), n)
    }
}

/// Some entry of `s` is named `n`.
pub open spec fn has_entry(s: Seq<TreeEntry>, n: Seq<u8>) -> bool {
    entry_index(s, n) < s.len()
}

pub proof fn lemma_entry_index_range(s: Seq<TreeEntry>, n: Seq<u8>)
    ensures
        0 <= entry_index(s, n) <= s.len(),
        entry_index(s, n) < s.len() ==> s[entry_index(s, n)].filename@ == n,
        forall|j: int| 0 <= j < entry_index(s, n) ==> s[j].filename@ != n,
    decreases s.len(),
{
    if s.len() > 0 && s[0].filename@ != n {
        lemma_entry_index_range(s.skip(1), n);
        assert forall|j: int| 0 <= j < entry_index(s, n) implies s[j].filename@ != n by {
            if j > 0 {
                assert(s.skip(1)[j - 1] == s[j]);
            }
        }
        if entry_index(s, n) < s.len() {
            assert(s.skip(1)[entry_index(s, n) - 1] == s[entry_index(s, n)]);
        }
    }
}

/// `n` names an entry of `s` exactly when some index holds it.
pub proof fn lemma_has_entry_exists(s: Seq<TreeEntry>, n: Seq<u8>)
    ensures
        has_entry(s, n) <==> exists|i: int| 0 <= i < s.len() && (#[trigger] s[i]).filename@ == n,
{
    lemma_entry_index_range(s, n);
    if has_entry(s, n) {
        assert(s[entry_index(s, n)].filename@ == n);
    }
}

/// Finds the first entry named `n`; returns `v.len()` when there is none.
pub fn find_entry(v: &Vec<TreeEntry>, n: &[u8]) -> (r: usize)
    ensures
        r as int == entry_index(v@, n@),
        r <= v@.len(),
{
    let mut k: usize = 0;
    proof {
        assert(v@.skip(0) =~= v@);
    }
    while k < v.len()
        invariant
            0 <= k <= v@.len(),
            entry_index(v@, n@) == k + entry_index(v@.skip(k as int), n@),
        decreases v@.len() - k,
    {
        if bytes_eq(v[k].filename.as_slice(), n) {
            proof {
                assert(v@.skip(k as int)[0] == v@[k as int]);
            }
            return k;
        }
        proof {
            assert(v@.skip(k as int)[0] == v@[k as int]);
            assert(v@.skip(k as int).skip(1) =~= v@.skip(k as int + 1));
        }
        k = k + 1;
    }
    proof {
        assert(v@.skip(k as int) =~= Seq::<TreeEntry>::empty());
    }
    k
}

/// The update `u` changes nothing: the current tree has an entry with the
/// same filename whose blob id equals the new blob id.
pub open spec fn keeps_existing(cur: Seq<TreeEntry>, u: TreeEntry) -> bool {
    has_entry(cur, u.filename@) && cur[entry_index(cur, u.filename@)].oid@ == u.oid@
}

/// At least one update writes a blob that differs from the current tree.
pub open spec fn any_modified(cur: Seq<TreeEntry>, upd: Seq<TreeEntry>) -> bool {
    exists|i: int| 0 <= i < upd.len() && !keeps_existing(cur, #[trigger] upd[i])
}

/// The mode the merged tree records for update `u`: the current entry's mode
/// when the blob is unchanged, the update's mode otherwise.
pub open spec fn merged_mode(cur: Seq<TreeEntry>, u: TreeEntry) -> EntryMode {
    if keeps_existing(cur, u) {
        cur[entry_index(cur, u.filename@)].mode
    } else {
        u.mode
    }
}

/// Some entry of `s` has exactly this filename, object id and mode.
pub open spec fn tree_has(s: Seq<TreeEntry>, n: Seq<u8>, oid: Seq<u8>, mode: EntryMode) -> bool {
    exists|i: int|
        0 <= i < s.len() && (#[trigger] s[i]).filename@ == n && s[i].oid@ == oid && s[i].mode
            == mode
}

/// Byte-lexicographic order on filenames.
pub open spec fn lex_le(a: Seq<u8>, b: Seq<u8>) -> bool
    decreases a.len(),
{
    if a.len() == 0 {
        true
    } else if b.len() == 0 {
        false
    } else if a[0] < b[0] {
        true
    } else if a[0] > b[0] {
        false
    } else {
        lex_le(a.skip(1), b.skip(1))
    }
}

pub proof fn lemma_lex_total(a: Seq<u8>, b: Seq<u8>)
    ensures
        lex_le(a, b) || lex_le(b, a),
    decreases a.len(),
{
    if a.len() > 0 && b.len() > 0 && a[0] == b[0] {
        lemma_lex_total(a.skip(1), b.skip(1));
    }
}

pub proof fn lemma_lex_trans(a: Seq<u8>, b: Seq<u8>, c: Seq<u8>)
    requires
        lex_le(a, b),
        lex_le(b, c),
    ensures
        lex_le(a, c),
    decreases a.len(),
{
    if a.len() > 0 && b.len() > 0 && c.len() > 0 && a[0] == b[0] && b[0] == c[0] {
        lemma_lex_trans(a.skip(1), b.skip(1), c.skip(1));
    }
}

/// Compares two byte strings lexicographically.
pub fn lex_le_bytes(a: &[u8], b: &[u8]) -> (r: bool)
    ensures
        r == lex_le(a@, b@),
{
    let mut i: usize = 0;
    proof {
        assert(a@.skip(0) =~= a@);
        assert(b@.skip(0) =~= b@);
    }
    while i < a.len() && i < b.len()
        invariant
            0 <= i <= a@.len(),
            0 <= i <= b@.len(),
            lex_le(a@, b@) == lex_le(a@.skip(i as int), b@.skip(i as int)),
        decreases a@.len() - i,
    {
        let x = a[i];
        let y = b[i];
        proof {
            assert(a@.skip(i as int)[0] == a@[i as int]);
            assert(b@.skip(i as int)[0] == b@[i as int]);
            assert(a@.skip(i as int).skip(1) =~= a@.skip(i as int + 1));
            assert(b@.skip(i as int).skip(1) =~= b@.skip(i as int + 1));
        }
        if x < y {
            return true;
        }
        if x > y {
            return false;
        }
        i = i + 1;
    }
    proof {
        if i >= a@.len() {
            assert(a@.skip(i as int) =~= Seq::<u8>::empty());
        } else {
            assert(b@.skip(i as int) =~= Seq::<u8>::empty());
            assert(a@.skip(i as int).len() > 0);
        }
    }
    i == a.len()
}

/// Entries in non-decreasing filename order.
pub open spec fn sorted_names(s: Seq<TreeEntry>) -> bool {
    forall|i: int, j: int|
        0 <= i < j < s.len() ==> lex_le((#[trigger] s[i]).filename@, (#[trigger] s[j]).filename@)
}

/// Sorts entries by filename, keeping exactly the same entries.
fn sort_entries(v: Vec<TreeEntry>) -> (r: Vec<TreeEntry>)
    ensures
        sorted_names(r@),
        r@.to_multiset() == v@.to_multiset(),
{
    broadcast use vstd::seq_lib::group_to_multiset_ensures;

    let mut rest = v;
    let mut out: Vec<TreeEntry> = Vec::new();
    let ghost orig = rest@;
    while rest.len() > 0
        invariant
            sorted_names(out@),
            out@.to_multiset().add(rest@.to_multiset()) == orig.to_multiset(),
        decreases rest@.len(),
    {
        let ghost prev_rest = rest@;
        let x = rest.pop().unwrap();
        proof {
            assert(prev_rest =~= rest@.push(x));
            vstd::seq_lib::to_multiset_build(rest@, x);
            assert(prev_rest.to_multiset() == rest@.to_multiset().insert(x));
        }
        let mut p: usize = 0;
        while p < out.len() && lex_le_bytes(out[p].filename.as_slice(), x.filename.as_slice())
            invariant
                0 <= p <= out@.len(),
                forall|j: int| 0 <= j < p ==> lex_le((#[trigger] out@[j]).filename@, x.filename@),
            decreases out@.len() - p,
        {
            p = p + 1;
        }
        proof {
            if p < out@.len() {
                lemma_lex_total(out@[p as int].filename@, x.filename@);
            }
        }
        let ghost prev_out = out@;
        out.insert(p, x);
        proof {
            assert(out@ == prev_out.insert(p as int, x));
            vstd::seq_lib::to_multiset_insert(prev_out, p as int, x);
            assert(out@.to_multiset() == prev_out.to_multiset().insert(x));
            assert forall|i: int, j: int| 0 <= i < j < out@.len() implies lex_le(
                (#[trigger] out@[i]).filename@,
                (#[trigger] out@[j]).filename@,
            ) by {
                if i < p && j == p {
                } else if i == p && j > p {
                    assert(lex_le(x.filename@, prev_out[p as int].filename@));
                    if j - 1 > p {
                        lemma_lex_trans(
                            x.filename@,
                            prev_out[p as int].filename@,
                            prev_out[j - 1].filename@,
                        );
                    }
                } else if j < p {
                } else if i < p && j > p {
                } else {
                }
            }
            assert(out@.to_multiset().add(rest@.to_multiset()) =~= orig.to_multiset());
        }
    }
    proof {
        assert(rest@.to_multiset() =~= Multiset::<TreeEntry>::empty());
        assert(out@.to_multiset() =~= orig.to_multiset());
    }
    out
}

/// Sequences with equal multisets hold the same elements.
proof fn lemma_perm_contains(a: Seq<TreeEntry>, b: Seq<TreeEntry>)
    requires
        a.to_multiset() == b.to_multiset(),
    ensures
        forall|x: TreeEntry| #[trigger] a.contains(x) ==> b.contains(x),
{
    assert forall|x: TreeEntry| #[trigger] a.contains(x) implies b.contains(x) by {
        vstd::seq_lib::to_multiset_contains(a, x);
        vstd::seq_lib::to_multiset_contains(b, x);
    }
}

/// A permutation keeps every (filename, oid, mode) triple of the tree.
proof fn lemma_tree_has_perm(a: Seq<TreeEntry>, b: Seq<TreeEntry>)
    requires
        a.to_multiset() == b.to_multiset(),
    ensures
        forall|n: Seq<u8>, oid: Seq<u8>, mode: EntryMode| #[trigger] tree_has(a, n, oid, mode)
            ==> tree_has(b, n, oid, mode),
{
    lemma_perm_contains(a, b);
    assert forall|n: Seq<u8>, oid: Seq<u8>, mode: EntryMode| #[trigger] tree_has(
        a,
        n,
        oid,
        mode,
    ) implies tree_has(b, n, oid, mode) by {
        let i = choose|i: int|
            0 <= i < a.len() && (#[trigger] a[i]).filename@ == n && a[i].oid@ == oid && a[i].mode
                == mode;
        assert(a.contains(a[i]));
        assert(b.contains(a[i]));
        let j = choose|j: int| 0 <= j < b.len() && b[j] == a[i];
        assert(b[j].filename@ == n && b[j].oid@ == oid && b[j].mode == mode);
    }
}

/// A permutation of entries with pairwise-distinct filenames again has
/// pairwise-distinct filenames.
proof fn lemma_perm_distinct(a: Seq<TreeEntry>, b: Seq<TreeEntry>)
    requires
        distinct_filenames(a),
        a.to_multiset() == b.to_multiset(),
    ensures
        distinct_filenames(b),
{
    assert forall|i: int, j: int|
        (0 <= i < a.len() && 0 <= j < a.len() && i != j) implies a[i] != a[j] by {
        if a[i] == a[j] {
            assert(a[i].filename@ == a[j].filename@);
        }
    }
    assert(a.no_duplicates());
    a.lemma_multiset_has_no_duplicates();
    assert forall|x: TreeEntry| b.to_multiset().contains(x) implies b.to_multiset().count(x)
        == 1 by {
        assert(a.to_multiset().contains(x));
    }
    b.lemma_multiset_has_no_duplicates_conv();
    lemma_perm_contains(b, a);
    assert forall|i: int, j: int| 0 <= i < j < b.len() implies b[i].filename@ != b[j].filename@ by {
        if b[i].filename@ == b[j].filename@ {
            assert(b[i] != b[j]);
            assert(b.contains(b[i]));
            assert(b.contains(b[j]));
            assert(a.contains(b[i]));
            assert(a.contains(b[j]));
            let ia = choose|k: int| 0 <= k < a.len() && a[k] == b[i];
            let ja = choose|k: int| 0 <= k < a.len() && a[k] == b[j];
            assert(ia != ja);
            assert(a[ia].filename@ != a[ja].filename@);
            assert(false);
        }
    }
}

/// Merges the updated blobs into the current tree: an updated file whose
/// blob is unchanged keeps its current entry, a changed or new file gets its
/// new entry, every other current entry is copied forward, and the result is
/// sorted by filename.  The flag reports whether any blob actually changed;
/// when it is false the caller makes no commit.
pub fn build_commit_tree(current: &Vec<TreeEntry>, updates: &Vec<TreeEntry>) -> (r: (
    Vec<TreeEntry>,
    bool,
))
    requires
        distinct_filenames(current@),
        distinct_filenames(updates@),
    ensures
        r.1 == any_modified(current@, updates@),
        sorted_names(r.0@),
        distinct_filenames(r.0@),
        forall|i: int|
            0 <= i < updates@.len() ==> tree_has(
                r.0@,
                (#[trigger] updates@[i]).filename@,
                updates@[i].oid@,
                merged_mode(current@, updates@[i]),
            ),
        forall|i: int|
            0 <= i < current@.len() && !has_entry(updates@, (#[trigger] current@[i]).filename@)
                ==> tree_has(r.0@, current@[i].filename@, current@[i].oid@, current@[i].mode),
        forall|i: int|
            0 <= i < r.0@.len() ==> has_entry(updates@, (#[trigger] r.0@[i]).filename@)
                || has_entry(current@, r.0@[i].filename@),
{
    let mut entries: Vec<TreeEntry> = Vec::new();
    let mut modified = false;
    let mut i: usize = 0;
    while i < updates.len()
        invariant
            0 <= i <= updates@.len(),
            distinct_filenames(current@),
            distinct_filenames(updates@),
            entries@.len() == i,
            forall|j: int|
                0 <= j < i ==> (#[trigger] entries@[j]).filename@ == updates@[j].filename@
                    && entries@[j].oid@ == updates@[j].oid@ && entries@[j].mode == merged_mode(
                    current@,
                    updates@[j],
                ),
            modified == exists|j: int| 0 <= j < i && !keeps_existing(current@, #[trigger] updates@[j]),
        decreases updates@.len() - i,
    {
        let u = &updates[i];
        let k = find_entry(current, u.filename.as_slice());
        proof {
            lemma_entry_index_range(current@, u.filename@);
        }
        if k < current.len() && bytes_eq(current[k].oid.as_slice(), u.oid.as_slice()) {
            proof {
                assert(keeps_existing(current@, updates@[i as int]));
            }
            entries.push(current[k].duplicate());
        } else {
            proof {
                assert(!keeps_existing(current@, updates@[i as int]));
            }
            entries.push(u.duplicate());
            modified = true;
        }
        i = i + 1;
    }
    let ghost nu = updates@.len() as int;
    let mut c: usize = 0;
    while c < current.len()
        invariant
            0 <= c <= current@.len(),
            distinct_filenames(current@),
            distinct_filenames(updates@),
            entries@.len() >= nu,
            nu == updates@.len(),
            forall|j: int|
                0 <= j < nu ==> (#[trigger] entries@[j]).filename@ == updates@[j].filename@
                    && entries@[j].oid@ == updates@[j].oid@ && entries@[j].mode == merged_mode(
                    current@,
                    updates@[j],
                ),
            forall|k: int|
                nu <= k < entries@.len() ==> exists|j: int|
                    0 <= j < c && (#[trigger] entries@[k]).filename@ == current@[j].filename@
                        && entries@[k].oid@ == current@[j].oid@ && entries@[k].mode
                        == current@[j].mode && !has_entry(updates@, current@[j].filename@),
            forall|j: int|
                0 <= j < c && !has_entry(updates@, (#[trigger] current@[j]).filename@) ==> tree_has(
                    entries@,
                    current@[j].filename@,
                    current@[j].oid@,
                    current@[j].mode,
                ),
            distinct_filenames(entries@),
        decreases current@.len() - c,
    {
        let k = find_entry(updates, current[c].filename.as_slice());
        if k == updates.len() {
            let ghost prev = entries@;
            entries.push(current[c].duplicate());
            proof {
                assert(!has_entry(updates@, current@[c as int].filename@));
                let newk = entries@.len() - 1;
                assert(entries@[newk].filename@ == current@[c as int].filename@);
                assert forall|x: int, y: int|
                    0 <= x < y < entries@.len() implies entries@[x].filename@
                    != entries@[y].filename@ by {
                    if y == newk {
                        if x < nu {
                            if entries@[x].filename@ == entries@[newk].filename@ {
                                lemma_has_entry_exists(updates@, current@[c as int].filename@);
                                assert(updates@[x].filename@ == current@[c as int].filename@);
                                assert(false);
                            }
                        } else {
                            if entries@[x].filename@ == entries@[newk].filename@ {
                                let j = choose|j: int|
                                    0 <= j < c && (#[trigger] prev[x]).filename@
                                        == current@[j].filename@ && prev[x].oid@
                                        == current@[j].oid@ && prev[x].mode == current@[j].mode
                                        && !has_entry(updates@, current@[j].filename@);
                                assert(current@[j].filename@ == current@[c as int].filename@);
                                assert(false);
                            }
                        }
                    } else {
                        assert(entries@[x] == prev[x]);
                        assert(entries@[y] == prev[y]);
                    }
                }
                assert forall|j: int|
                    0 <= j < c + 1 && !has_entry(
                        updates@,
                        (#[trigger] current@[j]).filename@,
                    ) implies tree_has(
                    entries@,
                    current@[j].filename@,
                    current@[j].oid@,
                    current@[j].mode,
                ) by {
                    if j < c {
                        let w = choose|w: int|
                            0 <= w < prev.len() && (#[trigger] prev[w]).filename@
                                == current@[j].filename@ && prev[w].oid@ == current@[j].oid@
                                && prev[w].mode == current@[j].mode;
                        assert(entries@[w] == prev[w]);
                    } else {
                        assert(entries@[newk].filename@ == current@[j].filename@);
                        assert(entries@[newk].oid@ == current@[j].oid@);
                        assert(entries@[newk].mode == current@[j].mode);
                    }
                }
            }
        }
        c = c + 1;
    }
    let ghost pre = entries@;
    let sorted = sort_entries(entries);
    proof {
        lemma_tree_has_perm(pre, sorted@);
        lemma_perm_distinct(pre, sorted@);
        lemma_perm_contains(sorted@, pre);
        assert forall|i: int|
            0 <= i < updates@.len() implies tree_has(
            sorted@,
            (#[trigger] updates@[i]).filename@,
            updates@[i].oid@,
            merged_mode(current@, updates@[i]),
        ) by {
            assert(pre[i].filename@ == updates@[i].filename@);
            assert(tree_has(pre, updates@[i].filename@, updates@[i].oid@, merged_mode(
                current@,
                updates@[i],
            )));
        }
        assert forall|i: int|
            0 <= i < current@.len() && !has_entry(
                updates@,
                (#[trigger] current@[i]).filename@,
            ) implies tree_has(
            sorted@,
            current@[i].filename@,
            current@[i].oid@,
            current@[i].mode,
        ) by {
            assert(tree_has(pre, current@[i].filename@, current@[i].oid@, current@[i].mode));
        }
        assert forall|i: int|
            0 <= i < sorted@.len() implies has_entry(
            updates@,
            (#[trigger] sorted@[i]).filename@,
        ) || has_entry(current@, sorted@[i].filename@) by {
            assert(sorted@.contains(sorted@[i]));
            assert(pre.contains(sorted@[i]));
            let k = choose|k: int| 0 <= k < pre.len() && pre[k] == sorted@[i];
            if k < nu {
                lemma_has_entry_exists(updates@, pre[k].filename@);
            } else {
                let j = choose|j: int|
                    0 <= j < current@.len() && (#[trigger] pre[k]).filename@
                        == current@[j].filename@ && pre[k].oid@ == current@[j].oid@ && pre[k].mode
                        == current@[j].mode && !has_entry(updates@, current@[j].filename@);
                lemma_has_entry_exists(current@, pre[k].filename@);
            }
        }
    }
    (sorted, modified)
}

/// When every file handed to the commit builder still has the blob the
/// current tree records for it, nothing is modified and no commit is made;
/// and since the tree is then left untouched, a second run with the same
/// inputs takes the same no-op path.
pub proof fn lemma_unchanged_updates_no_commit(cur: Seq<TreeEntry>, upd: Seq<TreeEntry>)
    requires
        forall|i: int| 0 <= i < upd.len() ==> keeps_existing(cur, #[trigger] upd[i]),
    ensures
        !any_modified(cur, upd),
{
}

} // verus!
