//! The stateful rim of the commit builder, modelled on plain values: the
//! clean-working-tree check, the substitution of the new version into file
//! contents, the commit record and its message, and the reference store with
//! its compare-and-swap branch update and create-only tag references.

use vstd::prelude::*;

use crate::text::bytes_eq;
use crate::text::contains_bytes;
use crate::text::contains_seq;
use crate::text::copy_bytes;
use crate::text::replace_all;
use crate::text::replaced;
use crate::version::distinct_names;
use crate::version::lookup;
use crate::version::names_view;
use crate::version::pairs_view;
use crate::version::find_pair;
use crate::BumpError;

verus! {

/// Every changed path is one of the files about to be committed.
pub open spec fn only_targets_changed(changed: Seq<Seq<u8>>, targets: Seq<Seq<u8>>) -> bool {
    forall|i: int| 0 <= i < changed.len() ==> targets.contains(#[trigger] changed[i])
}

/// Is `x` one of the listed names?
pub fn names_contain(list: &Vec<Vec<u8>>, x: &[u8]) -> (r: bool)
    ensures
        r == names_view(list@).contains(x@),
{
    let mut i: usize = 0;
    while i < list.len()
        invariant
            0 <= i <= list@.len(),
            forall|j: int| 0 <= j < i ==> names_view(list@)[j] != x@,
        decreases list@.len() - i,
    {
        if bytes_eq(list[i].as_slice(), x) {
            proof {
                assert(names_view(list@)[i as int] == x@);
            }
            return true;
        }
        i = i + 1;
    }
    false
}

/// Refuses to run when the working tree holds an uncommitted change to any
/// file other than the ones about to be committed.
pub fn check_working_tree(changed: &Vec<Vec<u8>>, targets: &Vec<Vec<u8>>) -> (r: Result<
    (),
    BumpError,
>)
    ensures
        r is Ok <==> only_targets_changed(names_view(changed@), names_view(targets@)),
        r is Err ==> r == Err::<(), BumpError>(BumpError::DirtyWorkingTree),
{
    let mut i: usize = 0;
    while i < changed.len()
        invariant
            0 <= i <= changed@.len(),
            forall|j: int|
                0 <= j < i ==> names_view(targets@).contains(#[trigger] names_view(changed@)[j]),
        decreases changed@.len() - i,
    {
        if !names_contain(targets, changed[i].as_slice()) {
            proof {
                assert(names_view(changed@)[i as int] == changed@[i as int]@);
            }
            return Err(BumpError::DirtyWorkingTree);
        }
        proof {
            assert(names_view(changed@)[i as int] == changed@[i as int]@);
        }
        i = i + 1;
    }
    Ok(())
}

/// The new content of one target file: every occurrence of the current
/// version replaced by the new one.  A file in which the current version
/// does not occur verbatim is an error, reported before anything is written.
pub fn plan_file_update(content: &[u8], current: &[u8], new_version: &[u8]) -> (r: Result<
    Vec<u8>,
    BumpError,
>)
    requires
        current@.len() > 0,
    ensures
        contains_seq(content@, current@) ==> (r matches Ok(out) && out@ == replaced(
            content@,
            current@,
            new_version@,
        )),
        !contains_seq(content@, current@) ==> r == Err::<Vec<u8>, BumpError>(
            BumpError::MissingVersionInFile,
        ),
{
    if contains_bytes(content, current) {
        Ok(replace_all(content, current, new_version))
    } else {
        Err(BumpError::MissingVersionInFile)
    }
}

/// The bytes of `{current_version}`.
pub open spec fn current_placeholder() -> Seq<u8> {
    seq![123u8, 99, 117, 114, 114, 101, 110, 116, 95, 118, 101, 114, 115, 105, 111, 110, 125]
}

/// The bytes of `{new_version}`.
pub open spec fn new_placeholder() -> Seq<u8> {
    seq![123u8, 110, 101, 119, 95, 118, 101, 114, 115, 105, 111, 110, 125]
}

fn current_placeholder_bytes() -> (r: Vec<u8>)
    ensures
        r@ == current_placeholder(),
{
    let mut v: Vec<u8> = Vec::new();
    v.push(123u8);
    v.push(99u8);
    v.push(117u8);
    v.push(114u8);
    v.push(114u8);
    v.push(101u8);
    v.push(110u8);
    v.push(116u8);
    v.push(95u8);
    v.push(118u8);
    v.push(101u8);
    v.push(114u8);
    v.push(115u8);
    v.push(105u8);
    v.push(111u8);
    v.push(110u8);
    v.push(125u8);
    proof {
        assert(v@ =~= current_placeholder());
    }
    v
}

fn new_placeholder_bytes() -> (r: Vec<u8>)
    ensures
        r@ == new_placeholder(),
{
    let mut v: Vec<u8> = Vec::new();
    v.push(123u8);
    v.push(110u8);
    v.push(101u8);
    v.push(119u8);
    v.push(95u8);
    v.push(118u8);
    v.push(101u8);
    v.push(114u8);
    v.push(115u8);
    v.push(105u8);
    v.push(111u8);
    v.push(110u8);
    v.push(125u8);
    proof {
        assert(v@ =~= new_placeholder());
    }
    v
}

/// The commit message: the template with `{current_version}` and then
/// `{new_version}` substituted.
pub open spec fn rendered_message(template: Seq<u8>, cur: Seq<u8>, new: Seq<u8>) -> Seq<u8> {
    replaced(replaced(template, current_placeholder(), cur), new_placeholder(), new)
}

/// Renders the commit-message template.
pub fn render_message(template: &[u8], cur: &[u8], new_version: &[u8]) -> (r: Vec<u8>)
    ensures
        r@ == rendered_message(template@, cur@, new_version@),
{
    let cp = current_placeholder_bytes();
    let np = new_placeholder_bytes();
    let first = replace_all(template, cp.as_slice(), cur);
    replace_all(first.as_slice(), np.as_slice(), new_version)
}

/// A commit object: the new tree, the sole parent (the tip the run started
/// from), the identity taken from the parent commit's committer, and the
/// rendered message.  It is written once and never mutated.
#[derive(Debug)]
pub struct Commit {
    pub tree: Vec<u8>,
    pub parent: Vec<u8>,
    pub author_name: Vec<u8>,
    pub author_email: Vec<u8>,
    pub message: Vec<u8>,
}

/// Assembles the commit record for a version bump.
pub fn build_commit(
    tree: &[u8],
    parent: &[u8],
    author_name: &[u8],
    author_email: &[u8],
    template: &[u8],
    cur: &[u8],
    new_version: &[u8],
) -> (r: Commit)
    ensures
        r.tree@ == tree@,
        r.parent@ == parent@,
        r.author_name@ == author_name@,
        r.author_email@ == author_email@,
        r.message@ == rendered_message(template@, cur@, new_version@),
{
    Commit {
        tree: copy_bytes(tree),
        parent: copy_bytes(parent),
        author_name: copy_bytes(author_name),
        author_email: copy_bytes(author_email),
        message: render_message(template, cur, new_version),
    }
}

/// The named references of a repository: each name points at one object id.
/// The branch reference is the single mutable pointer of the whole run; it
/// is moved only by compare-and-swap.
#[derive(Debug)]
pub struct RefStore {
    pub refs: Vec<(Vec<u8>, Vec<u8>)>,
}

/// Rebuilds `refs` with the value of every pair named `target` replaced.
fn set_ref_value(refs: &Vec<(Vec<u8>, Vec<u8>)>, target: &[u8], v: &[u8]) -> (r: Vec<
    (Vec<u8>, Vec<u8>),
>)
    ensures
        r@.len() == refs@.len(),
        forall|j: int|
            0 <= j < refs@.len() ==> (#[trigger] pairs_view(r@)[j]).0 == pairs_view(refs@)[j].0,
        forall|j: int|
            0 <= j < refs@.len() ==> (#[trigger] pairs_view(r@)[j]).1 == if pairs_view(
                refs@,
            )[j].0 == target@ {
                v@
            } else {
                pairs_view(refs@)[j].1
            },
{
    let mut out: Vec<(Vec<u8>, Vec<u8>)> = Vec::new();
    let mut i: usize = 0;
    while i < refs.len()
        invariant
            0 <= i <= refs@.len(),
            out@.len() == i,
            forall|j: int|
                0 <= j < i ==> (#[trigger] pairs_view(out@)[j]).0 == pairs_view(refs@)[j].0,
            forall|j: int|
                0 <= j < i ==> (#[trigger] pairs_view(out@)[j]).1 == if pairs_view(
                    refs@,
                )[j].0 == target@ {
                    v@
                } else {
                    pairs_view(refs@)[j].1
                },
        decreases refs@.len() - i,
    {
        let name = copy_bytes(refs[i].0.as_slice());
        let ghost prev = out@;
        proof {
            assert(pairs_view(refs@)[i as int] == (refs@[i as int].0@, refs@[i as int].1@));
        }
        if bytes_eq(name.as_slice(), target) {
            out.push((name, copy_bytes(v)));
        } else {
            out.push((name, copy_bytes(refs[i].1.as_slice())));
        }
        proof {
            assert forall|j: int| 0 <= j < i + 1 implies (#[trigger] pairs_view(out@)[j]).0
                == pairs_view(refs@)[j].0 && pairs_view(out@)[j].1 == (if pairs_view(
                refs@,
            )[j].0 == target@ {
                v@
            } else {
                pairs_view(refs@)[j].1
            }) by {
                assert(pairs_view(out@)[j] == (out@[j].0@, out@[j].1@));
                assert(pairs_view(refs@)[j] == (refs@[j].0@, refs@[j].1@));
                if j < i {
                    assert(out@[j] == prev[j]);
                    assert(pairs_view(prev)[j] == (prev[j].0@, prev[j].1@));
                }
            }
        }
        i = i + 1;
    }
    out
}

/// Looking up in a sequence whose values were rewritten at `target` yields
/// the new value where the name was present, and is unchanged elsewhere.
proof fn lemma_lookup_rewritten(
    ps1: Seq<(Seq<u8>, Seq<u8>)>,
    ps2: Seq<(Seq<u8>, Seq<u8>)>,
    target: Seq<u8>,
    v: Seq<u8>,
)
    requires
        ps1.len() == ps2.len(),
        forall|j: int| 0 <= j < ps1.len() ==> (#[trigger] ps2[j]).0 == ps1[j].0,
        forall|j: int|
            0 <= j < ps1.len() ==> (#[trigger] ps2[j]).1 == if ps1[j].0 == target {
                v
            } else {
                ps1[j].1
            },
    ensures
        lookup(ps2, target) == if lookup(ps1, target) is Some {
            Some(v)
        } else {
            None::<Seq<u8>>
        },
        forall|m: Seq<u8>| m != target ==> lookup(ps2, m) == lookup(ps1, m),
    decreases ps1.len(),
{
    if ps1.len() > 0 {
        assert(ps2[0].0 == ps1[0].0);
        assert(ps2[0].1 == if ps1[0].0 == target {
            v
        } else {
            ps1[0].1
        });
        let t1 = ps1.skip(1);
        let t2 = ps2.skip(1);
        assert forall|j: int| 0 <= j < t1.len() implies (#[trigger] t2[j]).0 == t1[j].0 by {
            assert(t2[j] == ps2[j + 1]);
            assert(t1[j] == ps1[j + 1]);
        }
        assert forall|j: int| 0 <= j < t1.len() implies (#[trigger] t2[j]).1 == if t1[j].0
            == target {
            v
        } else {
            t1[j].1
        } by {
            assert(t2[j] == ps2[j + 1]);
            assert(t1[j] == ps1[j + 1]);
        }
        lemma_lookup_rewritten(t1, t2, target, v);
        assert forall|m: Seq<u8>| m != target implies lookup(ps2, m) == lookup(ps1, m) by {
            if ps1[0].0 == m {
                assert(lookup(ps1, m) == Some(ps1[0].1));
                assert(lookup(ps2, m) == Some(ps2[0].1));
            } else {
                assert(lookup(ps1, m) == lookup(t1, m));
                assert(lookup(ps2, m) == lookup(t2, m));
            }
        }
    }
}

impl RefStore {
    /// No two references share a name.
    pub open spec fn well_formed(&self) -> bool {
        distinct_names(pairs_view(self.refs@))
    }

    /// The id the named reference points at, if it exists.
    pub open spec fn target_of(&self, name: Seq<u8>) -> Option<Seq<u8>> {
        lookup(pairs_view(self.refs@), name)
    }

    /// An empty store.
    pub fn new() -> (r: RefStore)
        ensures
            r.well_formed(),
            forall|n: Seq<u8>| r.target_of(n) is None,
    {
        RefStore { refs: Vec::new() }
    }

    /// Reads a reference.
    pub fn read_ref(&self, name: &[u8]) -> (r: Option<Vec<u8>>)
        ensures
            match r {
                Some(id) => self.target_of(name@) == Some(id@),
                None => self.target_of(name@) is None,
            },
    {
        match find_pair(&self.refs, name) {
            Some(k) => Some(copy_bytes(self.refs[k].1.as_slice())),
            None => None,
        }
    }

    /// Updates the named reference by compare-and-swap: the swap succeeds
    /// only when the stored id still equals the id read before the operation
    /// began; otherwise the store is left untouched and the conflict is
    /// reported.
    pub fn compare_and_swap(&mut self, name: &[u8], expected: &[u8], new_id: &[u8]) -> (r: Result<
        (),
        BumpError,
    >)
        requires
            old(self).well_formed(),
        ensures
            final(self).well_formed(),
            old(self).target_of(name@) == Some(expected@) ==> {
                &&& r is Ok
                &&& final(self).target_of(name@) == Some(new_id@)
                &&& forall|m: Seq<u8>| m != name@ ==> final(self).target_of(m) == old(
                    self,
                ).target_of(m)
            },
            old(self).target_of(name@) != Some(expected@) ==> {
                &&& r == Err::<(), BumpError>(BumpError::RefConflict)
                &&& final(self).refs@ == old(self).refs@
            },
    {
        let matches_expected = match find_pair(&self.refs, name) {
            Some(k) => bytes_eq(self.refs[k].1.as_slice(), expected),
            None => false,
        };
        if !matches_expected {
            return Err(BumpError::RefConflict);
        }
        let ghost ps1 = pairs_view(self.refs@);
        let updated = set_ref_value(&self.refs, name, new_id);
        proof {
            lemma_lookup_rewritten(ps1, pairs_view(updated@), name@, new_id@);
            assert forall|i: int, j: int|
                0 <= i < j < pairs_view(updated@).len() implies (#[trigger] pairs_view(
                updated@,
            )[i]).0 != (#[trigger] pairs_view(updated@)[j]).0 by {
                assert(pairs_view(updated@)[i].0 == ps1[i].0);
                assert(pairs_view(updated@)[j].0 == ps1[j].0);
            }
        }
        self.refs = updated;
        Ok(())
    }

    /// Creates a new reference (a tag).  A reference that already exists is
    /// never overwritten; the duplicate is reported instead.
    pub fn create_ref(&mut self, name: &[u8], target: &[u8]) -> (r: Result<(), BumpError>)
        requires
            old(self).well_formed(),
        ensures
            final(self).well_formed(),
            old(self).target_of(name@) is Some ==> {
                &&& r == Err::<(), BumpError>(BumpError::DuplicateTag)
                &&& final(self).refs@ == old(self).refs@
            },
            old(self).target_of(name@) is None ==> {
                &&& r is Ok
                &&& final(self).target_of(name@) == Some(target@)
                &&& forall|m: Seq<u8>| m != name@ ==> final(self).target_of(m) == old(
                    self,
                ).target_of(m)
            },
    {
        if let Some(_) = find_pair(&self.refs, name) {
            return Err(BumpError::DuplicateTag);
        }
        let ghost ps1 = pairs_view(self.refs@);
        let pair = (copy_bytes(name), copy_bytes(target));
        let ghost px = (pair.0@, pair.1@);
        self.refs.push(pair);
        proof {
            let ps2 = pairs_view(self.refs@);
            assert(ps2.len() == ps1.len() + 1);
            assert forall|j: int| 0 <= j < ps1.len() implies ps2[j] == ps1[j] by {
                assert(pairs_view(old(self).refs@)[j] == (old(self).refs@[j].0@, old(
                    self,
                ).refs@[j].1@));
                assert(self.refs@[j] == old(self).refs@[j]);
            }
            assert(ps2[ps1.len() as int] == px);
            assert(ps2 =~= ps1.push(px));
            crate::version::lemma_lookup_push(ps1, px, name@);
            assert forall|m: Seq<u8>| m != name@ implies lookup(ps2, m) == lookup(ps1, m) by {
                crate::version::lemma_lookup_push(ps1, px, m);
            }
            assert forall|i: int, j: int| 0 <= i < j < ps2.len() implies (#[trigger] ps2[i]).0
                != (#[trigger] ps2[j]).0 by {
                if j == ps1.len() {
                    if ps2[i].0 == px.0 {
                        crate::version::lemma_lookup_some(ps1, i);
                        assert(false);
                    }
                }
            }
        }
        Ok(())
    }
}

} // verus!
