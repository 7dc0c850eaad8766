//! The line-level difference of two hash lists.
//!
//! Two lists are aligned along a longest common subsequence of their
//! fingerprints. What both hold there is reported as `Same`, what only the
//! first holds as `Rem`, what only the second holds as `Add`, and neighbours
//! of one kind are gathered into one segment. Lines are compared by
//! fingerprint alone: a `Same` segment says that the lines hash equally, not
//! that their text is equal.

use crate::hashlist::{
    self, canonical_string, decoded, first_malformed, render_canonical, well_formed, HashList,
    MalformedFingerprint,
};
use vstd::prelude::*;

verus! {

/// What a segment of a difference says of its lines.
#[derive(Clone, Copy, Debug, PartialEq, Eq, Structural)]
pub enum DiffType {
    /// The lines are in both lists.
    Same,
    /// The lines are in the second list only.
    Add,
    /// The lines are in the first list only.
    Rem,
}

/// One step of an edit script: a fingerprint and what happens to it.
pub struct Edit {
    pub tag: DiffType,
    pub hash: hashlist::Hash,
}

/// A run of fingerprints of one kind, as a mathematical value.
pub struct DiffSegment {
    pub tag: DiffType,
    pub run: Seq<hashlist::Hash>,
}

/// One segment of a difference: a kind and the run of fingerprints it covers.
#[derive(Debug)]
pub struct Diff {
    diff_type: DiffType,
    data: Vec<hashlist::Hash>,
}

impl View for Diff {
    type V = DiffSegment;

    closed spec fn view(&self) -> DiffSegment {
        DiffSegment { tag: self.diff_type, run: self.data@ }
    }
}

/// The segments as mathematical values.
pub open spec fn segment_views(segments: Seq<Diff>) -> Seq<DiffSegment> {
    segments.map_values(|segment: Diff| segment@)
}

/// The length of a longest common subsequence of `a` from `i` on and `b`
/// from `j` on.
pub open spec fn lcs_len(a: Seq<hashlist::Hash>, b: Seq<hashlist::Hash>, i: int, j: int) -> nat
    decreases a.len() - i + b.len() - j,
{
    if i < 0 || j < 0 || i >= a.len() || j >= b.len() {
        0
    } else if a[i] == b[j] {
        1 + lcs_len(a, b, i + 1, j + 1)
    } else if lcs_len(a, b, i + 1, j) >= lcs_len(a, b, i, j + 1) {
        lcs_len(a, b, i + 1, j)
    } else {
        lcs_len(a, b, i, j + 1)
    }
}

/// The edit script that takes `a` from `i` on to `b` from `j` on.
///
/// Where the two lists hold the same fingerprint, it is kept. Otherwise the
/// script drops the fingerprint of `a` if what is left then still has a
/// common subsequence as long as after taking the fingerprint of `b`, and
/// takes the fingerprint of `b` if not: of two scripts of equal length the
/// one that removes first is chosen.
pub open spec fn edit_script(
    a: Seq<hashlist::Hash>,
    b: Seq<hashlist::Hash>,
    i: int,
    j: int,
) -> Seq<Edit>
    decreases a.len() - i + b.len() - j,
{
    if i < 0 || j < 0 || i > a.len() || j > b.len() || (i == a.len() && j == b.len()) {
        Seq::<Edit>::empty()
    } else if j == b.len() {
        seq![Edit { tag: DiffType::Rem, hash: a[i] }] + edit_script(a, b, i + 1, j)
    } else if i == a.len() {
        seq![Edit { tag: DiffType::Add, hash: b[j] }] + edit_script(a, b, i, j + 1)
    } else if a[i] == b[j] {
        seq![Edit { tag: DiffType::Same, hash: a[i] }] + edit_script(a, b, i + 1, j + 1)
    } else if lcs_len(a, b, i + 1, j) >= lcs_len(a, b, i, j + 1) {
        seq![Edit { tag: DiffType::Rem, hash: a[i] }] + edit_script(a, b, i + 1, j)
    } else {
        seq![Edit { tag: DiffType::Add, hash: b[j] }] + edit_script(a, b, i, j + 1)
    }
}

/// The segments after one more step: the step lengthens the last segment if
/// it is of the same kind, and opens a new segment if not.
pub open spec fn with_edit(segments: Seq<DiffSegment>, edit: Edit) -> Seq<DiffSegment> {
    if segments.len() > 0 && segments.last().tag == edit.tag {
        segments.update(
            segments.len() - 1,
            DiffSegment { tag: edit.tag, run: segments.last().run.push(edit.hash) },
        )
    } else {
        segments.push(DiffSegment { tag: edit.tag, run: seq![edit.hash] })
    }
}

/// The steps of a script gathered into maximal runs of one kind.
pub open spec fn coalesce(edits: Seq<Edit>) -> Seq<DiffSegment>
    decreases edits.len(),
{
    if edits.len() == 0 {
        Seq::<DiffSegment>::empty()
    } else {
        with_edit(coalesce(edits.drop_last()), edits.last())
    }
}

/// The difference of two lists.
pub open spec fn diff_of(a: Seq<hashlist::Hash>, b: Seq<hashlist::Hash>) -> Seq<DiffSegment> {
    coalesce(edit_script(a, b, 0, 0))
}

/// A step of kind `tag` belongs to the side `keep`: `Rem` names the first list,
/// which holds what is `Same` or `Rem`, and `Add` the second, which holds what
/// is `Same` or `Add`.
pub open spec fn on_side(tag: DiffType, keep: DiffType) -> bool {
    tag == DiffType::Same || tag == keep
}

/// The fingerprints of the steps on one side, in order.
pub open spec fn edits_side(edits: Seq<Edit>, keep: DiffType) -> Seq<hashlist::Hash>
    decreases edits.len(),
{
    if edits.len() == 0 {
        Seq::<hashlist::Hash>::empty()
    } else if on_side(edits.last().tag, keep) {
        edits_side(edits.drop_last(), keep).push(edits.last().hash)
    } else {
        edits_side(edits.drop_last(), keep)
    }
}

/// The runs of the segments on one side, laid end to end.
pub open spec fn segments_side(segments: Seq<DiffSegment>, keep: DiffType) -> Seq<hashlist::Hash>
    decreases segments.len(),
{
    if segments.len() == 0 {
        Seq::<hashlist::Hash>::empty()
    } else if on_side(segments.last().tag, keep) {
        segments_side(segments.drop_last(), keep) + segments.last().run
    } else {
        segments_side(segments.drop_last(), keep)
    }
}

/// The number of fingerprints in segments that are not `Same`.
pub open spec fn changed(segments: Seq<DiffSegment>) -> nat
    decreases segments.len(),
{
    if segments.len() == 0 {
        0
    } else if segments.last().tag == DiffType::Same {
        changed(segments.drop_last())
    } else {
        changed(segments.drop_last()) + segments.last().run.len()
    }
}

/// The number of fingerprints in `Same` segments.
pub open spec fn unchanged(segments: Seq<DiffSegment>) -> nat
    decreases segments.len(),
{
    if segments.len() == 0 {
        0
    } else if segments.last().tag == DiffType::Same {
        unchanged(segments.drop_last()) + segments.last().run.len()
    } else {
        unchanged(segments.drop_last())
    }
}

/// No segment is empty and no two neighbours are of one kind.
pub open spec fn maximal_runs(segments: Seq<DiffSegment>) -> bool {
    &&& forall|k: int| 0 <= k < segments.len() ==> (#[trigger] segments[k]).run.len() > 0
    &&& forall|k: int, l: int|
        0 <= k && l == k + 1 && l < segments.len() ==> (#[trigger] segments[k]).tag
            != (#[trigger] segments[l]).tag
}

/// The number of `Same` steps.
pub open spec fn edits_same(edits: Seq<Edit>) -> nat
    decreases edits.len(),
{
    if edits.len() == 0 {
        0
    } else if edits.last().tag == DiffType::Same {
        edits_same(edits.drop_last()) + 1
    } else {
        edits_same(edits.drop_last())
    }
}

/// The steps that a run of one kind stands for.
pub open spec fn run_edits(tag: DiffType, run: Seq<hashlist::Hash>) -> Seq<Edit> {
    Seq::new(run.len(), |k: int| Edit { tag, hash: run[k] })
}

/// The steps that the segments stand for, in order.
pub open spec fn expand(segments: Seq<DiffSegment>) -> Seq<Edit>
    decreases segments.len(),
{
    if segments.len() == 0 {
        Seq::<Edit>::empty()
    } else {
        expand(segments.drop_last()) + run_edits(segments.last().tag, segments.last().run)
    }
}

/// The sides and the count of `Same` steps of two scripts laid end to end
/// are those of the first followed by those of the second.
pub proof fn lemma_edits_concat(x: Seq<Edit>, y: Seq<Edit>)
    ensures
        edits_side(x + y, DiffType::Rem) == edits_side(x, DiffType::Rem) + edits_side(
            y,
            DiffType::Rem,
        ),
        edits_side(x + y, DiffType::Add) == edits_side(x, DiffType::Add) + edits_side(
            y,
            DiffType::Add,
        ),
        edits_same(x + y) == edits_same(x) + edits_same(y),
    decreases y.len(),
{
    if y.len() == 0 {
        assert(x + y == x);
        assert(edits_side(x, DiffType::Rem) + Seq::<hashlist::Hash>::empty() == edits_side(
            x,
            DiffType::Rem,
        ));
        assert(edits_side(x, DiffType::Add) + Seq::<hashlist::Hash>::empty() == edits_side(
            x,
            DiffType::Add,
        ));
    } else {
        lemma_edits_concat(x, y.drop_last());
        assert((x + y).drop_last() == x + y.drop_last());
        assert((x + y).last() == y.last());
        let h = y.last().hash;
        assert((edits_side(x, DiffType::Rem) + edits_side(y.drop_last(), DiffType::Rem)).push(h)
            == edits_side(x, DiffType::Rem) + edits_side(y.drop_last(), DiffType::Rem).push(h));
        assert((edits_side(x, DiffType::Add) + edits_side(y.drop_last(), DiffType::Add)).push(h)
            == edits_side(x, DiffType::Add) + edits_side(y.drop_last(), DiffType::Add).push(h));
    }
}

/// The sides and the count of `Same` steps of a script of one step.
pub proof fn lemma_edits_single(edit: Edit)
    ensures
        edits_side(seq![edit], DiffType::Rem) == if on_side(edit.tag, DiffType::Rem) {
            seq![edit.hash]
        } else {
            Seq::<hashlist::Hash>::empty()
        },
        edits_side(seq![edit], DiffType::Add) == if on_side(edit.tag, DiffType::Add) {
            seq![edit.hash]
        } else {
            Seq::<hashlist::Hash>::empty()
        },
        edits_same(seq![edit]) == if edit.tag == DiffType::Same {
            1nat
        } else {
            0nat
        },
{
    let one = seq![edit];
    let none = Seq::<Edit>::empty();
    assert(one.drop_last() == none);
    assert(one.last() == edit);
    assert(edits_side(none, DiffType::Rem) == Seq::<hashlist::Hash>::empty());
    assert(edits_side(none, DiffType::Add) == Seq::<hashlist::Hash>::empty());
    assert(edits_same(none) == 0);
    assert(Seq::<hashlist::Hash>::empty().push(edit.hash) == seq![edit.hash]);
}

/// The edit script from `i` and `j` on holds, on its first side, `a` from `i`
/// on, and on its second side `b` from `j` on; and it keeps as many
/// fingerprints as a longest common subsequence has.
pub proof fn lemma_script(a: Seq<hashlist::Hash>, b: Seq<hashlist::Hash>, i: int, j: int)
    requires
        0 <= i <= a.len(),
        0 <= j <= b.len(),
    ensures
        edits_side(edit_script(a, b, i, j), DiffType::Rem) == a.subrange(i, a.len() as int),
        edits_side(edit_script(a, b, i, j), DiffType::Add) == b.subrange(j, b.len() as int),
        edits_same(edit_script(a, b, i, j)) == lcs_len(a, b, i, j),
    decreases a.len() - i + b.len() - j,
{
    let n = a.len() as int;
    let m = b.len() as int;
    if i == n && j == m {
        assert(a.subrange(i, n) == Seq::<hashlist::Hash>::empty());
        assert(b.subrange(j, m) == Seq::<hashlist::Hash>::empty());
    } else {
        let keep = i < n && j < m && a[i] == b[j];
        let remove = !keep && (j == m || (i < n && lcs_len(a, b, i + 1, j) >= lcs_len(
            a,
            b,
            i,
            j + 1,
        )));
        let first = if keep {
            Edit { tag: DiffType::Same, hash: a[i] }
        } else if remove {
            Edit { tag: DiffType::Rem, hash: a[i] }
        } else {
            Edit { tag: DiffType::Add, hash: b[j] }
        };
        let i2 = if keep || remove {
            i + 1
        } else {
            i
        };
        let j2 = if keep || !remove {
            j + 1
        } else {
            j
        };
        let rest = edit_script(a, b, i2, j2);
        assert(edit_script(a, b, i, j) == seq![first] + rest);
        lemma_script(a, b, i2, j2);
        lemma_edits_single(first);
        lemma_edits_concat(seq![first], rest);
        if keep || remove {
            assert(a.subrange(i, n) == seq![a[i]] + a.subrange(i + 1, n));
        } else {
            assert(a.subrange(i, n) == Seq::<hashlist::Hash>::empty() + a.subrange(i, n));
        }
        if keep || !remove {
            assert(b.subrange(j, m) == seq![b[j]] + b.subrange(j + 1, m));
        } else {
            assert(b.subrange(j, m) == Seq::<hashlist::Hash>::empty() + b.subrange(j, m));
        }
    }
}

/// Gathering steps into segments keeps the side `keep`.
pub proof fn lemma_coalesce_side(edits: Seq<Edit>, keep: DiffType)
    ensures
        segments_side(coalesce(edits), keep) == edits_side(edits, keep),
    decreases edits.len(),
{
    if edits.len() > 0 {
        let edit = edits.last();
        lemma_coalesce_side(edits.drop_last(), keep);
        let before = coalesce(edits.drop_last());
        let after = coalesce(edits);
        assert(after == with_edit(before, edit));
        if before.len() > 0 && before.last().tag == edit.tag {
            let run = before.last().run;
            let front = segments_side(before.drop_last(), keep);
            assert(after.drop_last() == before.drop_last());
            assert(after.last().run == run.push(edit.hash));
            assert(after.last().tag == edit.tag);
            if on_side(edit.tag, keep) {
                assert(segments_side(after, keep) == front + run.push(edit.hash));
                assert(segments_side(before, keep) == front + run);
                assert(front + run.push(edit.hash) == (front + run).push(edit.hash));
            }
        } else {
            let front = segments_side(before, keep);
            assert(after.drop_last() == before);
            assert(after.last().run == seq![edit.hash]);
            assert(after.last().tag == edit.tag);
            if on_side(edit.tag, keep) {
                assert(segments_side(after, keep) == front + seq![edit.hash]);
                assert(front + seq![edit.hash] == front.push(edit.hash));
            }
        }
    }
}

/// Gathering steps into segments keeps the number of `Same` fingerprints.
pub proof fn lemma_coalesce_same(edits: Seq<Edit>)
    ensures
        unchanged(coalesce(edits)) == edits_same(edits),
    decreases edits.len(),
{
    if edits.len() > 0 {
        let edit = edits.last();
        lemma_coalesce_same(edits.drop_last());
        let before = coalesce(edits.drop_last());
        let after = coalesce(edits);
        assert(after == with_edit(before, edit));
        if before.len() > 0 && before.last().tag == edit.tag {
            assert(after.drop_last() == before.drop_last());
            assert(after.last().run == before.last().run.push(edit.hash));
            assert(after.last().tag == edit.tag);
        } else {
            assert(after.drop_last() == before);
            assert(after.last().run == seq![edit.hash]);
            assert(after.last().tag == edit.tag);
        }
    }
}

/// Gathered segments are never empty, and neighbours differ in kind.
pub proof fn lemma_coalesce_maximal(edits: Seq<Edit>)
    ensures
        maximal_runs(coalesce(edits)),
    decreases edits.len(),
{
    if edits.len() > 0 {
        let edit = edits.last();
        lemma_coalesce_maximal(edits.drop_last());
        let before = coalesce(edits.drop_last());
        let after = coalesce(edits);
        assert(after == with_edit(before, edit));
        assert forall|k: int| 0 <= k < after.len() implies (#[trigger] after[k]).run.len()
            > 0 by {
            if k < before.len() - 1 {
                assert(after[k] == before[k]);
            } else if k < before.len() && before.last().tag != edit.tag {
                assert(after[k] == before[k]);
            }
        }
        assert forall|k: int, l: int| 0 <= k && l == k + 1 && l < after.len() implies (
        #[trigger] after[k]).tag != (#[trigger] after[l]).tag by {
            assert(after[k].tag == before[k].tag);
            if l < before.len() {
                assert(after[l].tag == before[l].tag);
            }
        }
    }
}

/// The difference of two lists holds the first list in its `Same` and `Rem`
/// segments and the second in its `Same` and `Add` segments, each in order.
/// No segment is empty, and no two neighbours are of one kind.
pub proof fn lemma_diff_reconstructs(a: Seq<hashlist::Hash>, b: Seq<hashlist::Hash>)
    ensures
        segments_side(diff_of(a, b), DiffType::Rem) == a,
        segments_side(diff_of(a, b), DiffType::Add) == b,
        maximal_runs(diff_of(a, b)),
{
    let script = edit_script(a, b, 0, 0);
    lemma_script(a, b, 0, 0);
    lemma_coalesce_side(script, DiffType::Rem);
    lemma_coalesce_side(script, DiffType::Add);
    lemma_coalesce_maximal(script);
    assert(a.subrange(0, a.len() as int) == a);
    assert(b.subrange(0, b.len() as int) == b);
}

/// Leaving out the first fingerprint of either list shortens a longest common
/// subsequence by one at most, and never lengthens it.
pub proof fn lemma_lcs_steps(a: Seq<hashlist::Hash>, b: Seq<hashlist::Hash>, i: int, j: int)
    requires
        0 <= i,
        0 <= j,
    ensures
        lcs_len(a, b, i + 1, j) <= lcs_len(a, b, i, j) <= lcs_len(a, b, i + 1, j) + 1,
        lcs_len(a, b, i, j + 1) <= lcs_len(a, b, i, j) <= lcs_len(a, b, i, j + 1) + 1,
    decreases a.len() - i + b.len() - j,
{
    if i < a.len() && j < b.len() {
        lemma_lcs_steps(a, b, i + 1, j);
        lemma_lcs_steps(a, b, i, j + 1);
    }
}

/// A script that takes `a` from `i` on to `b` from `j` on keeps no more
/// fingerprints than a longest common subsequence has.
pub proof fn lemma_script_bound(
    other: Seq<Edit>,
    a: Seq<hashlist::Hash>,
    b: Seq<hashlist::Hash>,
    i: int,
    j: int,
)
    requires
        0 <= i <= a.len(),
        0 <= j <= b.len(),
        edits_side(other, DiffType::Rem) == a.subrange(i, a.len() as int),
        edits_side(other, DiffType::Add) == b.subrange(j, b.len() as int),
    ensures
        edits_same(other) <= lcs_len(a, b, i, j),
    decreases other.len(),
{
    if other.len() > 0 {
        let first = other[0];
        let rest = other.drop_first();
        let n = a.len() as int;
        let m = b.len() as int;
        assert(other == seq![first] + rest);
        lemma_edits_single(first);
        lemma_edits_concat(seq![first], rest);
        let rem = edits_side(rest, DiffType::Rem);
        let add = edits_side(rest, DiffType::Add);
        lemma_lcs_steps(a, b, i, j);
        if first.tag == DiffType::Same {
            assert(a.subrange(i, n) == seq![first.hash] + rem);
            assert(b.subrange(j, m) == seq![first.hash] + add);
            assert(a.subrange(i, n).len() > 0 && b.subrange(j, m).len() > 0);
            assert(a[i] == a.subrange(i, n)[0] && b[j] == b.subrange(j, m)[0]);
            assert(rem == a.subrange(i, n).drop_first());
            assert(add == b.subrange(j, m).drop_first());
            assert(a.subrange(i, n).drop_first() == a.subrange(i + 1, n));
            assert(b.subrange(j, m).drop_first() == b.subrange(j + 1, m));
            lemma_script_bound(rest, a, b, i + 1, j + 1);
        } else if first.tag == DiffType::Rem {
            assert(a.subrange(i, n) == seq![first.hash] + rem);
            assert(b.subrange(j, m) == Seq::<hashlist::Hash>::empty() + add);
            assert(a.subrange(i, n).len() > 0);
            assert(rem == a.subrange(i, n).drop_first());
            assert(a.subrange(i, n).drop_first() == a.subrange(i + 1, n));
            lemma_script_bound(rest, a, b, i + 1, j);
        } else {
            assert(a.subrange(i, n) == Seq::<hashlist::Hash>::empty() + rem);
            assert(b.subrange(j, m) == seq![first.hash] + add);
            assert(b.subrange(j, m).len() > 0);
            assert(add == b.subrange(j, m).drop_first());
            assert(b.subrange(j, m).drop_first() == b.subrange(j + 1, m));
            lemma_script_bound(rest, a, b, i, j + 1);
        }
    }
}

/// The sides and the count of `Same` steps of the steps of one run.
pub proof fn lemma_run_edits(tag: DiffType, run: Seq<hashlist::Hash>)
    ensures
        edits_side(run_edits(tag, run), DiffType::Rem) == if on_side(tag, DiffType::Rem) {
            run
        } else {
            Seq::<hashlist::Hash>::empty()
        },
        edits_side(run_edits(tag, run), DiffType::Add) == if on_side(tag, DiffType::Add) {
            run
        } else {
            Seq::<hashlist::Hash>::empty()
        },
        edits_same(run_edits(tag, run)) == if tag == DiffType::Same {
            run.len()
        } else {
            0nat
        },
    decreases run.len(),
{
    if run.len() > 0 {
        lemma_run_edits(tag, run.drop_last());
        assert(run_edits(tag, run).drop_last() == run_edits(tag, run.drop_last()));
        assert(run.drop_last().push(run.last()) == run);
    }
}

/// Segments and the steps they stand for have the same sides and keep the
/// same number of fingerprints, and the sides together hold each kept
/// fingerprint twice and each other fingerprint once.
pub proof fn lemma_expand(segments: Seq<DiffSegment>)
    ensures
        edits_side(expand(segments), DiffType::Rem) == segments_side(segments, DiffType::Rem),
        edits_side(expand(segments), DiffType::Add) == segments_side(segments, DiffType::Add),
        edits_same(expand(segments)) == unchanged(segments),
        segments_side(segments, DiffType::Rem).len() + segments_side(segments, DiffType::Add).len()
            == 2 * unchanged(segments) + changed(segments),
    decreases segments.len(),
{
    if segments.len() > 0 {
        lemma_expand(segments.drop_last());
        lemma_run_edits(segments.last().tag, segments.last().run);
        lemma_edits_concat(
            expand(segments.drop_last()),
            run_edits(segments.last().tag, segments.last().run),
        );
        assert(segments_side(segments.drop_last(), DiffType::Rem) + Seq::<hashlist::Hash>::empty()
            == segments_side(segments.drop_last(), DiffType::Rem));
        assert(segments_side(segments.drop_last(), DiffType::Add) + Seq::<hashlist::Hash>::empty()
            == segments_side(segments.drop_last(), DiffType::Add));
    }
}

/// No sequence of segments that holds the first list in its `Same` and `Rem`
/// segments and the second in its `Same` and `Add` segments keeps more
/// fingerprints than the difference does, or changes fewer.
pub proof fn lemma_diff_minimal(
    a: Seq<hashlist::Hash>,
    b: Seq<hashlist::Hash>,
    other: Seq<DiffSegment>,
)
    requires
        segments_side(other, DiffType::Rem) == a,
        segments_side(other, DiffType::Add) == b,
    ensures
        unchanged(other) <= unchanged(diff_of(a, b)),
        changed(diff_of(a, b)) <= changed(other),
        unchanged(diff_of(a, b)) == lcs_len(a, b, 0, 0),
{
    lemma_expand(other);
    assert(a.subrange(0, a.len() as int) == a);
    assert(b.subrange(0, b.len() as int) == b);
    lemma_script_bound(expand(other), a, b, 0, 0);
    lemma_script(a, b, 0, 0);
    lemma_coalesce_same(edit_script(a, b, 0, 0));
    lemma_diff_reconstructs(a, b);
    lemma_expand(diff_of(a, b));
}

/// A common subsequence of `a` from `i` on is no longer than what is left
/// of `a`.
pub proof fn lemma_lcs_bound(a: Seq<hashlist::Hash>, b: Seq<hashlist::Hash>, i: int, j: int)
    requires
        0 <= i <= a.len(),
        0 <= j,
    ensures
        lcs_len(a, b, i, j) <= a.len() - i,
    decreases a.len() - i + b.len() - j,
{
    if i < a.len() && j < b.len() {
        lemma_lcs_bound(a, b, i + 1, j + 1);
        lemma_lcs_bound(a, b, i + 1, j);
        lemma_lcs_bound(a, b, i, j + 1);
    }
}

/// `row` holds, for every `j`, the length of a longest common subsequence
/// of `a` from `i` on and `b` from `j` on.
spec fn is_lcs_row(
    row: Seq<usize>,
    a: Seq<hashlist::Hash>,
    b: Seq<hashlist::Hash>,
    i: int,
) -> bool {
    &&& row.len() == b.len()
    &&& forall|j: int| 0 <= j < b.len() ==> #[trigger] row[j] == lcs_len(a, b, i, j)
}

/// The rows are those of `a.len()`, `a.len() - 1`, and so on downwards.
spec fn is_lcs_table(
    rows: Seq<Vec<usize>>,
    a: Seq<hashlist::Hash>,
    b: Seq<hashlist::Hash>,
) -> bool {
    forall|k: int| 0 <= k < rows.len() ==> is_lcs_row((#[trigger] rows[k])@, a, b, a.len() - k)
}

/// A row of `width` zeros.
fn zero_row(width: usize) -> (row: Vec<usize>)
    ensures
        row@.len() == width,
        forall|j: int| 0 <= j < width ==> #[trigger] row@[j] == 0,
{
    let mut row: Vec<usize> = Vec::new();
    let mut j: usize = 0;
    while j < width
        invariant
            j <= width,
            row@.len() == j,
            forall|k: int| 0 <= k < j ==> #[trigger] row@[k] == 0,
        decreases width - j,
    {
        row.push(0);
        j = j + 1;
    }
    row
}

/// The row of `i`, from the row of `i + 1`.
fn lcs_row(a: &[hashlist::Hash], b: &[hashlist::Hash], i: usize, below: &Vec<usize>) -> (row: Vec<
    usize,
>)
    requires
        i < a@.len(),
        is_lcs_row(below@, a@, b@, i + 1),
    ensures
        is_lcs_row(row@, a@, b@, i as int),
{
    let width: usize = b.len();
    let mut row = zero_row(width);
    let mut j: usize = width;
    while j > 0
        invariant
            j <= width,
            width == b@.len(),
            i < a@.len(),
            row@.len() == width,
            is_lcs_row(below@, a@, b@, i + 1),
            forall|k: int| j <= k < width ==> #[trigger] row@[k] == lcs_len(a@, b@, i as int, k),
        decreases j,
    {
        j = j - 1;
        let ghost earlier = row@;
        let right: usize = if j + 1 < width {
            row[j + 1]
        } else {
            0
        };
        let value: usize = if a[i] == b[j] {
            let across: usize = if j + 1 < width {
                below[j + 1]
            } else {
                0
            };
            proof {
                lemma_lcs_bound(a@, b@, i + 1, j + 1);
            }
            across + 1
        } else if below[j] >= right {
            below[j]
        } else {
            right
        };
        row.set(j, value);
        proof {
            assert(right == lcs_len(a@, b@, i as int, j + 1));
            assert(below@[j as int] == lcs_len(a@, b@, i + 1, j as int));
            if j + 1 < width {
                assert(below@[j + 1] == lcs_len(a@, b@, i + 1, j + 1));
            }
            assert(value == lcs_len(a@, b@, i as int, j as int));
            assert forall|k: int| j <= k < width implies #[trigger] row@[k] == lcs_len(
                a@,
                b@,
                i as int,
                k,
            ) by {
                if k > j {
                    assert(row@[k] == earlier[k]);
                }
            }
        }
    }
    row
}

/// The lengths of the longest common subsequences of every pair of tails
/// of `a` and `b`, one row for each tail of `a`, the empty tail first.
fn lcs_table(a: &[hashlist::Hash], b: &[hashlist::Hash]) -> (rows: Vec<Vec<usize>>)
    ensures
        rows@.len() == a@.len() + 1,
        is_lcs_table(rows@, a@, b@),
{
    let mut rows: Vec<Vec<usize>> = Vec::new();
    rows.push(zero_row(b.len()));
    let mut i: usize = a.len();
    while i > 0
        invariant
            i <= a@.len(),
            rows@.len() == a@.len() - i + 1,
            is_lcs_table(rows@, a@, b@),
        decreases i,
    {
        i = i - 1;
        let row = lcs_row(a, b, i, &rows[rows.len() - 1]);
        rows.push(row);
    }
    rows
}

/// The segments of a difference while it is being written: the segments
/// that are complete, and the run that is still open.
struct Script {
    done: Vec<Diff>,
    tag: DiffType,
    run: Vec<hashlist::Hash>,
}

impl Script {
    /// The segments written so far, the open run last.
    spec fn segments(&self) -> Seq<DiffSegment> {
        if self.run@.len() == 0 {
            segment_views(self.done@)
        } else {
            segment_views(self.done@).push(DiffSegment { tag: self.tag, run: self.run@ })
        }
    }

    /// A run is open as soon as anything was written.
    spec fn well_formed(&self) -> bool {
        self.run@.len() == 0 ==> self.done@.len() == 0
    }

    /// A script of no steps.
    fn new() -> (script: Script)
        ensures
            script.well_formed(),
            script.segments() == Seq::<DiffSegment>::empty(),
    {
        let script = Script { done: Vec::new(), tag: DiffType::Same, run: Vec::new() };
        assert(script.segments() =~= Seq::<DiffSegment>::empty());
        script
    }

    /// The script with one more step.
    fn with(self, tag: DiffType, hash: hashlist::Hash) -> (script: Script)
        requires
            self.well_formed(),
        ensures
            script.well_formed(),
            script.segments() == with_edit(self.segments(), Edit { tag, hash }),
    {
        let ghost before = self.segments();
        let Script { done, tag: open, run } = self;
        let mut done = done;
        let mut run = run;
        if run.len() == 0 {
            run.push(hash);
            let script = Script { done, tag, run };
            assert(script.run@ =~= seq![hash]);
            assert(before =~= Seq::<DiffSegment>::empty());
            assert(script.segments() =~= with_edit(before, Edit { tag, hash }));
            script
        } else if open == tag {
            run.push(hash);
            let script = Script { done, tag, run };
            assert(script.segments() =~= with_edit(before, Edit { tag, hash }));
            script
        } else {
            done.push(Diff { diff_type: open, data: run });
            let mut fresh: Vec<hashlist::Hash> = Vec::new();
            fresh.push(hash);
            let script = Script { done, tag, run: fresh };
            assert(segment_views(script.done@) =~= before);
            assert(script.segments() =~= with_edit(before, Edit { tag, hash }));
            script
        }
    }

    /// The segments of the finished script.
    fn finish(self) -> (segments: Vec<Diff>)
        requires
            self.well_formed(),
        ensures
            segment_views(segments@) == self.segments(),
    {
        let ghost before = self.segments();
        let Script { done, tag, run } = self;
        let mut done = done;
        if run.len() > 0 {
            done.push(Diff { diff_type: tag, data: run });
        }
        assert(segment_views(done@) =~= before);
        done
    }
}

impl Diff {
    /// A segment of the given kind over the given run of fingerprints.
    pub fn new(diff_type: DiffType, data: Vec<hashlist::Hash>) -> (segment: Diff)
        ensures
            segment@ == (DiffSegment { tag: diff_type, run: data@ }),
    {
        Diff { diff_type, data }
    }

    /// The kind of the segment.
    pub fn diff_type(&self) -> (tag: DiffType)
        ensures
            tag == self@.tag,
    {
        self.diff_type
    }

    /// The run of fingerprints that the segment covers.
    pub fn data(&self) -> (run: &[hashlist::Hash])
        ensures
            run@ == self@.run,
    {
        self.data.as_slice()
    }

    /// The run of the segment as a canonical string.
    pub fn data_string(&self) -> (text: String)
        ensures
            text@ == canonical_string(self@.run),
    {
        render_canonical(self.data.as_slice())
    }

    /// A segment of the given kind over the run that a canonical string
    /// stands for. Fails where the string is no canonical string, at its
    /// first segment that is no unsigned 32-bit decimal literal.
    pub fn from_data_string(diff_type: DiffType, data: &str) -> (parsed: Result<
        Diff,
        MalformedFingerprint,
    >)
        ensures
            match parsed {
                Ok(segment) => well_formed(data@) && segment@ == (DiffSegment {
                    tag: diff_type,
                    run: decoded(data@),
                }),
                Err(e) => first_malformed(data@, e.line as int),
            },
    {
        match HashList::from_canonical_string(data) {
            Ok(list) => Ok(Diff { diff_type, data: list.into() }),
            Err(e) => Err(e),
        }
    }
}

/// The difference of two lists: the segments that take the first list to the
/// second along a longest common subsequence, removals before additions
/// where either could come first.
///
/// Time and memory grow with the product of the two lengths.
pub fn diff(a: &HashList, b: &HashList) -> (segments: Vec<Diff>)
    ensures
        segment_views(segments@) == diff_of(a@, b@),
{
    let first = a.to_sequence();
    let second = b.to_sequence();
    let n: usize = first.len();
    let m: usize = second.len();
    let rows = lcs_table(first, second);
    let mut script = Script::new();
    let mut i: usize = 0;
    let mut j: usize = 0;
    let ghost mut written: Seq<Edit> = Seq::empty();
    proof {
        assert(written + edit_script(a@, b@, 0, 0) == edit_script(a@, b@, 0, 0));
    }
    while i < n || j < m
        invariant
            first@ == a@,
            second@ == b@,
            n == a@.len(),
            m == b@.len(),
            i <= n,
            j <= m,
            rows@.len() == n + 1,
            is_lcs_table(rows@, a@, b@),
            script.well_formed(),
            script.segments() == coalesce(written),
            written + edit_script(a@, b@, i as int, j as int) == edit_script(a@, b@, 0, 0),
        decreases n - i + m - j,
    {
        let ghost rest = edit_script(a@, b@, i as int, j as int);
        let remove: bool = if j == m {
            true
        } else if i == n {
            false
        } else if first[i] == second[j] {
            false
        } else {
            let down: usize = rows[n - (i + 1)][j];
            let right: usize = if j + 1 < m {
                rows[n - i][j + 1]
            } else {
                0
            };
            down >= right
        };
        let keep: bool = i < n && j < m && first[i] == second[j];
        let tag = if keep {
            DiffType::Same
        } else if remove {
            DiffType::Rem
        } else {
            DiffType::Add
        };
        let hash = if keep || remove {
            first[i]
        } else {
            second[j]
        };
        script = script.with(tag, hash);
        if keep || remove {
            i = i + 1;
        }
        if keep || !remove {
            j = j + 1;
        }
        proof {
            let edit = Edit { tag, hash };
            let after = edit_script(a@, b@, i as int, j as int);
            assert(rest == seq![edit] + after);
            assert(written.push(edit) + after == written + rest);
            assert(written.push(edit).drop_last() == written);
            written = written.push(edit);
        }
    }
    proof {
        assert(written + Seq::<Edit>::empty() == written);
    }
    script.finish()
}

} // verus!
