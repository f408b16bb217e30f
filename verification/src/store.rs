//! ResultStore: grouping, ordering and naming of sweep records for a
//! directory-based binary array store.
//!
//! Records are grouped by their `(case, method)` key and the groups are
//! arranged in ascending key order, the order a key-ordered map would
//! traverse them in, so the output does not depend on the order in which
//! the records were concatenated.  Each group is sorted by the value its
//! control-parameter pattern denotes, descending (a presentation
//! convention for plotting; the originally computed order values are
//! kept, they are not recomputed for the new adjacency), and five
//! parallel arrays are derived per group, each under a deterministic,
//! filesystem-safe name built from the slugs of the two names.  One
//! case-level exact-value entry is produced per case, at the case's
//! first group in key order.  Everything here is a function of the
//! records alone, so writing the same records twice yields the same
//! arrays under the same names.

use crate::bits::{F64_NAN_BITS, abs_bits_spec, f64_order_key};
use crate::naming::{lemma_slug_wf, slug, slug_spec, slug_wf};
use crate::sweep::{Row, RowView, rows_view};
use vstd::prelude::*;
use vstd::string::StringExecFns;

verus! {

/// All records of one `(case, method)` pair, in one series.
pub struct Group {
    pub case: String,
    pub method: String,
    pub rows: Vec<Row>,
}

/// The mathematical content of a `Group`.
pub struct GroupView {
    pub case: Seq<char>,
    pub method: Seq<char>,
    pub rows: Seq<RowView>,
}

impl View for Group {
    type V = GroupView;

    open spec fn view(&self) -> GroupView {
        GroupView { case: self.case@, method: self.method@, rows: rows_view(self.rows@) }
    }
}

/// The views of a sequence of groups.
pub open spec fn groups_view(gs: Seq<Group>) -> Seq<GroupView> {
    gs.map(|i: int, g: Group| g@)
}

/// The grouping key of a record.
pub open spec fn row_key(r: RowView) -> (Seq<char>, Seq<char>) {
    (r.case, r.method)
}

/// The grouping key of a group.
pub open spec fn group_key(g: GroupView) -> (Seq<char>, Seq<char>) {
    (g.case, g.method)
}

/// Whether some group carries the key.
pub open spec fn has_key(gs: Seq<GroupView>, k: (Seq<char>, Seq<char>)) -> bool {
    exists|i: int| 0 <= i < gs.len() && group_key(#[trigger] gs[i]) == k
}

/// The position of the group carrying the key (unique as long as keys
/// are distinct, which `spec_group` guarantees).
pub open spec fn key_index(gs: Seq<GroupView>, k: (Seq<char>, Seq<char>)) -> int {
    choose|i: int| 0 <= i < gs.len() && group_key(#[trigger] gs[i]) == k
}

/// Records grouped by `(case, method)` key: groups stand in the order in
/// which their key is first met, and each group holds its records in
/// input order.
pub open spec fn spec_group(rows: Seq<RowView>) -> Seq<GroupView>
    decreases rows.len(),
{
    if rows.len() == 0 {
        Seq::empty()
    } else {
        let gs = spec_group(rows.drop_last());
        let r = rows.last();
        if has_key(gs, row_key(r)) {
            let i = key_index(gs, row_key(r));
            gs.update(
                i,
                GroupView { case: gs[i].case, method: gs[i].method, rows: gs[i].rows.push(r) },
            )
        } else {
            gs.push(GroupView { case: r.case, method: r.method, rows: seq![r] })
        }
    }
}

/// Structural facts about a grouping: keys are pairwise distinct, no
/// group is empty, and every record of a group carries the group's key.
pub open spec fn grouping_wf(gs: Seq<GroupView>) -> bool {
    &&& forall|i: int, j: int|
        0 <= i < j < gs.len() ==> group_key(#[trigger] gs[i]) != group_key(#[trigger] gs[j])
    &&& forall|i: int| 0 <= i < gs.len() ==> (#[trigger] gs[i].rows).len() > 0
    &&& forall|i: int, j: int|
        0 <= i < gs.len() && 0 <= j < gs[i].rows.len() ==> row_key(#[trigger] gs[i].rows[j])
            == group_key(gs[i])
}

/// Grouping always produces a well-formed sequence of groups.
pub proof fn lemma_spec_group_wf(rows: Seq<RowView>)
    ensures
        grouping_wf(spec_group(rows)),
    decreases rows.len(),
{
    if rows.len() > 0 {
        lemma_spec_group_wf(rows.drop_last());
        let gs = spec_group(rows.drop_last());
        let r = rows.last();
        if has_key(gs, row_key(r)) {
            let i = key_index(gs, row_key(r));
            assert(0 <= i < gs.len() && group_key(gs[i]) == row_key(r));
            let gs2 = spec_group(rows);
            assert(forall|a: int, b: int|
                0 <= a < b < gs2.len() ==> group_key(#[trigger] gs2[a]) != group_key(
                    #[trigger] gs2[b],
                ));
        }
    }
}

/// Whether a record carries the key.
pub open spec fn key_pred(k: (Seq<char>, Seq<char>)) -> spec_fn(RowView) -> bool {
    |r: RowView| row_key(r) == k
}

/// The records of a series that carry the key, in order.
pub open spec fn rows_with_key(rows: Seq<RowView>, k: (Seq<char>, Seq<char>)) -> Seq<RowView> {
    rows.filter(key_pred(k))
}

/// Each group holds exactly the records that carry its key, in input
/// order: grouping loses nothing, invents nothing, and splits nothing
/// across groups.
pub proof fn lemma_spec_group_rows(rows: Seq<RowView>, k: (Seq<char>, Seq<char>))
    ensures
        has_key(spec_group(rows), k) ==> spec_group(rows)[key_index(spec_group(rows), k)].rows
            == rows_with_key(rows, k),
        !has_key(spec_group(rows), k) ==> rows_with_key(rows, k) == Seq::<RowView>::empty(),
    decreases rows.len(),
{
    reveal(Seq::filter);
    if rows.len() == 0 {
        assert(rows_with_key(rows, k) == Seq::<RowView>::empty());
    } else {
        let d = rows.drop_last();
        let r = rows.last();
        let gs = spec_group(d);
        let gs2 = spec_group(rows);
        lemma_spec_group_rows(d, k);
        lemma_spec_group_wf(d);
        lemma_spec_group_wf(rows);
        assert(key_pred(k)(r) == (row_key(r) == k));
        assert(rows.filter(key_pred(k)) == if key_pred(k)(rows.last()) {
            rows.drop_last().filter(key_pred(k)).push(rows.last())
        } else {
            rows.drop_last().filter(key_pred(k))
        });
        assert(rows_with_key(rows, k) == if row_key(r) == k {
            rows_with_key(d, k).push(r)
        } else {
            rows_with_key(d, k)
        });
        if has_key(gs, row_key(r)) {
            let j0 = key_index(gs, row_key(r));
            assert(0 <= j0 < gs.len() && group_key(gs[j0]) == row_key(r));
            assert(gs2 == gs.update(
                j0,
                GroupView { case: gs[j0].case, method: gs[j0].method, rows: gs[j0].rows.push(r) },
            ));
            assert(forall|w: int| 0 <= w < gs2.len() ==> group_key(#[trigger] gs2[w]) == group_key(gs[w]));
            if has_key(gs, k) {
                let i0 = key_index(gs, k);
                assert(0 <= i0 < gs.len() && group_key(gs[i0]) == k);
                assert(group_key(gs2[i0]) == k);
                assert(has_key(gs2, k));
                let i1 = key_index(gs2, k);
                assert(0 <= i1 < gs2.len() && group_key(gs2[i1]) == k);
                assert(i1 == i0);
                if row_key(r) == k {
                    assert(j0 == i0);
                    assert(gs2[i0].rows == gs[i0].rows.push(r));
                } else {
                    assert(j0 != i0);
                    assert(gs2[i0].rows == gs[i0].rows);
                }
            } else {
                if has_key(gs2, k) {
                    let i1 = key_index(gs2, k);
                    assert(0 <= i1 < gs2.len() && group_key(gs2[i1]) == k);
                    assert(group_key(gs[i1]) == k);
                    assert(has_key(gs, k));
                }
                assert(!has_key(gs2, k));
                assert(row_key(r) != k);
            }
        } else {
            let ng = GroupView { case: r.case, method: r.method, rows: seq![r] };
            assert(gs2 == gs.push(ng));
            assert(group_key(ng) == row_key(r));
            assert(forall|w: int| 0 <= w < gs.len() ==> gs2[w] == gs[w]);
            if row_key(r) == k {
                assert(group_key(gs2[gs.len() as int]) == k);
                assert(has_key(gs2, k));
                let i1 = key_index(gs2, k);
                assert(0 <= i1 < gs2.len() && group_key(gs2[i1]) == k);
                assert(i1 == gs.len() as int) by {
                    if i1 < gs.len() {
                        assert(group_key(gs[i1]) == k);
                        assert(has_key(gs, k));
                        assert(rows_with_key(d, k) == gs[key_index(gs, k)].rows);
                        assert(false);
                    }
                }
                assert(!has_key(gs, k));
                assert(gs2[i1].rows == seq![r]);
                assert(Seq::<RowView>::empty().push(r) =~= seq![r]);
            } else {
                if has_key(gs2, k) {
                    let i1 = key_index(gs2, k);
                    assert(0 <= i1 < gs2.len() && group_key(gs2[i1]) == k);
                    if i1 == gs.len() as int {
                        assert(group_key(ng) == k);
                        assert(false);
                    }
                    assert(group_key(gs[i1]) == k);
                    assert(has_key(gs, k));
                    let i0 = key_index(gs, k);
                    assert(i0 == i1);
                    assert(gs2[i1].rows == gs[i0].rows);
                }
            }
        }
    }
}

/// The number of records a sequence of groups holds in all.
pub open spec fn total_rows(gs: Seq<GroupView>) -> nat
    decreases gs.len(),
{
    if gs.len() == 0 {
        0
    } else {
        total_rows(gs.drop_last()) + gs.last().rows.len()
    }
}

proof fn lemma_total_rows_update(gs: Seq<GroupView>, i: int, g: GroupView)
    requires
        0 <= i < gs.len(),
        g.rows.len() == gs[i].rows.len() + 1,
    ensures
        total_rows(gs.update(i, g)) == total_rows(gs) + 1,
    decreases gs.len(),
{
    let gs2 = gs.update(i, g);
    if i == gs.len() - 1 {
        assert(gs2.drop_last() =~= gs.drop_last());
        assert(gs2.last() == g);
    } else {
        assert(gs2.drop_last() =~= gs.drop_last().update(i, g));
        assert(gs2.last() == gs.last());
        lemma_total_rows_update(gs.drop_last(), i, g);
    }
}

/// Grouping neither drops nor duplicates records: the group sizes add
/// up to the number of records grouped.
pub proof fn lemma_spec_group_total(rows: Seq<RowView>)
    ensures
        total_rows(spec_group(rows)) == rows.len(),
    decreases rows.len(),
{
    if rows.len() > 0 {
        lemma_spec_group_total(rows.drop_last());
        let gs = spec_group(rows.drop_last());
        let r = rows.last();
        if has_key(gs, row_key(r)) {
            lemma_spec_group_wf(rows.drop_last());
            let i = key_index(gs, row_key(r));
            lemma_total_rows_update(
                gs,
                i,
                GroupView { case: gs[i].case, method: gs[i].method, rows: gs[i].rows.push(r) },
            );
        } else {
            let gs2 = spec_group(rows);
            assert(gs2.drop_last() =~= gs);
        }
    }
}

/// Group records by their `(case, method)` key.  Groups appear in the
/// order their key is first met; within a group, records keep the input
/// order.
pub fn group_rows(rows: &Vec<Row>) -> (groups: Vec<Group>)
    ensures
        groups_view(groups@) == spec_group(rows_view(rows@)),
{
    let mut groups: Vec<Group> = Vec::new();
    let n = rows.len();
    for k in 0..n
        invariant
            n == rows.len(),
            groups_view(groups@) == spec_group(rows_view(rows@.take(k as int))),
    {
        let ghost pre = rows_view(rows@.take(k as int));
        let ghost post = rows_view(rows@.take(k + 1 as int));
        let ghost gs = groups_view(groups@);
        proof {
            assert(post.drop_last() =~= pre);
            assert(post.last() == rows@[k as int]@);
            lemma_spec_group_wf(pre);
        }
        let r = &rows[k];
        let m = groups.len();
        let mut idx: usize = m;
        for j in 0..m
            invariant
                m == groups.len(),
                gs == groups_view(groups@),
                idx == m || (0 <= idx < m && group_key(gs[idx as int]) == row_key(r@)),
                idx == m ==> forall|j2: int|
                    0 <= j2 < j ==> group_key(#[trigger] gs[j2]) != row_key(r@),
        {
            if idx == m && groups[j].case == r.case && groups[j].method == r.method {
                idx = j;
            }
        }
        if idx < groups.len() {
            proof {
                assert(has_key(gs, row_key(r@)));
                let i0 = key_index(gs, row_key(r@));
                assert(0 <= i0 < gs.len() && group_key(gs[i0]) == row_key(r@));
                assert(i0 == idx as int);
            }
            let ghost gpre = groups@;
            let mut g = groups.remove(idx);
            let ghost grows = g.rows@;
            g.rows.push(r.duplicate());
            let ghost gnew = g@;
            groups.insert(idx, g);
            proof {
                let i = idx as int;
                assert(gpre[i]@ == gs[i]);
                assert(rows_view(g.rows@) =~= rows_view(grows).push(r@));
                assert(gnew.rows == gs[i].rows.push(r@));
                assert(gnew == (GroupView {
                    case: gs[i].case,
                    method: gs[i].method,
                    rows: gs[i].rows.push(r@),
                }));
                assert(spec_group(post) == gs.update(i, gnew));
                assert(groups@ =~= gpre.update(i, groups@[i]));
                assert(groups@[i]@ == gnew);
                assert forall|i2: int| 0 <= i2 < groups@.len() implies groups_view(groups@)[i2]
                    == gs.update(i, gnew)[i2] by {
                    if i2 != i {
                        assert(groups@[i2] == gpre[i2]);
                    }
                }
                assert(groups_view(groups@) =~= gs.update(i, gnew));
            }
        } else {
            proof {
                assert(!has_key(gs, row_key(r@)));
            }
            let mut rs: Vec<Row> = Vec::new();
            rs.push(r.duplicate());
            groups.push(Group { case: r.case.clone(), method: r.method.clone(), rows: rs });
            proof {
                let ng = groups@.last()@;
                assert(ng.rows =~= seq![r@]);
                assert(ng == (GroupView { case: r@.case, method: r@.method, rows: seq![r@] }));
                assert(spec_group(post) == gs.push(ng));
                assert(groups_view(groups@) =~= gs.push(ng));
            }
        }
    }
    proof {
        assert(rows@.take(n as int) =~= rows@);
    }
    groups
}

/// Insertion of one record into a series already sorted by the value
/// its `h` pattern denotes, descending: the record goes behind every
/// record with a larger or equal step.  Values are compared through
/// `f64_order_key`, which orders bit patterns as binary64 values.
pub open spec fn insert_desc(s: Seq<RowView>, r: RowView) -> Seq<RowView>
    decreases s.len(),
{
    if s.len() == 0 {
        seq![r]
    } else if f64_order_key(r.h) <= f64_order_key(s.last().h) {
        s.push(r)
    } else {
        insert_desc(s.drop_last(), r).push(s.last())
    }
}

/// A series sorted by control-parameter value descending, keeping the
/// relative order of records with equal `h`.
pub open spec fn sort_desc(s: Seq<RowView>) -> Seq<RowView>
    decreases s.len(),
{
    if s.len() == 0 {
        Seq::empty()
    } else {
        insert_desc(sort_desc(s.drop_last()), s.last())
    }
}

/// Where the insertion lands: splitting the series at the first position
/// from the end whose predecessor has `h` at least as large.
proof fn lemma_insert_desc_at(s: Seq<RowView>, r: RowView, j: int)
    requires
        0 <= j <= s.len(),
        forall|m: int|
            j <= m < s.len() ==> f64_order_key((#[trigger] s[m]).h) < f64_order_key(r.h),
        j > 0 ==> f64_order_key(s[j - 1].h) >= f64_order_key(r.h),
    ensures
        insert_desc(s, r) == s.take(j) + seq![r] + s.skip(j),
    decreases s.len(),
{
    if j == s.len() {
        if s.len() == 0 {
            assert(insert_desc(s, r) =~= s.take(j) + seq![r] + s.skip(j));
        } else {
            assert(f64_order_key(r.h) <= f64_order_key(s.last().h));
            assert(insert_desc(s, r) == s.push(r));
            assert(s.push(r) =~= s.take(j) + seq![r] + s.skip(j));
        }
    } else {
        assert(f64_order_key(s[s.len() - 1].h) < f64_order_key(r.h));
        lemma_insert_desc_at(s.drop_last(), r, j);
        assert(insert_desc(s, r) == insert_desc(s.drop_last(), r).push(s.last()));
        assert((s.drop_last().take(j) + seq![r] + s.drop_last().skip(j)).push(s.last()) =~= s.take(
            j,
        ) + seq![r] + s.skip(j));
    }
}

/// A series ordered by the denoted control-parameter value descending.
pub open spec fn sorted_by_h_desc(s: Seq<RowView>) -> bool {
    forall|i: int, j: int|
        0 <= i < j < s.len() ==> f64_order_key((#[trigger] s[i]).h) >= f64_order_key(
            (#[trigger] s[j]).h,
        )
}

/// Every record of the series has a step whose order key is at least `b`.
pub open spec fn h_bounded_below(s: Seq<RowView>, b: u64) -> bool {
    forall|i: int| 0 <= i < s.len() ==> f64_order_key((#[trigger] s[i]).h) >= b
}

proof fn lemma_insert_desc_props(s: Seq<RowView>, r: RowView)
    requires
        sorted_by_h_desc(s),
    ensures
        sorted_by_h_desc(insert_desc(s, r)),
        insert_desc(s, r).to_multiset() == s.to_multiset().insert(r),
        forall|b: u64|
            #[trigger] h_bounded_below(insert_desc(s, r), b) <== h_bounded_below(s, b)
                && f64_order_key(r.h) >= b,
    decreases s.len(),
{
    broadcast use vstd::seq_lib::group_to_multiset_ensures;

    if s.len() == 0 {
        assert(seq![r] =~= Seq::<RowView>::empty().push(r));
        assert(insert_desc(s, r).to_multiset() =~= s.to_multiset().insert(r));
    } else if f64_order_key(r.h) <= f64_order_key(s.last().h) {
        assert(forall|i: int|
            0 <= i < s.len() ==> f64_order_key((#[trigger] s[i]).h) >= f64_order_key(s.last().h));
        assert(sorted_by_h_desc(s.push(r)));
    } else {
        let d = s.drop_last();
        assert(sorted_by_h_desc(d));
        lemma_insert_desc_props(d, r);
        let ins = insert_desc(d, r);
        assert(h_bounded_below(d, f64_order_key(s.last().h)));
        assert(h_bounded_below(ins, f64_order_key(s.last().h)));
        assert(sorted_by_h_desc(ins.push(s.last())));
        assert(s =~= d.push(s.last()));
        assert(s.to_multiset() == d.to_multiset().insert(s.last()));
        assert(ins.push(s.last()).to_multiset() == d.to_multiset().insert(r).insert(s.last()));
        assert(d.to_multiset().insert(r).insert(s.last()) =~= d.to_multiset().insert(
            s.last(),
        ).insert(r));
        assert(forall|b: u64|
            h_bounded_below(s, b) && f64_order_key(r.h) >= b ==> #[trigger] h_bounded_below(
                insert_desc(s, r),
                b,
            ));
    }
}

/// Sorting orders the series by control-parameter value descending and
/// keeps exactly the records that went in.
pub proof fn lemma_sort_desc_props(s: Seq<RowView>)
    ensures
        sorted_by_h_desc(sort_desc(s)),
        sort_desc(s).to_multiset() == s.to_multiset(),
    decreases s.len(),
{
    broadcast use vstd::seq_lib::group_to_multiset_ensures;

    if s.len() > 0 {
        let d = s.drop_last();
        lemma_sort_desc_props(d);
        lemma_insert_desc_props(sort_desc(d), s.last());
        assert(s =~= d.push(s.last()));
        assert(s.to_multiset() == d.to_multiset().insert(s.last()));
    }
}

/// Insert one record into a series sorted by `h` descending.
fn insert_row_desc(out: &mut Vec<Row>, r: Row)
    ensures
        rows_view(final(out)@) == insert_desc(rows_view(old(out)@), r@),
{
    let mut j = out.len();
    while j > 0 && crate::bits::order_key(out[j - 1].h) < crate::bits::order_key(r.h)
        invariant
            j <= out.len(),
            out == old(out),
            forall|m: int|
                j <= m < out.len() ==> f64_order_key(rows_view(out@)[m].h) < f64_order_key(r@.h),
        decreases j,
    {
        j = j - 1;
    }
    proof {
        lemma_insert_desc_at(rows_view(out@), r@, j as int);
    }
    out.insert(j, r);
    proof {
        assert(rows_view(final(out)@) =~= rows_view(old(out)@).take(j as int) + seq![r@]
            + rows_view(old(out)@).skip(j as int));
    }
}

/// Sort a series by control-parameter value descending; records with
/// equal `h` keep their relative order.
pub fn sort_rows_desc(rows: Vec<Row>) -> (sorted: Vec<Row>)
    ensures
        rows_view(sorted@) == sort_desc(rows_view(rows@)),
{
    let mut rest = rows;
    let mut out: Vec<Row> = Vec::new();
    let ghost all = rows_view(rest@);
    let n = rest.len();
    for k in 0..n
        invariant
            n == rest.len() + k,
            all.len() == n,
            rows_view(rest@) == all.skip(k as int),
            rows_view(out@) == sort_desc(all.take(k as int)),
    {
        let ghost prev = rest@;
        let r = rest.remove(0);
        proof {
            assert(rows_view(prev)[0] == prev[0]@);
            assert(r@ == all[k as int]);
            assert forall|i2: int| 0 <= i2 < rest@.len() implies rows_view(rest@)[i2] == all.skip(
                k as int + 1,
            )[i2] by {
                assert(rest@[i2] == prev[i2 + 1]);
                assert(rows_view(prev)[i2 + 1] == prev[i2 + 1]@);
            }
            assert(rows_view(rest@) =~= all.skip(k as int + 1));
            assert(all.take(k as int + 1).drop_last() =~= all.take(k as int));
            assert(all.take(k as int + 1).last() == all[k as int]);
        }
        insert_row_desc(&mut out, r);
    }
    proof {
        assert(all.take(n as int) =~= all);
    }
    out
}

/// Strict lexicographic order on character sequences, as a key-ordered
/// map compares its string keys.
pub open spec fn chars_lt(a: Seq<char>, b: Seq<char>) -> bool
    decreases a.len(),
{
    b.len() > 0 && (a.len() == 0 || a[0] < b[0] || (a[0] == b[0] && chars_lt(
        a.skip(1),
        b.skip(1),
    )))
}

/// No character sequence is lexicographically below itself.
proof fn lemma_chars_lt_irrefl(a: Seq<char>)
    ensures
        !chars_lt(a, a),
    decreases a.len(),
{
    if a.len() > 0 {
        lemma_chars_lt_irrefl(a.skip(1));
    }
}

/// Strict lexicographic order on `(case, method)` keys: by case, then
/// by method.
pub open spec fn key_lt(k1: (Seq<char>, Seq<char>), k2: (Seq<char>, Seq<char>)) -> bool {
    chars_lt(k1.0, k2.0) || (k1.0 == k2.0 && chars_lt(k1.1, k2.1))
}

/// Reflexive lexicographic order on `(case, method)` keys.
pub open spec fn key_le(k1: (Seq<char>, Seq<char>), k2: (Seq<char>, Seq<char>)) -> bool {
    key_lt(k1, k2) || k1 == k2
}

/// The lexicographic order is transitive.
proof fn lemma_chars_lt_trans(a: Seq<char>, b: Seq<char>, c: Seq<char>)
    requires
        chars_lt(a, b),
        chars_lt(b, c),
    ensures
        chars_lt(a, c),
    decreases a.len(),
{
    if a.len() > 0 {
        if a[0] == b[0] && b[0] == c[0] {
            lemma_chars_lt_trans(a.skip(1), b.skip(1), c.skip(1));
        }
    }
}

/// Any two character sequences are ordered or equal.
proof fn lemma_chars_lt_total(a: Seq<char>, b: Seq<char>)
    ensures
        chars_lt(a, b) || chars_lt(b, a) || a == b,
    decreases a.len(),
{
    if a.len() == 0 && b.len() == 0 {
        assert(a =~= b);
    } else if a.len() > 0 && b.len() > 0 && a[0] == b[0] {
        lemma_chars_lt_total(a.skip(1), b.skip(1));
        if !chars_lt(a, b) && !chars_lt(b, a) {
            assert(a.skip(1) == b.skip(1));
            assert forall|i: int| 0 <= i < a.len() implies a[i] == b[i] by {
                if i > 0 {
                    assert(a.skip(1)[i - 1] == a[i]);
                    assert(b.skip(1)[i - 1] == b[i]);
                }
            }
            assert(a =~= b);
        }
    }
}

/// The key order is transitive.
proof fn lemma_key_le_trans(
    k1: (Seq<char>, Seq<char>),
    k2: (Seq<char>, Seq<char>),
    k3: (Seq<char>, Seq<char>),
)
    requires
        key_le(k1, k2),
        key_le(k2, k3),
    ensures
        key_le(k1, k3),
{
    if k1 != k2 && k2 != k3 {
        if chars_lt(k1.0, k2.0) && chars_lt(k2.0, k3.0) {
            lemma_chars_lt_trans(k1.0, k2.0, k3.0);
        } else if k1.0 == k2.0 && k2.0 == k3.0 {
            lemma_chars_lt_trans(k1.1, k2.1, k3.1);
        }
    }
}

/// Any two keys are ordered.
proof fn lemma_key_le_total(k1: (Seq<char>, Seq<char>), k2: (Seq<char>, Seq<char>))
    ensures
        key_le(k1, k2) || key_le(k2, k1),
{
    lemma_chars_lt_total(k1.0, k2.0);
    if k1.0 == k2.0 {
        lemma_chars_lt_total(k1.1, k2.1);
        if k1.1 == k2.1 {
            assert(k1 == k2);
        }
    }
}

/// A sequence of groups in ascending key order.
pub open spec fn sorted_by_key(gs: Seq<GroupView>) -> bool {
    forall|i: int, j: int|
        0 <= i < j < gs.len() ==> key_le(
            group_key(#[trigger] gs[i]),
            group_key(#[trigger] gs[j]),
        )
}

/// Every group of the sequence has a key at most `b`.
pub open spec fn key_bounded_above(gs: Seq<GroupView>, b: (Seq<char>, Seq<char>)) -> bool {
    forall|i: int| 0 <= i < gs.len() ==> key_le(group_key(#[trigger] gs[i]), b)
}

/// Insertion of a group into a sequence already in ascending key
/// order: the group goes behind every key at most its own.
pub open spec fn insert_group(s: Seq<GroupView>, g: GroupView) -> Seq<GroupView>
    decreases s.len(),
{
    if s.len() == 0 {
        seq![g]
    } else if key_le(group_key(s.last()), group_key(g)) {
        s.push(g)
    } else {
        insert_group(s.drop_last(), g).push(s.last())
    }
}

/// Groups arranged in ascending `(case, method)` key order, the order
/// in which a key-ordered map traverses them.
pub open spec fn sort_groups_by_key(s: Seq<GroupView>) -> Seq<GroupView>
    decreases s.len(),
{
    if s.len() == 0 {
        Seq::empty()
    } else {
        insert_group(sort_groups_by_key(s.drop_last()), s.last())
    }
}

proof fn lemma_insert_group_multiset(s: Seq<GroupView>, g: GroupView)
    ensures
        insert_group(s, g).to_multiset() == s.to_multiset().insert(g),
    decreases s.len(),
{
    broadcast use vstd::seq_lib::group_to_multiset_ensures;

    if s.len() == 0 {
        assert(seq![g] =~= Seq::<GroupView>::empty().push(g));
        assert(insert_group(s, g).to_multiset() =~= s.to_multiset().insert(g));
    } else if key_le(group_key(s.last()), group_key(g)) {
    } else {
        let d = s.drop_last();
        lemma_insert_group_multiset(d, g);
        assert(s =~= d.push(s.last()));
        assert(s.to_multiset() == d.to_multiset().insert(s.last()));
        assert(insert_group(d, g).push(s.last()).to_multiset() == d.to_multiset().insert(
            g,
        ).insert(s.last()));
        assert(d.to_multiset().insert(g).insert(s.last()) =~= d.to_multiset().insert(
            s.last(),
        ).insert(g));
    }
}

proof fn lemma_insert_group_sorted(s: Seq<GroupView>, g: GroupView)
    requires
        sorted_by_key(s),
    ensures
        sorted_by_key(insert_group(s, g)),
        forall|b: (Seq<char>, Seq<char>)|
            #[trigger] key_bounded_above(insert_group(s, g), b) <== key_bounded_above(s, b)
                && key_le(group_key(g), b),
    decreases s.len(),
{
    if s.len() == 0 {
    } else if key_le(group_key(s.last()), group_key(g)) {
        assert forall|i: int| 0 <= i < s.len() implies key_le(
            group_key(s[i]),
            group_key(g),
        ) by {
            if i < s.len() - 1 {
                lemma_key_le_trans(group_key(s[i]), group_key(s.last()), group_key(g));
            }
        }
        assert(sorted_by_key(s.push(g)));
    } else {
        let d = s.drop_last();
        assert(sorted_by_key(d));
        lemma_insert_group_sorted(d, g);
        let ins = insert_group(d, g);
        lemma_key_le_total(group_key(s.last()), group_key(g));
        assert(key_le(group_key(g), group_key(s.last())));
        assert(key_bounded_above(d, group_key(s.last())));
        assert(key_bounded_above(ins, group_key(s.last())));
        assert(sorted_by_key(ins.push(s.last())));
        assert forall|b: (Seq<char>, Seq<char>)|
            key_bounded_above(s, b) && key_le(group_key(g), b) implies #[trigger] key_bounded_above(
            insert_group(s, g),
            b,
        ) by {
            assert(key_bounded_above(d, b));
            assert(key_bounded_above(ins, b));
        }
    }
}

/// Arranging the groups leaves them in ascending key order.
pub proof fn lemma_sort_groups_sorted(s: Seq<GroupView>)
    ensures
        sorted_by_key(sort_groups_by_key(s)),
    decreases s.len(),
{
    if s.len() > 0 {
        lemma_sort_groups_sorted(s.drop_last());
        lemma_insert_group_sorted(sort_groups_by_key(s.drop_last()), s.last());
    }
}

/// Arranging groups in key order keeps exactly the groups.
pub proof fn lemma_sort_groups_multiset(s: Seq<GroupView>)
    ensures
        sort_groups_by_key(s).to_multiset() == s.to_multiset(),
    decreases s.len(),
{
    broadcast use vstd::seq_lib::group_to_multiset_ensures;

    if s.len() > 0 {
        let d = s.drop_last();
        lemma_sort_groups_multiset(d);
        lemma_insert_group_multiset(sort_groups_by_key(d), s.last());
        assert(s =~= d.push(s.last()));
        assert(s.to_multiset() == d.to_multiset().insert(s.last()));
    }
}

/// A group with its records sorted by `h` descending.
pub open spec fn sort_group(g: GroupView) -> GroupView {
    GroupView { case: g.case, method: g.method, rows: sort_desc(g.rows) }
}

/// Group records by key, arrange the groups in ascending key order,
/// and sort every group's records by `h` descending.
pub open spec fn spec_sorted_groups(rows: Seq<RowView>) -> Seq<GroupView> {
    Seq::new(
        sort_groups_by_key(spec_group(rows)).len(),
        |i: int| sort_group(sort_groups_by_key(spec_group(rows))[i]),
    )
}

/// What stands at each position of the sorted grouping.
pub proof fn lemma_sorted_groups_at(rows: Seq<RowView>, i: int)
    requires
        0 <= i < sort_groups_by_key(spec_group(rows)).len(),
    ensures
        spec_sorted_groups(rows)[i] == sort_group(sort_groups_by_key(spec_group(rows))[i]),
{
}

/// What the output stage writes at each position: the records that
/// carry that group's key, in input order, sorted by control-parameter
/// value descending.
pub proof fn lemma_sorted_group_rows(rows: Seq<RowView>, i: int)
    requires
        0 <= i < spec_sorted_groups(rows).len(),
    ensures
        spec_sorted_groups(rows)[i].rows == sort_desc(
            rows_with_key(
                rows,
                (spec_sorted_groups(rows)[i].case, spec_sorted_groups(rows)[i].method),
            ),
        ),
{
    broadcast use vstd::seq_lib::group_to_multiset_ensures;

    let gs = spec_group(rows);
    let ordered = sort_groups_by_key(gs);
    lemma_sorted_groups_at(rows, i);
    lemma_sort_groups_multiset(gs);
    assert(ordered.contains(ordered[i]));
    assert(gs.to_multiset().count(ordered[i]) > 0);
    assert(gs.contains(ordered[i]));
    let j = choose|j: int| 0 <= j < gs.len() && gs[j] == ordered[i];
    lemma_spec_group_wf(rows);
    let k = group_key(gs[j]);
    assert(has_key(gs, k));
    let j2 = key_index(gs, k);
    assert(0 <= j2 < gs.len() && group_key(gs[j2]) == k);
    assert(j2 == j);
    lemma_spec_group_rows(rows, k);
    assert(spec_sorted_groups(rows)[i] == sort_group(ordered[i]));
    assert((spec_sorted_groups(rows)[i].case, spec_sorted_groups(rows)[i].method) == k);
}

/// The characters of a string, as a vector.
fn chars_vec(s: &str) -> (v: Vec<char>)
    ensures
        v@ == s@,
{
    let mut v: Vec<char> = Vec::new();
    for c in it: s.chars()
        invariant
            it.seq() == s@,
            v@ == s@.take(it.index() as int),
    {
        let ghost i = it.index() as int;
        v.push(c);
        proof {
            assert(s@.take(i + 1) =~= s@.take(i).push(c));
        }
    }
    proof {
        assert(s@.take(s@.len() as int) =~= s@);
    }
    v
}

/// Decide the lexicographic order of two character vectors.
fn chars_lt_exec(a: &Vec<char>, b: &Vec<char>) -> (r: bool)
    ensures
        r == chars_lt(a@, b@),
{
    let n = a.len();
    let m = b.len();
    let mut i: usize = 0;
    proof {
        assert(a@.skip(0) =~= a@);
        assert(b@.skip(0) =~= b@);
    }
    while i < n && i < m && a[i] == b[i]
        invariant
            i <= n,
            i <= m,
            n == a.len(),
            m == b.len(),
            chars_lt(a@, b@) == chars_lt(a@.skip(i as int), b@.skip(i as int)),
        decreases n - i,
    {
        proof {
            let ii = i as int;
            assert(a@.skip(ii)[0] == a@[ii]);
            assert(b@.skip(ii)[0] == b@[ii]);
            assert(a@.skip(ii).skip(1) =~= a@.skip(ii + 1));
            assert(b@.skip(ii).skip(1) =~= b@.skip(ii + 1));
        }
        i = i + 1;
    }
    let r = if i < m {
        if i < n {
            a[i] < b[i]
        } else {
            true
        }
    } else {
        false
    };
    proof {
        let ii = i as int;
        if i < m && i < n {
            assert(a@.skip(ii)[0] == a@[ii]);
            assert(b@.skip(ii)[0] == b@[ii]);
        }
    }
    r
}

/// Decide whether one group's key is at most another's in the
/// lexicographic key order.
fn group_key_le(a: &Group, b: &Group) -> (r: bool)
    ensures
        r == key_le(group_key(a@), group_key(b@)),
{
    proof {
        lemma_chars_lt_irrefl(a.case@);
        lemma_chars_lt_irrefl(a.method@);
    }
    if a.case == b.case {
        if a.method == b.method {
            true
        } else {
            let am = chars_vec(a.method.as_str());
            let bm = chars_vec(b.method.as_str());
            chars_lt_exec(&am, &bm)
        }
    } else {
        let ac = chars_vec(a.case.as_str());
        let bc = chars_vec(b.case.as_str());
        chars_lt_exec(&ac, &bc)
    }
}

/// Where the insertion into the key-ordered sequence lands.
proof fn lemma_insert_group_at(s: Seq<GroupView>, g: GroupView, j: int)
    requires
        0 <= j <= s.len(),
        forall|m: int|
            j <= m < s.len() ==> !key_le(group_key(#[trigger] s[m]), group_key(g)),
        j > 0 ==> key_le(group_key(s[j - 1]), group_key(g)),
    ensures
        insert_group(s, g) == s.take(j) + seq![g] + s.skip(j),
    decreases s.len(),
{
    if j == s.len() {
        if s.len() == 0 {
            assert(insert_group(s, g) =~= s.take(j) + seq![g] + s.skip(j));
        } else {
            assert(key_le(group_key(s.last()), group_key(g)));
            assert(insert_group(s, g) == s.push(g));
            assert(s.push(g) =~= s.take(j) + seq![g] + s.skip(j));
        }
    } else {
        assert(!key_le(group_key(s[s.len() - 1]), group_key(g)));
        lemma_insert_group_at(s.drop_last(), g, j);
        assert(insert_group(s, g) == insert_group(s.drop_last(), g).push(s.last()));
        assert((s.drop_last().take(j) + seq![g] + s.drop_last().skip(j)).push(s.last()) =~= s.take(
            j,
        ) + seq![g] + s.skip(j));
    }
}

/// Insert one group into a sequence kept in ascending key order.
fn insert_group_at_key(out: &mut Vec<Group>, g: Group)
    ensures
        groups_view(final(out)@) == insert_group(groups_view(old(out)@), g@),
{
    let mut j = out.len();
    while j > 0 && !group_key_le(&out[j - 1], &g)
        invariant
            j <= out.len(),
            out == old(out),
            forall|m: int|
                j <= m < out.len() ==> !key_le(
                    group_key(groups_view(out@)[m]),
                    group_key(g@),
                ),
        decreases j,
    {
        proof {
            assert(groups_view(out@)[j - 1] == out@[j - 1]@);
        }
        j = j - 1;
    }
    proof {
        if j > 0 {
            assert(groups_view(out@)[j - 1] == out@[j - 1]@);
        }
        lemma_insert_group_at(groups_view(out@), g@, j as int);
    }
    out.insert(j, g);
    proof {
        assert(groups_view(final(out)@) =~= groups_view(old(out)@).take(j as int) + seq![g@]
            + groups_view(old(out)@).skip(j as int));
    }
}

/// Arrange groups in ascending `(case, method)` key order, the order a
/// key-ordered map would traverse them in.
pub fn sort_groups(groups: Vec<Group>) -> (sorted: Vec<Group>)
    ensures
        groups_view(sorted@) == sort_groups_by_key(groups_view(groups@)),
{
    let mut rest = groups;
    let mut out: Vec<Group> = Vec::new();
    let ghost all = groups_view(rest@);
    let n = rest.len();
    for k in 0..n
        invariant
            n == rest.len() + k,
            all.len() == n,
            groups_view(rest@) == all.skip(k as int),
            groups_view(out@) == sort_groups_by_key(all.take(k as int)),
    {
        let ghost prev = rest@;
        let g = rest.remove(0);
        proof {
            assert(groups_view(prev)[0] == prev[0]@);
            assert(g@ == all[k as int]);
            assert forall|i2: int| 0 <= i2 < rest@.len() implies groups_view(rest@)[i2]
                == all.skip(k as int + 1)[i2] by {
                assert(rest@[i2] == prev[i2 + 1]);
                assert(groups_view(prev)[i2 + 1] == prev[i2 + 1]@);
            }
            assert(groups_view(rest@) =~= all.skip(k as int + 1));
            assert(all.take(k as int + 1).drop_last() =~= all.take(k as int));
            assert(all.take(k as int + 1).last() == all[k as int]);
        }
        insert_group_at_key(&mut out, g);
    }
    proof {
        assert(all.take(n as int) =~= all);
    }
    out
}

/// Group records by `(case, method)` key, arrange the groups in
/// ascending key order, and sort each group by control-parameter value
/// descending, ready for array derivation.
pub fn group_and_sort(rows: &Vec<Row>) -> (groups: Vec<Group>)
    ensures
        groups_view(groups@) == spec_sorted_groups(rows_view(rows@)),
{
    let ghost gspec = sort_groups_by_key(spec_group(rows_view(rows@)));
    let ghost target = spec_sorted_groups(rows_view(rows@));
    let grouped = group_rows(rows);
    let mut groups = sort_groups(grouped);
    let n = groups.len();
    proof {
        assert(groups_view(groups@).len() == groups@.len());
        assert(spec_sorted_groups(rows_view(rows@)).len() == gspec.len());
    }
    for i in 0..n
        invariant
            n == groups.len(),
            gspec == sort_groups_by_key(spec_group(rows_view(rows@))),
            target == spec_sorted_groups(rows_view(rows@)),
            gspec.len() == n,
            target.len() == n,
            forall|j: int| 0 <= j < i ==> groups_view(groups@)[j] == target[j],
            forall|j: int| i <= j < n ==> groups_view(groups@)[j] == gspec[j],
    {
        let ghost gpre = groups@;
        let g = groups.remove(i);
        let ghost gv0 = g@;
        proof {
            assert(gv0 == gspec[i as int]);
            lemma_sorted_groups_at(rows_view(rows@), i as int);
            assert(target[i as int] == sort_group(gspec[i as int]));
        }
        let sorted = sort_rows_desc(g.rows);
        let ng = Group { case: g.case, method: g.method, rows: sorted };
        let ghost ngv = ng@;
        groups.insert(i, ng);
        proof {
            assert(ngv == sort_group(gspec[i as int]));
            assert(ngv == target[i as int]);
            assert(groups@ =~= gpre.update(i as int, groups@[i as int]));
            assert(groups@[i as int]@ == ngv);
            assert(forall|j: int|
                0 <= j < n && j != i ==> groups@[j] == gpre[j] && groups_view(groups@)[j]
                    == groups@[j]@);
        }
    }
    proof {
        assert(groups_view(groups@) =~= target);
    }
    groups
}

/// A named one-dimensional numeric array bound for the output
/// directory; the values are binary64 bit patterns.
pub struct NamedArray {
    pub name: String,
    pub values: Vec<u64>,
}

/// The mathematical content of a `NamedArray`.
pub struct NamedArrayView {
    pub name: Seq<char>,
    pub values: Seq<u64>,
}

impl View for NamedArray {
    type V = NamedArrayView;

    open spec fn view(&self) -> NamedArrayView {
        NamedArrayView { name: self.name@, values: self.values@ }
    }
}

/// The views of a sequence of named arrays.
pub open spec fn arrays_view(s: Seq<NamedArray>) -> Seq<NamedArrayView> {
    s.map(|i: int, a: NamedArray| a@)
}

/// A case-level exact-value entry: the caller reconstructs the exact
/// reference as the floating-point sum of `approx` and `err` (the first
/// record's approximation plus its signed error) and writes it as a
/// one-element array under `name`.
pub struct ExactEntry {
    pub name: String,
    pub approx: u64,
    pub err: u64,
}

/// The mathematical content of an `ExactEntry`.
pub struct ExactEntryView {
    pub name: Seq<char>,
    pub approx: u64,
    pub err: u64,
}

impl View for ExactEntry {
    type V = ExactEntryView;

    open spec fn view(&self) -> ExactEntryView {
        ExactEntryView { name: self.name@, approx: self.approx, err: self.err }
    }
}

/// The views of a sequence of exact-value entries.
pub open spec fn exacts_view(s: Seq<ExactEntry>) -> Seq<ExactEntryView> {
    s.map(|i: int, e: ExactEntry| e@)
}

/// The common stem of a group's file names: the two slugs joined by a
/// double underscore.
pub open spec fn group_base(case: Seq<char>, method: Seq<char>) -> Seq<char> {
    slug_spec(case) + "__"@ + slug_spec(method)
}

/// The control-parameter column of a series.
pub open spec fn h_values(rs: Seq<RowView>) -> Seq<u64> {
    rs.map(|i: int, r: RowView| r.h)
}

/// The approximate-value column of a series.
pub open spec fn approx_values(rs: Seq<RowView>) -> Seq<u64> {
    rs.map(|i: int, r: RowView| r.approx)
}

/// The signed-error column of a series.
pub open spec fn err_values(rs: Seq<RowView>) -> Seq<u64> {
    rs.map(|i: int, r: RowView| r.err)
}

/// The absolute-error column of a series: each error with its sign bit
/// cleared.
pub open spec fn abs_err_values(rs: Seq<RowView>) -> Seq<u64> {
    rs.map(|i: int, r: RowView| abs_bits_spec(r.err))
}

/// The empirical-order column of a series: absent orders become the
/// not-a-number pattern.
pub open spec fn order_values(rs: Seq<RowView>) -> Seq<u64> {
    rs.map(
        |i: int, r: RowView|
            match r.order {
                Some(o) => o,
                None => F64_NAN_BITS,
            },
    )
}

/// Whether some group before position `upto` already carries the case
/// (with at least one record, so an exact entry was produced for it).
pub open spec fn case_written(gs: Seq<GroupView>, upto: int, case: Seq<char>) -> bool {
    exists|j: int| 0 <= j < upto && (#[trigger] gs[j]).case == case && gs[j].rows.len() > 0
}

/// The case-level exact-value entries of a group traversal: one per
/// case, at the first nonempty group that carries it.
pub open spec fn spec_exacts(gs: Seq<GroupView>) -> Seq<ExactEntryView>
    decreases gs.len(),
{
    if gs.len() == 0 {
        Seq::empty()
    } else {
        let es = spec_exacts(gs.drop_last());
        let g = gs.last();
        if g.rows.len() == 0 || case_written(gs, gs.len() - 1, g.case) {
            es
        } else {
            es.push(
                ExactEntryView {
                    name: slug_spec(g.case) + "__exact"@,
                    approx: g.rows[0].approx,
                    err: g.rows[0].err,
                },
            )
        }
    }
}

/// Everything the output stage must write for a set of groups: five
/// parallel arrays per group and one exact-value entry per case.
pub struct WritePlan {
    pub arrays: Vec<NamedArray>,
    pub exacts: Vec<ExactEntry>,
}

/// Append `suffix` to a copy of `base`.
fn build_name(base: &String, suffix: &str) -> (r: String)
    ensures
        r@ == base@ + suffix@,
{
    let mut s = base.clone();
    s.append(suffix);
    s
}

/// The common stem of a group's file names.
fn build_group_base(case: &str, method: &str) -> (r: String)
    ensures
        r@ == group_base(case@, method@),
{
    let mut b = slug(case);
    b.append("__");
    let ms = slug(method);
    b.append(ms.as_str());
    b
}

/// The `h` column of a series.
fn column_h(rows: &Vec<Row>) -> (r: Vec<u64>)
    ensures
        r@ == h_values(rows_view(rows@)),
{
    let mut out: Vec<u64> = Vec::new();
    let n = rows.len();
    for i in 0..n
        invariant
            n == rows.len(),
            out@.len() == i,
            forall|j: int| 0 <= j < i ==> out@[j] == rows@[j]@.h,
    {
        out.push(rows[i].h);
    }
    proof {
        assert(out@ =~= h_values(rows_view(rows@)));
    }
    out
}

/// The approximation column of a series.
fn column_approx(rows: &Vec<Row>) -> (r: Vec<u64>)
    ensures
        r@ == approx_values(rows_view(rows@)),
{
    let mut out: Vec<u64> = Vec::new();
    let n = rows.len();
    for i in 0..n
        invariant
            n == rows.len(),
            out@.len() == i,
            forall|j: int| 0 <= j < i ==> out@[j] == rows@[j]@.approx,
    {
        out.push(rows[i].approx);
    }
    proof {
        assert(out@ =~= approx_values(rows_view(rows@)));
    }
    out
}

/// The signed-error column of a series.
fn column_err(rows: &Vec<Row>) -> (r: Vec<u64>)
    ensures
        r@ == err_values(rows_view(rows@)),
{
    let mut out: Vec<u64> = Vec::new();
    let n = rows.len();
    for i in 0..n
        invariant
            n == rows.len(),
            out@.len() == i,
            forall|j: int| 0 <= j < i ==> out@[j] == rows@[j]@.err,
    {
        out.push(rows[i].err);
    }
    proof {
        assert(out@ =~= err_values(rows_view(rows@)));
    }
    out
}

/// The absolute-error column of a series.
fn column_abs_err(rows: &Vec<Row>) -> (r: Vec<u64>)
    ensures
        r@ == abs_err_values(rows_view(rows@)),
{
    let mut out: Vec<u64> = Vec::new();
    let n = rows.len();
    for i in 0..n
        invariant
            n == rows.len(),
            out@.len() == i,
            forall|j: int| 0 <= j < i ==> out@[j] == abs_bits_spec(rows@[j]@.err),
    {
        out.push(crate::bits::abs_bits(rows[i].err));
    }
    proof {
        assert(out@ =~= abs_err_values(rows_view(rows@)));
    }
    out
}

/// The empirical-order column of a series.
fn column_order(rows: &Vec<Row>) -> (r: Vec<u64>)
    ensures
        r@ == order_values(rows_view(rows@)),
{
    let mut out: Vec<u64> = Vec::new();
    let n = rows.len();
    for i in 0..n
        invariant
            n == rows.len(),
            out@.len() == i,
            forall|j: int|
                0 <= j < i ==> out@[j] == (match rows@[j]@.order {
                    Some(o) => o,
                    None => F64_NAN_BITS,
                }),
    {
        let v = match rows[i].order {
            Some(o) => o,
            None => F64_NAN_BITS,
        };
        out.push(v);
    }
    proof {
        assert(out@ =~= order_values(rows_view(rows@)));
    }
    out
}

/// The five parallel arrays of group `g` stand at positions `5 * i`
/// through `5 * i + 4`, under the group's names and with the group's
/// columns.
pub open spec fn group_arrays_at(arrs: Seq<NamedArrayView>, g: GroupView, i: int) -> bool {
    let base = group_base(g.case, g.method);
    &&& arrs[5 * i] == (NamedArrayView { name: base + "__h"@, values: h_values(g.rows) })
    &&& arrs[5 * i + 1] == (NamedArrayView {
        name: base + "__approx"@,
        values: approx_values(g.rows),
    })
    &&& arrs[5 * i + 2] == (NamedArrayView { name: base + "__err"@, values: err_values(g.rows) })
    &&& arrs[5 * i + 3] == (NamedArrayView {
        name: base + "__abs_err"@,
        values: abs_err_values(g.rows),
    })
    &&& arrs[5 * i + 4] == (NamedArrayView {
        name: base + "__order"@,
        values: order_values(g.rows),
    })
}

/// Derive what the output stage writes for a traversal of groups: per
/// group the five parallel arrays, named from the slugs of its case and
/// method, and per case one exact-value entry at the first nonempty
/// group that carries the case.
pub fn plan_from_groups(groups: &Vec<Group>) -> (plan: WritePlan)
    ensures
        plan.arrays@.len() == 5 * groups@.len(),
        forall|i: int|
            0 <= i < groups@.len() ==> group_arrays_at(
                arrays_view(plan.arrays@),
                groups_view(groups@)[i],
                i,
            ),
        exacts_view(plan.exacts@) == spec_exacts(groups_view(groups@)),
{
    let mut arrays: Vec<NamedArray> = Vec::new();
    let n = groups.len();
    for i in 0..n
        invariant
            n == groups.len(),
            arrays@.len() == 5 * i,
            forall|j: int|
                0 <= j < i ==> group_arrays_at(arrays_view(arrays@), groups_view(groups@)[j], j),
    {
        let g = &groups[i];
        let base = build_group_base(g.case.as_str(), g.method.as_str());
        arrays.push(NamedArray { name: build_name(&base, "__h"), values: column_h(&g.rows) });
        arrays.push(
            NamedArray { name: build_name(&base, "__approx"), values: column_approx(&g.rows) },
        );
        arrays.push(NamedArray { name: build_name(&base, "__err"), values: column_err(&g.rows) });
        arrays.push(
            NamedArray { name: build_name(&base, "__abs_err"), values: column_abs_err(&g.rows) },
        );
        arrays.push(
            NamedArray { name: build_name(&base, "__order"), values: column_order(&g.rows) },
        );
    }
    let mut exacts: Vec<ExactEntry> = Vec::new();
    for i in 0..n
        invariant
            n == groups.len(),
            exacts_view(exacts@) == spec_exacts(groups_view(groups@).take(i as int)),
    {
        let ghost gv = groups_view(groups@);
        let ghost pre = gv.take(i as int);
        let ghost post = gv.take(i as int + 1);
        proof {
            assert(gv.len() == n);
            assert(post.drop_last() =~= pre);
            assert(post.last() == gv[i as int]);
        }
        let g = &groups[i];
        if g.rows.len() > 0 {
            let mut written = false;
            for j in 0..i
                invariant
                    n == groups.len(),
                    i < n,
                    gv == groups_view(groups@),
                    gv.len() == n,
                    written <==> case_written(gv, j as int, gv[i as int].case),
            {
                proof {
                    assert(gv[j as int] == groups@[j as int]@);
                    assert(gv[i as int] == groups@[i as int]@);
                }
                let hit = groups[j].case == groups[i].case && groups[j].rows.len() > 0;
                proof {
                    let jj = j as int;
                    assert(hit == (gv[jj].case == gv[i as int].case && gv[jj].rows.len() > 0));
                }
                if !written && hit {
                    written = true;
                    proof {
                        assert(case_written(gv, j as int + 1, gv[i as int].case));
                    }
                } else {
                    proof {
                        if !written && case_written(gv, j as int + 1, gv[i as int].case) {
                            let c = gv[i as int].case;
                            let w = choose|w: int|
                                0 <= w < j + 1 && (#[trigger] gv[w]).case == c
                                    && gv[w].rows.len() > 0;
                            if w < j as int {
                                assert(case_written(gv, j as int, c));
                                assert(false);
                            } else {
                                assert(w == j as int);
                                assert(hit);
                                assert(false);
                            }
                        }
                    }
                }
            }
            if !written {
                let name = build_name(&slug(g.case.as_str()), "__exact");
                exacts.push(ExactEntry { name, approx: g.rows[0].approx, err: g.rows[0].err });
                proof {
                    assert(post.len() - 1 == i as int);
                    assert(forall|w: int|
                        0 <= w < i as int ==> post[w] == gv[w]);
                    assert(!case_written(post, i as int, post.last().case));
                    assert(exacts_view(exacts@) =~= spec_exacts(post));
                }
            } else {
                proof {
                    assert(forall|w: int|
                        0 <= w < i as int ==> post[w] == gv[w]);
                    assert(case_written(post, i as int, post.last().case));
                    assert(exacts_view(exacts@) == spec_exacts(post));
                }
            }
        } else {
            proof {
                assert(post.last().rows.len() == 0);
                assert(exacts_view(exacts@) == spec_exacts(post));
            }
        }
    }
    proof {
        assert(groups_view(groups@).take(n as int) =~= groups_view(groups@));
    }
    WritePlan { arrays, exacts }
}

/// The whole output stage short of the file writes: group the records,
/// arrange the groups in ascending key order, sort each group by the
/// denoted `h` value descending, and derive the named arrays and
/// exact-value entries.  The plan is a function of the records alone —
/// and, through the key order, independent of how the per-group sweeps
/// were concatenated — so planning the same records twice yields the
/// same arrays under the same names.
pub fn write_plan(rows: &Vec<Row>) -> (plan: WritePlan)
    ensures
        plan.arrays@.len() == 5 * spec_sorted_groups(rows_view(rows@)).len(),
        forall|i: int|
            0 <= i < spec_sorted_groups(rows_view(rows@)).len() ==> group_arrays_at(
                arrays_view(plan.arrays@),
                spec_sorted_groups(rows_view(rows@))[i],
                i,
            ),
        exacts_view(plan.exacts@) == spec_exacts(spec_sorted_groups(rows_view(rows@))),
{
    let groups = group_and_sort(rows);
    plan_from_groups(&groups)
}

/// Juxtaposing two pieces around a double-underscore separator is
/// injective when the left pieces are well-formed slugs: a slug holds no
/// double underscore and no edge underscore, so the separator's place is
/// unambiguous, and equality of the juxtapositions forces equality of
/// the pieces.
proof fn lemma_sep_injective(a1: Seq<char>, r1: Seq<char>, a2: Seq<char>, r2: Seq<char>)
    requires
        slug_wf(a1),
        slug_wf(a2),
        a1 + "__"@ + r1 == a2 + "__"@ + r2,
    ensures
        a1 == a2,
        r1 == r2,
{
    reveal_strlit("__");
    let sep = "__"@;
    assert(sep.len() == 2 && sep[0] == '_' && sep[1] == '_');
    let l = a1 + sep + r1;
    assert(l == a2 + sep + r2);
    if a1.len() < a2.len() {
        // The separator of the shorter side falls inside the longer
        // slug, giving it a double or an edge underscore.
        let p = a1.len() as int;
        assert(l[p] == '_');
        assert(l[p + 1] == '_');
        assert(l[p] == a2[p]);
        if p + 1 < a2.len() {
            assert(l[p + 1] == a2[p + 1]);
            assert(a2[p] == '_' && a2[p + 1] == '_');
        } else {
            assert(a2[a2.len() - 1] == '_');
        }
    } else if a2.len() < a1.len() {
        let p = a2.len() as int;
        assert(l[p] == '_');
        assert(l[p + 1] == '_');
        assert(l[p] == a1[p]);
        if p + 1 < a1.len() {
            assert(l[p + 1] == a1[p + 1]);
            assert(a1[p] == '_' && a1[p + 1] == '_');
        } else {
            assert(a1[a1.len() - 1] == '_');
        }
    } else {
        assert forall|i: int| 0 <= i < a1.len() implies a1[i] == a2[i] by {
            assert(l[i] == a1[i]);
            assert(l[i] == a2[i]);
        }
        assert(a1 =~= a2);
        assert(r1.len() == r2.len());
        assert forall|i: int| 0 <= i < r1.len() implies r1[i] == r2[i] by {
            assert(l[a1.len() + 2 + i] == r1[i]);
            assert(l[a2.len() + 2 + i] == r2[i]);
        }
        assert(r1 =~= r2);
    }
}

/// Concatenation is associative over the two separators of a full name.
proof fn lemma_name_decompose(sc: Seq<char>, sm: Seq<char>, w: Seq<char>)
    ensures
        (sc + "__"@ + sm) + ("__"@ + w) == sc + "__"@ + (sm + "__"@ + w),
{
    assert((sc + "__"@ + sm) + ("__"@ + w) =~= sc + "__"@ + (sm + "__"@ + w));
}

/// Full file names built from distinct slug pairs differ, whatever the
/// trailing array words are.
proof fn lemma_full_names_differ(
    sc1: Seq<char>,
    sm1: Seq<char>,
    w1: Seq<char>,
    sc2: Seq<char>,
    sm2: Seq<char>,
    w2: Seq<char>,
)
    requires
        slug_wf(sc1),
        slug_wf(sm1),
        slug_wf(sc2),
        slug_wf(sm2),
        sc1 != sc2 || sm1 != sm2,
    ensures
        (sc1 + "__"@ + sm1) + ("__"@ + w1) != (sc2 + "__"@ + sm2) + ("__"@ + w2),
{
    lemma_name_decompose(sc1, sm1, w1);
    lemma_name_decompose(sc2, sm2, w2);
    if (sc1 + "__"@ + sm1) + ("__"@ + w1) == (sc2 + "__"@ + sm2) + ("__"@ + w2) {
        lemma_sep_injective(sc1, sm1 + "__"@ + w1, sc2, sm2 + "__"@ + w2);
        lemma_sep_injective(sm1, w1, sm2, w2);
    }
}

/// The names of the five arrays a group writes.
pub open spec fn group_file_names(case: Seq<char>, method: Seq<char>) -> Seq<Seq<char>> {
    let base = group_base(case, method);
    seq![
        base + "__h"@,
        base + "__approx"@,
        base + "__err"@,
        base + "__abs_err"@,
        base + "__order"@,
    ]
}

/// Grouping keeps output files apart: two `(case, method)` pairs whose
/// slugs differ produce two disjoint sets of array file names, so no
/// array values bleed across groups.  (Two distinct pairs that slugify
/// identically are not guarded against, matching the store's documented
/// overwrite semantics.)
pub proof fn lemma_group_files_disjoint(c1: Seq<char>, m1: Seq<char>, c2: Seq<char>, m2: Seq<char>)
    requires
        slug_spec(c1) != slug_spec(c2) || slug_spec(m1) != slug_spec(m2),
    ensures
        forall|a: int, b: int|
            0 <= a < 5 && 0 <= b < 5 ==> #[trigger] group_file_names(c1, m1)[a]
                != #[trigger] group_file_names(c2, m2)[b],
{
    lemma_slug_wf(c1);
    lemma_slug_wf(m1);
    lemma_slug_wf(c2);
    lemma_slug_wf(m2);
    reveal_strlit("__");
    reveal_strlit("h");
    reveal_strlit("approx");
    reveal_strlit("err");
    reveal_strlit("abs_err");
    reveal_strlit("order");
    reveal_strlit("__h");
    reveal_strlit("__approx");
    reveal_strlit("__err");
    reveal_strlit("__abs_err");
    reveal_strlit("__order");
    assert("__h"@ =~= "__"@ + "h"@);
    assert("__approx"@ =~= "__"@ + "approx"@);
    assert("__err"@ =~= "__"@ + "err"@);
    assert("__abs_err"@ =~= "__"@ + "abs_err"@);
    assert("__order"@ =~= "__"@ + "order"@);
    let ws = seq!["h"@, "approx"@, "err"@, "abs_err"@, "order"@];
    assert forall|a: int, b: int| 0 <= a < 5 && 0 <= b < 5 implies #[trigger] group_file_names(
        c1,
        m1,
    )[a] != #[trigger] group_file_names(c2, m2)[b] by {
        assert(group_file_names(c1, m1)[a] == (slug_spec(c1) + "__"@ + slug_spec(m1)) + ("__"@
            + ws[a]));
        assert(group_file_names(c2, m2)[b] == (slug_spec(c2) + "__"@ + slug_spec(m2)) + ("__"@
            + ws[b]));
        lemma_full_names_differ(
            slug_spec(c1),
            slug_spec(m1),
            ws[a],
            slug_spec(c2),
            slug_spec(m2),
            ws[b],
        );
    }
}

} // verus!

