//! The steps of a comparison of two rows: what it means that they lead from the
//! one to the other.

use vstd::prelude::*;

use crate::outside::{DiffOp, DiffTag};

verus! {

/// A step names items of the chosen side: every step but an insertion names old
/// items, every step but a deletion names new ones.
pub open spec fn names_side(op: DiffOp, old_side: bool) -> bool {
    if old_side {
        op.tag != DiffTag::Insert
    } else {
        op.tag != DiffTag::Delete
    }
}

/// Where the items that a step names on the chosen side begin.
pub open spec fn side_start(op: DiffOp, old_side: bool) -> int {
    if old_side {
        op.old_start as int
    } else {
        op.new_start as int
    }
}

/// Where the items that a step names on the chosen side end.
pub open spec fn side_end(op: DiffOp, old_side: bool) -> int {
    if old_side {
        op.old_end as int
    } else {
        op.new_end as int
    }
}

/// How many items a step names on the chosen side.
pub open spec fn side_len(op: DiffOp, old_side: bool) -> int {
    if names_side(op, old_side) {
        side_end(op, old_side) - side_start(op, old_side)
    } else {
        0
    }
}

/// How many items a row of steps names on the chosen side.
pub open spec fn side_count(ops: Seq<DiffOp>, old_side: bool) -> int
    decreases ops.len(),
{
    if ops.len() == 0 {
        0
    } else {
        side_count(ops.drop_last(), old_side) + side_len(ops.last(), old_side)
    }
}

/// The items that a step names are there, in rows of `n` old and `m` new ones.
pub open spec fn op_fits(op: DiffOp, n: int, m: int) -> bool {
    &&& names_side(op, true) ==> op.old_start <= op.old_end <= n
    &&& names_side(op, false) ==> op.new_start <= op.new_end <= m
    &&& op.tag == DiffTag::Equal ==> op.old_end - op.old_start == op.new_end - op.new_start
}

/// The items that the steps name are there.
pub open spec fn ops_fit(ops: Seq<DiffOp>, n: int, m: int) -> bool {
    forall|i: int| 0 <= i < ops.len() ==> op_fits(#[trigger] ops[i], n, m)
}

/// A step that keeps items pairs equal ones.
pub open spec fn op_pairs(
    op: DiffOp,
    old_items: Seq<Seq<char>>,
    new_items: Seq<Seq<char>>,
) -> bool {
    op.tag == DiffTag::Equal ==> old_items.subrange(op.old_start as int, op.old_end as int)
        == new_items.subrange(op.new_start as int, op.new_end as int)
}

/// The items that the steps name are there, and the steps that keep items pair
/// equal ones.
pub open spec fn ops_hold(
    ops: Seq<DiffOp>,
    old_items: Seq<Seq<char>>,
    new_items: Seq<Seq<char>>,
) -> bool {
    &&& ops_fit(ops, old_items.len() as int, new_items.len() as int)
    &&& forall|i: int| 0 <= i < ops.len() ==> op_pairs(#[trigger] ops[i], old_items, new_items)
}

/// The steps name the items of the chosen side from `from` to `to`, each once and
/// in order.
pub open spec fn runs(ops: Seq<DiffOp>, old_side: bool, from: int, to: int) -> bool
    decreases ops.len(),
{
    if ops.len() == 0 {
        from == to
    } else if names_side(ops.last(), old_side) {
        &&& side_end(ops.last(), old_side) == to
        &&& side_start(ops.last(), old_side) <= to
        &&& runs(ops.drop_last(), old_side, from, side_start(ops.last(), old_side))
    } else {
        runs(ops.drop_last(), old_side, from, to)
    }
}

/// The steps lead from the old row to the new one: they name every item of the
/// two rows once and in order, and what they keep is equal.
pub open spec fn leads(
    ops: Seq<DiffOp>,
    old_items: Seq<Seq<char>>,
    new_items: Seq<Seq<char>>,
) -> bool {
    &&& ops_hold(ops, old_items, new_items)
    &&& runs(ops, true, 0, old_items.len() as int)
    &&& runs(ops, false, 0, new_items.len() as int)
}

/// Where a row of steps begins on the chosen side: where the first step that
/// names items of that side does, or where the last step lies if none does.
pub open spec fn begins(ops: Seq<DiffOp>, old_side: bool) -> int
    decreases ops.len(),
{
    if ops.len() == 0 {
        0
    } else if ops.len() == 1 || names_side(ops[0], old_side) {
        side_start(ops[0], old_side)
    } else {
        begins(ops.drop_first(), old_side)
    }
}

/// Where a row of steps ends on the chosen side.
pub open spec fn ends(ops: Seq<DiffOp>, old_side: bool) -> int {
    begins(ops, old_side) + side_count(ops, old_side)
}

/// The steps of a cluster lie end to end: on each side they name the items from
/// where they begin to where they end, each once and in order.
pub open spec fn group_runs(ops: Seq<DiffOp>) -> bool {
    &&& runs(ops, true, begins(ops, true), ends(ops, true))
    &&& runs(ops, false, begins(ops, false), ends(ops, false))
}

/// The clusters lead from the first `o` old items to the first `p` new ones: each
/// lies end to end, and what stands before, between and behind them is equal in
/// both rows.
pub open spec fn reaches(
    groups: Seq<Seq<DiffOp>>,
    old_items: Seq<Seq<char>>,
    new_items: Seq<Seq<char>>,
    o: int,
    p: int,
) -> bool
    decreases groups.len(),
{
    if groups.len() == 0 {
        o == p && old_items.take(o) == new_items.take(p)
    } else {
        let ops = groups.last();
        let (i, k) = (begins(ops, true), begins(ops, false));
        let (j, l) = (ends(ops, true), ends(ops, false));
        &&& group_runs(ops)
        &&& j <= o && l <= p
        &&& old_items.subrange(j, o) == new_items.subrange(l, p)
        &&& reaches(groups.drop_last(), old_items, new_items, i, k)
    }
}

/// The steps change and keep in turn: a step that changes names some item, no two
/// steps that keep items follow each other, no step keeps more than `2 * n` items,
/// and the first keeps no more than `n`.
pub open spec fn spaced(ops: Seq<DiffOp>, n: int) -> bool {
    &&& forall|i: int|
        0 <= i < ops.len() && (#[trigger] ops[i]).tag != DiffTag::Equal ==> side_len(ops[i], true)
            + side_len(ops[i], false) > 0
    &&& forall|i: int|
        0 <= i < ops.len() && (#[trigger] ops[i]).tag == DiffTag::Equal ==> side_len(ops[i], true)
            <= 2 * n
    &&& forall|i: int, j: int|
        0 <= i < ops.len() && j == i + 1 && j < ops.len() && (#[trigger] ops[i]).tag
            == DiffTag::Equal ==> (#[trigger] ops[j]).tag != DiffTag::Equal
    &&& ops.len() > 0 && ops[0].tag == DiffTag::Equal ==> side_len(ops[0], true) <= n
}

/// The steps are those of a cluster: there is a change among them, and up to `n`
/// items are kept before and behind the changes.
pub open spec fn clustered(ops: Seq<DiffOp>, n: int) -> bool {
    &&& spaced(ops, n)
    &&& exists|i: int| 0 <= i < ops.len() && (#[trigger] ops[i]).tag != DiffTag::Equal
    &&& ops.last().tag == DiffTag::Equal ==> side_len(ops.last(), true) <= n
}

/// The views of clusters.
pub open spec fn group_views(groups: Seq<Vec<DiffOp>>) -> Seq<Seq<DiffOp>> {
    groups.map_values(|g: Vec<DiffOp>| g@)
}

// --- lemmas ------------------------------------------------------------------

/// Steps that fit still fit without the last one, which fits too.
pub proof fn lemma_fit_last(ops: Seq<DiffOp>, n: int, m: int)
    requires
        ops.len() > 0,
        ops_fit(ops, n, m),
    ensures
        ops_fit(ops.drop_last(), n, m),
        op_fits(ops.last(), n, m),
{
    assert forall|i: int| 0 <= i < ops.drop_last().len() implies op_fits(
        #[trigger] ops.drop_last()[i],
        n,
        m,
    ) by {
        assert(op_fits(ops[i], n, m));
    }
    assert(op_fits(ops[ops.len() - 1], n, m));
}

/// Steps that hold still hold without the last one, which holds too.
pub proof fn lemma_hold_last(
    ops: Seq<DiffOp>,
    old_items: Seq<Seq<char>>,
    new_items: Seq<Seq<char>>,
)
    requires
        ops.len() > 0,
        ops_hold(ops, old_items, new_items),
    ensures
        ops_hold(ops.drop_last(), old_items, new_items),
        op_fits(ops.last(), old_items.len() as int, new_items.len() as int),
        op_pairs(ops.last(), old_items, new_items),
{
    lemma_fit_last(ops, old_items.len() as int, new_items.len() as int);
    assert forall|i: int| 0 <= i < ops.drop_last().len() implies op_pairs(
        #[trigger] ops.drop_last()[i],
        old_items,
        new_items,
    ) by {
        assert(op_pairs(ops[i], old_items, new_items));
    }
    assert(op_pairs(ops[ops.len() - 1], old_items, new_items));
}

/// Steps that run from one item to another name as many as lie between; where
/// there are any, they end within the row.
pub proof fn lemma_runs(ops: Seq<DiffOp>, old_side: bool, from: int, to: int, n: int, m: int)
    requires
        ops_fit(ops, n, m),
        runs(ops, old_side, from, to),
    ensures
        from <= to,
        side_count(ops, old_side) == to - from,
        from < to ==> 0 <= from && to <= if old_side {
            n
        } else {
            m
        },
    decreases ops.len(),
{
    if ops.len() > 0 {
        lemma_fit_last(ops, n, m);
        if names_side(ops.last(), old_side) {
            lemma_runs(
                ops.drop_last(),
                old_side,
                from,
                side_start(ops.last(), old_side),
                n,
                m,
            );
        } else {
            lemma_runs(ops.drop_last(), old_side, from, to, n, m);
        }
    }
}

/// The first steps of a row name no more items than all of them.
pub proof fn lemma_side_count_grows(ops: Seq<DiffOp>, old_side: bool, k: int, n: int, m: int)
    requires
        ops_fit(ops, n, m),
        0 <= k <= ops.len(),
    ensures
        0 <= side_count(ops.take(k), old_side) <= side_count(ops, old_side),
    decreases ops.len(),
{
    if ops.len() == 0 {
        assert(ops.take(k) =~= ops);
    } else if k == ops.len() {
        assert(ops.take(k) =~= ops);
        lemma_fit_last(ops, n, m);
        lemma_side_count_grows(ops.drop_last(), old_side, 0, n, m);
        assert(ops.drop_last().take(0) =~= seq![]);
    } else {
        lemma_fit_last(ops, n, m);
        lemma_side_count_grows(ops.drop_last(), old_side, k, n, m);
        assert(ops.drop_last().take(k) =~= ops.take(k));
    }
}

/// Every step begins, on the chosen side, where the one before it ends there, and
/// a step that names nothing on that side takes nothing up.
pub open spec fn meets(ops: Seq<DiffOp>, old_side: bool) -> bool {
    &&& forall|i: int|
        0 <= i < ops.len() ==> side_end(#[trigger] ops[i], old_side) - side_start(ops[i], old_side)
            == side_len(ops[i], old_side)
    &&& forall|i: int|
        1 <= i < ops.len() ==> side_end(ops[i - 1], old_side) == side_start(
            #[trigger] ops[i],
            old_side,
        )
}

/// Where also the steps that name nothing of a side lie where they belong, a row
/// of steps begins where its first step does and ends where its last step does.
pub proof fn law_spans(ops: Seq<DiffOp>, old_side: bool)
    requires
        ops.len() > 0,
        meets(ops, old_side),
    ensures
        begins(ops, old_side) == side_start(ops[0], old_side),
        ends(ops, old_side) == side_end(ops.last(), old_side),
{
    lemma_begins(ops, old_side);
    lemma_count_spans(ops, old_side);
}

proof fn lemma_begins(ops: Seq<DiffOp>, old_side: bool)
    requires
        ops.len() > 0,
        meets(ops, old_side),
    ensures
        begins(ops, old_side) == side_start(ops[0], old_side),
    decreases ops.len(),
{
    if ops.len() > 1 && !names_side(ops[0], old_side) {
        let rest = ops.drop_first();
        assert(side_end(ops[0], old_side) - side_start(ops[0], old_side) == 0);
        assert(side_end(ops[1 - 1], old_side) == side_start(ops[1], old_side));
        assert forall|i: int| 0 <= i < rest.len() implies side_end(#[trigger] rest[i], old_side)
            - side_start(rest[i], old_side) == side_len(rest[i], old_side) by {
            assert(rest[i] == ops[i + 1]);
        }
        assert forall|i: int| 1 <= i < rest.len() implies side_end(rest[i - 1], old_side)
            == side_start(#[trigger] rest[i], old_side) by {
            assert(rest[i] == ops[i + 1] && rest[i - 1] == ops[i + 1 - 1]);
        }
        lemma_begins(rest, old_side);
    }
}

proof fn lemma_count_spans(ops: Seq<DiffOp>, old_side: bool)
    requires
        ops.len() > 0,
        meets(ops, old_side),
    ensures
        side_count(ops, old_side) == side_end(ops.last(), old_side) - side_start(ops[0], old_side),
    decreases ops.len(),
{
    let head = ops.drop_last();
    assert(ops[ops.len() - 1] == ops.last());
    if ops.len() > 1 {
        assert forall|i: int| 0 <= i < head.len() implies side_end(#[trigger] head[i], old_side)
            - side_start(head[i], old_side) == side_len(head[i], old_side) by {
            assert(head[i] == ops[i]);
        }
        assert forall|i: int| 1 <= i < head.len() implies side_end(head[i - 1], old_side)
            == side_start(#[trigger] head[i], old_side) by {
            assert(head[i] == ops[i] && head[i - 1] == ops[i - 1]);
        }
        lemma_count_spans(head, old_side);
        assert(head.last() == ops[ops.len() - 1 - 1]);
        assert(side_end(ops[ops.len() - 1 - 1], old_side) == side_start(
            ops[ops.len() - 1],
            old_side,
        ));
    } else {
        assert(side_count(head, old_side) == 0);
    }
}

} // verus!
