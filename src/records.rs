//! Expenses rebuilt from the rows that storage returns: one row per
//! participant of an expense.
use vstd::prelude::*;
use crate::types::{ParticipantMode, SavedExpense, SavedParticipant};

verus! {

/// One participant of one active expense, as stored.
pub struct ActiveExpenseQuery {
    pub id: i64,
    pub e_amount: i64,
    pub e_message: Option<String>,
    pub p_name: String,
    pub p_is_creditor: bool,
    pub p_amount: Option<i64>,
}

pub open spec fn has_id(rows: Seq<ActiveExpenseQuery>, id: i64) -> bool {
    exists|i: int| 0 <= i < rows.len() && #[trigger] rows[i].id == id
}

/// The expense identifiers of `rows`, each once, in order of first appearance.
pub open spec fn first_ids(rows: Seq<ActiveExpenseQuery>) -> Seq<i64>
    decreases rows.len(),
{
    if rows.len() == 0 {
        seq![]
    } else if has_id(rows.drop_last(), rows.last().id) {
        first_ids(rows.drop_last())
    } else {
        first_ids(rows.drop_last()).push(rows.last().id)
    }
}

/// The rows of expense `id`, in order.
pub open spec fn rows_with_id(rows: Seq<ActiveExpenseQuery>, id: i64) -> Seq<ActiveExpenseQuery>
    decreases rows.len(),
{
    if rows.len() == 0 {
        seq![]
    } else if rows.last().id == id {
        rows_with_id(rows.drop_last(), id).push(rows.last())
    } else {
        rows_with_id(rows.drop_last(), id)
    }
}

/// `p` is the participant that row `q` describes.
pub open spec fn describes_participant(p: SavedParticipant, q: ActiveExpenseQuery) -> bool {
    &&& p.name@ == q.p_name@
    &&& p.mode == if q.p_is_creditor {
        ParticipantMode::Creditor
    } else {
        ParticipantMode::Debtor
    }
    &&& p.amount == q.p_amount
}

/// `e` is the expense `id` of `rows`: amount and message from its first row,
/// one participant per row, in order.
pub open spec fn rebuilt(e: SavedExpense, rows: Seq<ActiveExpenseQuery>, id: i64) -> bool {
    let mine = rows_with_id(rows, id);
    &&& mine.len() > 0
    &&& e.id == id
    &&& e.amount == mine[0].e_amount
    &&& e.message == mine[0].e_message
    &&& e.participants@.len() == mine.len()
    &&& forall|j: int|
        0 <= j < mine.len() ==> describes_participant(#[trigger] e.participants@[j], mine[j])
}

proof fn lemma_rows_push(rows: Seq<ActiveExpenseQuery>, q: ActiveExpenseQuery, id: i64)
    ensures
        rows_with_id(rows.push(q), id) == if q.id == id {
            rows_with_id(rows, id).push(q)
        } else {
            rows_with_id(rows, id)
        },
        has_id(rows.push(q), id) <==> has_id(rows, id) || q.id == id,
        has_id(rows, id) <==> rows_with_id(rows, id).len() > 0,
    decreases rows.len(),
{
    assert(rows.push(q).drop_last() =~= rows);
    assert(rows.push(q).last() == q);
    if has_id(rows.push(q), id) && q.id != id {
        let i = choose|i: int| 0 <= i < rows.push(q).len() && #[trigger] rows.push(q)[i].id == id;
        assert(rows[i].id == id);
    }
    if has_id(rows, id) {
        let i = choose|i: int| 0 <= i < rows.len() && #[trigger] rows[i].id == id;
        assert(rows.push(q)[i].id == id);
    }
    if q.id == id {
        assert(rows.push(q)[rows.len() as int].id == id);
    }
    if rows.len() > 0 {
        lemma_rows_push(rows.drop_last(), rows.last(), id);
        assert(rows.drop_last().push(rows.last()) =~= rows);
        if has_id(rows, id) && !has_id(rows.drop_last(), id) {
            let i = choose|i: int| 0 <= i < rows.len() && #[trigger] rows[i].id == id;
            if i < rows.len() - 1 {
                assert(rows.drop_last()[i].id == id);
            }
        }
    }
}

fn make_participant(q: &ActiveExpenseQuery) -> (p: SavedParticipant)
    ensures
        describes_participant(p, *q),
{
    if q.p_is_creditor {
        SavedParticipant::new_creditor(q.p_name.as_str(), q.p_amount)
    } else {
        SavedParticipant::new_debtor(q.p_name.as_str(), q.p_amount)
    }
}

/// Groups the rows of active expenses by expense: one expense per identifier,
/// in order of first appearance, with its amount and message from its first
/// row and one participant per row, in order.
pub fn parse_active_expenses_query(expenses: Vec<ActiveExpenseQuery>) -> (r: Vec<SavedExpense>)
    ensures
        r@.len() == first_ids(expenses@).len(),
        forall|k: int| 0 <= k < r@.len() ==> rebuilt(#[trigger] r@[k], expenses@, first_ids(expenses@)[k]),
{
    let ghost all = expenses@;
    let mut rows = expenses;
    let mut result: Vec<SavedExpense> = Vec::new();
    let mut i: usize = 0;
    let n = rows.len();
    proof {
        assert(all.take(0) =~= seq![]);
        assert(rows@ =~= all.subrange(0, n as int));
    }
    while rows.len() > 0
        invariant
            n == all.len(),
            i + rows@.len() == n,
            rows@ == all.subrange(i as int, n as int),
            result@.len() == first_ids(all.take(i as int)).len(),
            forall|k: int|
                0 <= k < result@.len() ==> rebuilt(
                    #[trigger] result@[k],
                    all.take(i as int),
                    first_ids(all.take(i as int))[k],
                ),
            forall|a: int, b: int|
                0 <= a < b < result@.len() ==> #[trigger] result@[a].id != #[trigger] result@[b].id,
            forall|id: i64| has_id(all.take(i as int), id) <==> exists|k: int| 0 <= k < result@.len() && #[trigger] result@[k].id == id,
        decreases rows.len(),
    {
        let q = rows.remove(0);
        let ghost prefix = all.take(i as int);
        let ghost next = all.take(i + 1);
        proof {
            assert(q == all[i as int]);
            assert(next =~= prefix.push(q));
            assert(next.drop_last() =~= prefix);
            assert(next.last() == q);
            assert(rows@ =~= all.subrange(i + 1, n as int));
        }
        let mut k: usize = 0;
        while k < result.len()
            invariant
                0 <= k <= result@.len(),
                forall|j: int| 0 <= j < k ==> #[trigger] result@[j].id != q.id,
            ensures
                0 <= k <= result@.len(),
                forall|j: int| 0 <= j < k ==> #[trigger] result@[j].id != q.id,
                k < result@.len() ==> result@[k as int].id == q.id,
            decreases result.len() - k,
        {
            if result[k].id == q.id {
                break;
            }
            k += 1;
        }
        let p = make_participant(&q);
        let ghost before = result@;
        proof {
            lemma_rows_push(prefix, q, q.id);
            assert forall|id: i64| id != q.id implies #[trigger] rows_with_id(next, id) == rows_with_id(prefix, id) by {
                lemma_rows_push(prefix, q, id);
            }
            assert forall|id: i64| #[trigger] has_id(next, id) <==> has_id(prefix, id) || q.id == id by {
                lemma_rows_push(prefix, q, id);
            }
        }
        if k < result.len() {
            let mut e = result.remove(k);
            let ghost old_parts = e.participants@;
            e.participants.push(p);
            result.insert(k, e);
            proof {
                assert(result@[k as int].id == q.id);
                assert(before[k as int].id == q.id);
                assert(has_id(prefix, q.id));
                assert(first_ids(next) == first_ids(prefix));
                assert forall|m: int| 0 <= m < result@.len() implies rebuilt(
                    #[trigger] result@[m],
                    next,
                    first_ids(next)[m],
                ) by {
                    if m == k {
                        let mine = rows_with_id(prefix, q.id);
                        assert(rebuilt(before[m], prefix, first_ids(prefix)[m]));
                        assert(rows_with_id(next, q.id) == mine.push(q));
                        assert(result@[m].participants@ == old_parts.push(p));
                        assert forall|j: int| 0 <= j < mine.len() + 1 implies describes_participant(
                            #[trigger] result@[m].participants@[j],
                            mine.push(q)[j],
                        ) by {
                            if j < mine.len() {
                                assert(describes_participant(before[m].participants@[j], mine[j]));
                            }
                        }
                    } else {
                        assert(result@[m] == before[m]);
                        assert(rebuilt(before[m], prefix, first_ids(prefix)[m]));
                        assert(before[m].id != q.id);
                    }
                }
                assert forall|a: int, b: int| 0 <= a < b < result@.len() implies #[trigger] result@[a].id
                    != #[trigger] result@[b].id by {
                    assert(result@[a].id == before[a].id && result@[b].id == before[b].id);
                }
                assert forall|id: i64| has_id(next, id) implies exists|m: int|
                    0 <= m < result@.len() && #[trigger] result@[m].id == id by {
                    if id == q.id {
                        assert(result@[k as int].id == id);
                    } else {
                        let m = choose|m: int| 0 <= m < before.len() && #[trigger] before[m].id == id;
                        assert(result@[m].id == id);
                    }
                }
                assert forall|id: i64| (exists|m: int| 0 <= m < result@.len() && #[trigger] result@[m].id == id) implies has_id(next, id) by {
                    let m = choose|m: int| 0 <= m < result@.len() && #[trigger] result@[m].id == id;
                    assert(before[m].id == id);
                }
            }
        } else {
            let e = SavedExpense::new(q.id, vec![p], q.e_amount, q.e_message);
            result.push(e);
            proof {
                assert(!has_id(prefix, q.id)) by {
                    if has_id(prefix, q.id) {
                        let m = choose|m: int| 0 <= m < before.len() && #[trigger] before[m].id == q.id;
                        assert(before[m].id != q.id);
                    }
                }
                assert(first_ids(next) == first_ids(prefix).push(q.id));
                assert(rows_with_id(prefix, q.id).len() == 0);
                assert(rows_with_id(next, q.id) =~= seq![q]);
                assert forall|m: int| 0 <= m < result@.len() implies rebuilt(
                    #[trigger] result@[m],
                    next,
                    first_ids(next)[m],
                ) by {
                    if m < before.len() {
                        assert(result@[m] == before[m]);
                        assert(rebuilt(before[m], prefix, first_ids(prefix)[m]));
                        assert(before[m].id != q.id);
                    }
                }
                assert forall|id: i64| has_id(next, id) implies exists|m: int|
                    0 <= m < result@.len() && #[trigger] result@[m].id == id by {
                    if id == q.id {
                        assert(result@[before.len() as int].id == id);
                    } else {
                        let m = choose|m: int| 0 <= m < before.len() && #[trigger] before[m].id == id;
                        assert(result@[m].id == id);
                    }
                }
                assert forall|id: i64| (exists|m: int| 0 <= m < result@.len() && #[trigger] result@[m].id == id) implies has_id(next, id) by {
                    let m = choose|m: int| 0 <= m < result@.len() && #[trigger] result@[m].id == id;
                    if m < before.len() {
                        assert(before[m].id == id);
                    }
                }
            }
        }
        i += 1;
    }
    proof {
        assert(all.take(n as int) =~= all);
    }
    result
}

} // verus!
