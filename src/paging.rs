//! Listing expenses a page at a time.
use vstd::prelude::*;
use crate::types::SavedExpense;

verus! {

/// Where the buttons under a page lead: the start of the previous page and
/// of the next one, when there is one.
pub struct PageLinks {
    pub previous: Option<usize>,
    pub next: Option<usize>,
}

/// The previous page starts `limit` earlier, or at the beginning when fewer
/// than `limit` come before; there is a next page when entries remain after
/// this one.
pub open spec fn links_for(start: int, limit: int, total: int) -> (Option<int>, Option<int>) {
    (
        if start > 0 {
            Some(if start <= limit { 0 } else { start - limit })
        } else {
            None
        },
        if start + limit < total {
            Some(start + limit)
        } else {
            None
        },
    )
}

pub open spec fn as_int(o: Option<usize>) -> Option<int> {
    match o {
        Some(v) => Some(v as int),
        None => None,
    }
}

/// The page of `expenses` that starts at `start` and holds at most `limit`
/// of them, with the links to the neighbouring pages.
pub fn list_page(expenses: Vec<SavedExpense>, start: usize, limit: usize) -> (r: (
    Vec<SavedExpense>,
    PageLinks,
))
    ensures
        ({
            let n = expenses@.len() as int;
            let from = if start < n { start as int } else { n };
            let to = if start + limit < n { start + limit } else { n };
            &&& r.0@ == expenses@.subrange(from, to)
            &&& (as_int(r.1.previous), as_int(r.1.next)) == links_for(start as int, limit as int, n)
        }),
{
    let n = expenses.len();
    let mut rest = expenses;
    let from = if start < n {
        start
    } else {
        n
    };
    let mut page = rest.split_off(from);
    let more = n - from > limit;
    if more {
        page.truncate(limit);
    }
    let previous = if start > 0 {
        Some(if start <= limit {
            0
        } else {
            start - limit
        })
    } else {
        None
    };
    let next = if more {
        Some(from + limit)
    } else {
        None
    };
    (page, PageLinks { previous, next })
}

} // verus!
