//! Participant lists of a written expense: merging repeated mentions and
//! replacing groups by their members.
use vstd::prelude::*;
use crate::error::InputError;
use crate::types::{ParsedExpense, ParsedParticipant, ParticipantMode};

verus! {

/// A participant is identified by its name and its side of the expense.
pub open spec fn key(p: ParsedParticipant) -> (Seq<char>, ParticipantMode) {
    (p.name@, p.mode)
}

pub open spec fn has_key(ps: Seq<ParsedParticipant>, k: (Seq<char>, ParticipantMode)) -> bool {
    exists|i: int| 0 <= i < ps.len() && #[trigger] key(ps[i]) == k
}

/// The keys of `ps`, each once, in order of first appearance.
pub open spec fn first_keys(ps: Seq<ParsedParticipant>) -> Seq<(Seq<char>, ParticipantMode)>
    decreases ps.len(),
{
    if ps.len() == 0 {
        seq![]
    } else if has_key(ps.drop_last(), key(ps.last())) {
        first_keys(ps.drop_last())
    } else {
        first_keys(ps.drop_last()).push(key(ps.last()))
    }
}

/// The last mention of `k` with a custom amount, if any.
pub open spec fn last_with_amount(ps: Seq<ParsedParticipant>, k: (Seq<char>, ParticipantMode)) -> Option<
    ParsedParticipant,
>
    decreases ps.len(),
{
    if ps.len() == 0 {
        None
    } else if key(ps.last()) == k && ps.last().amount is Some {
        Some(ps.last())
    } else {
        last_with_amount(ps.drop_last(), k)
    }
}

/// The first mention of `k`.
pub open spec fn first_with(ps: Seq<ParsedParticipant>, k: (Seq<char>, ParticipantMode)) -> ParsedParticipant
    decreases ps.len(),
{
    if ps.len() == 0 || !has_key(ps.drop_last(), k) {
        ps.last()
    } else {
        first_with(ps.drop_last(), k)
    }
}

/// The mention of `k` that stands for it: a custom amount supersedes a
/// mention without one, and a later custom amount an earlier one.
pub open spec fn chosen(ps: Seq<ParsedParticipant>, k: (Seq<char>, ParticipantMode)) -> ParsedParticipant {
    match last_with_amount(ps, k) {
        Some(p) => p,
        None => first_with(ps, k),
    }
}

proof fn lemma_push_mention(ps: Seq<ParsedParticipant>, p: ParsedParticipant)
    ensures
        forall|k: (Seq<char>, ParticipantMode)| #[trigger] has_key(ps.push(p), k) <==> has_key(ps, k) || key(p) == k,
        forall|k: (Seq<char>, ParticipantMode)|
            has_key(ps.push(p), k) ==> #[trigger] chosen(ps.push(p), k) == if key(p) == k && (
            p.amount is Some || !has_key(ps, k)) {
                p
            } else {
                chosen(ps, k)
            },
{
    let n = ps.push(p);
    assert(n.drop_last() =~= ps);
    assert(n.last() == p);
    assert forall|k: (Seq<char>, ParticipantMode)| #[trigger] has_key(n, k) <==> has_key(ps, k) || key(p) == k by {
        if has_key(n, k) && key(p) != k {
            let i = choose|i: int| 0 <= i < n.len() && #[trigger] key(n[i]) == k;
            assert(key(ps[i]) == k);
        }
        if has_key(ps, k) {
            let i = choose|i: int| 0 <= i < ps.len() && #[trigger] key(ps[i]) == k;
            assert(key(n[i]) == k);
        }
        if key(p) == k {
            assert(key(n[ps.len() as int]) == k);
        }
    }
    assert forall|k: (Seq<char>, ParticipantMode)| has_key(n, k) implies #[trigger] chosen(n, k)
        == if key(p) == k && (p.amount is Some || !has_key(ps, k)) {
        p
    } else {
        chosen(ps, k)
    } by {
        if key(p) == k && p.amount is Some {
            assert(last_with_amount(n, k) == Some(p));
        } else {
            assert(last_with_amount(n, k) == last_with_amount(ps, k));
            if key(p) == k && !has_key(ps, k) {
                lemma_no_key_no_amount(ps, k);
                assert(first_with(n, k) == p);
            } else {
                assert(has_key(ps, k));
                assert(first_with(n, k) == first_with(ps, k));
            }
        }
    }
}

proof fn lemma_no_key_no_amount(ps: Seq<ParsedParticipant>, k: (Seq<char>, ParticipantMode))
    requires
        !has_key(ps, k),
    ensures
        last_with_amount(ps, k) is None,
    decreases ps.len(),
{
    if ps.len() > 0 {
        assert(key(ps[ps.len() - 1]) != k);
        assert(!has_key(ps.drop_last(), k)) by {
            if has_key(ps.drop_last(), k) {
                let i = choose|i: int| 0 <= i < ps.drop_last().len() && #[trigger] key(ps.drop_last()[i]) == k;
                assert(key(ps[i]) == k);
            }
        }
        lemma_no_key_no_amount(ps.drop_last(), k);
    }
}

/// Merges repeated mentions of a participant on the same side: one mention
/// per name and side, in order of first appearance, the one that stands for
/// it being the last mention with a custom amount, or else the first mention.
pub fn normalize_participants(expense: ParsedExpense) -> (r: ParsedExpense)
    ensures
        r.amount == expense.amount,
        r.message == expense.message,
        r.participants@.len() == first_keys(expense.participants@).len(),
        forall|k: int|
            0 <= k < r.participants@.len() ==> #[trigger] r.participants@[k] == chosen(
                expense.participants@,
                first_keys(expense.participants@)[k],
            ),
{
    let ParsedExpense { participants, amount, message } = expense;
    let ghost all = participants@;
    let mut rest = participants;
    let mut result: Vec<ParsedParticipant> = Vec::new();
    let mut i: usize = 0;
    let n = rest.len();
    proof {
        assert(all.take(0) =~= seq![]);
        assert(rest@ =~= all.subrange(0, n as int));
    }
    while rest.len() > 0
        invariant
            n == all.len(),
            i + rest@.len() == n,
            rest@ == all.subrange(i as int, n as int),
            result@.len() == first_keys(all.take(i as int)).len(),
            forall|k: int|
                0 <= k < result@.len() ==> key(#[trigger] result@[k]) == first_keys(all.take(i as int))[k]
                    && result@[k] == chosen(all.take(i as int), first_keys(all.take(i as int))[k]),
            forall|a: int, b: int|
                0 <= a < b < result@.len() ==> key(#[trigger] result@[a]) != key(#[trigger] result@[b]),
            forall|k: (Seq<char>, ParticipantMode)|
                has_key(all.take(i as int), k) <==> exists|m: int|
                    0 <= m < result@.len() && #[trigger] key(result@[m]) == k,
        decreases rest.len(),
    {
        let p = rest.remove(0);
        let ghost prefix = all.take(i as int);
        let ghost next = all.take(i + 1);
        proof {
            assert(p == all[i as int]);
            assert(next =~= prefix.push(p));
            assert(next.drop_last() =~= prefix);
            assert(next.last() == p);
            assert(rest@ =~= all.subrange(i + 1, n as int));
            lemma_push_mention(prefix, p);
        }
        let mut k: usize = 0;
        while k < result.len()
            invariant
                0 <= k <= result@.len(),
                forall|j: int| 0 <= j < k ==> key(#[trigger] result@[j]) != key(p),
            ensures
                0 <= k <= result@.len(),
                forall|j: int| 0 <= j < k ==> key(#[trigger] result@[j]) != key(p),
                k < result@.len() ==> key(result@[k as int]) == key(p),
            decreases result.len() - k,
        {
            if result[k].name == p.name && result[k].mode == p.mode {
                break;
            }
            k += 1;
        }
        let ghost before = result@;
        if k < result.len() {
            proof {
                assert(has_key(prefix, key(p)));
                assert(first_keys(next) == first_keys(prefix));
            }
            if p.amount.is_some() {
                result.set(k, p);
            }
            proof {
                assert forall|m: int| 0 <= m < result@.len() implies key(#[trigger] result@[m])
                    == first_keys(next)[m] && result@[m] == chosen(next, first_keys(next)[m]) by {
                    assert(key(before[m]) == first_keys(prefix)[m]);
                    if m == k {
                        assert(key(before[m]) == key(p));
                    }
                }
                assert forall|a: int, b: int| 0 <= a < b < result@.len() implies key(#[trigger] result@[a])
                    != key(#[trigger] result@[b]) by {
                    assert(key(result@[a]) == key(before[a]) && key(result@[b]) == key(before[b]));
                }
                assert forall|kk: (Seq<char>, ParticipantMode)| has_key(next, kk) implies exists|m: int|
                    0 <= m < result@.len() && #[trigger] key(result@[m]) == kk by {
                    if kk == key(p) {
                        assert(key(result@[k as int]) == kk);
                    } else {
                        let m = choose|m: int| 0 <= m < before.len() && #[trigger] key(before[m]) == kk;
                        assert(key(result@[m]) == kk);
                    }
                }
                assert forall|kk: (Seq<char>, ParticipantMode)| (exists|m: int|
                    0 <= m < result@.len() && #[trigger] key(result@[m]) == kk) implies has_key(next, kk) by {
                    let m = choose|m: int| 0 <= m < result@.len() && #[trigger] key(result@[m]) == kk;
                    assert(key(before[m]) == kk);
                }
            }
        } else {
            proof {
                assert(!has_key(prefix, key(p))) by {
                    if has_key(prefix, key(p)) {
                        let m = choose|m: int| 0 <= m < before.len() && #[trigger] key(before[m]) == key(p);
                        assert(key(before[m]) != key(p));
                    }
                }
                assert(first_keys(next) == first_keys(prefix).push(key(p)));
            }
            result.push(p);
            proof {
                assert forall|m: int| 0 <= m < result@.len() implies key(#[trigger] result@[m])
                    == first_keys(next)[m] && result@[m] == chosen(next, first_keys(next)[m]) by {
                    if m < before.len() {
                        assert(key(before[m]) == first_keys(prefix)[m]);
                        assert(result@[m] == before[m]);
                    }
                }
                assert forall|kk: (Seq<char>, ParticipantMode)| has_key(next, kk) implies exists|m: int|
                    0 <= m < result@.len() && #[trigger] key(result@[m]) == kk by {
                    if kk == key(p) {
                        assert(key(result@[before.len() as int]) == kk);
                    } else {
                        let m = choose|m: int| 0 <= m < before.len() && #[trigger] key(before[m]) == kk;
                        assert(key(result@[m]) == kk);
                    }
                }
                assert forall|kk: (Seq<char>, ParticipantMode)| (exists|m: int|
                    0 <= m < result@.len() && #[trigger] key(result@[m]) == kk) implies has_key(next, kk) by {
                    let m = choose|m: int| 0 <= m < result@.len() && #[trigger] key(result@[m]) == kk;
                    if m < before.len() {
                        assert(key(before[m]) == kk);
                    }
                }
            }
        }
        i += 1;
    }
    proof {
        assert(all.take(n as int) =~= all);
    }
    ParsedExpense { participants: result, amount, message }
}


/// Some group of the expense carries a custom amount.
pub open spec fn group_with_amount(ps: Seq<ParsedParticipant>) -> bool {
    exists|i: int| 0 <= i < ps.len() && #[trigger] ps[i].is_group && ps[i].amount is Some
}

/// Rejects an expense where a group has a custom amount: a group's members
/// share its part evenly.
pub fn reject_group_amounts(expense: &ParsedExpense) -> (r: Result<(), InputError>)
    ensures
        !group_with_amount(expense.participants@) ==> r is Ok,
        group_with_amount(expense.participants@) ==> r == Err::<(), InputError>(
            InputError::GroupWithCustomAmount,
        ),
{
    let mut i: usize = 0;
    while i < expense.participants.len()
        invariant
            0 <= i <= expense.participants@.len(),
            forall|j: int|
                0 <= j < i ==> !(#[trigger] expense.participants@[j].is_group
                    && expense.participants@[j].amount is Some),
        decreases expense.participants.len() - i,
    {
        if expense.participants[i].is_group && expense.participants[i].amount.is_some() {
            return Err(InputError::group_with_custom_amount());
        }
        i += 1;
    }
    Ok(())
}

pub open spec fn group_count(ps: Seq<ParsedParticipant>) -> nat
    decreases ps.len(),
{
    if ps.len() == 0 {
        0
    } else {
        group_count(ps.drop_last()) + if ps.last().is_group { 1nat } else { 0nat }
    }
}

/// The members of a group, as participants on the group's side with no
/// custom amount.
pub open spec fn member_entries(ms: Seq<String>, mode: ParticipantMode) -> Seq<ParsedParticipant> {
    ms.map_values(|m: String| ParsedParticipant { name: m, mode, amount: None, is_group: false })
}

/// `ps` with the `j`-th group replaced by the members `ms[j]`.
pub open spec fn expanded(ps: Seq<ParsedParticipant>, ms: Seq<Vec<String>>) -> Seq<ParsedParticipant>
    decreases ps.len(),
{
    if ps.len() == 0 {
        seq![]
    } else if ps.last().is_group {
        expanded(ps.drop_last(), ms.drop_last()) + member_entries(ms.last()@, ps.last().mode)
    } else {
        expanded(ps.drop_last(), ms).push(ps.last())
    }
}

/// Replaces each group of the expense by its members: `members` holds the
/// members of each group, in the order in which the groups appear.
pub fn resolve_groups(expense: ParsedExpense, members: Vec<Vec<String>>) -> (r: ParsedExpense)
    requires
        members@.len() == group_count(expense.participants@),
    ensures
        r.amount == expense.amount,
        r.message == expense.message,
        r.participants@ == expanded(expense.participants@, members@),
{
    let ParsedExpense { participants, amount, message } = expense;
    let ghost all = participants@;
    let ghost all_members = members@;
    let mut rest = participants;
    let mut groups = members;
    let mut result: Vec<ParsedParticipant> = Vec::new();
    let mut i: usize = 0;
    let mut g: usize = 0;
    let n = rest.len();
    let group_total = groups.len();
    proof {
        assert(all_members.len() == group_total);
        assert(all.take(0) =~= seq![]);
        assert(all_members.take(0) =~= seq![]);
        assert(rest@ =~= all.subrange(0, n as int));
        assert(groups@ =~= all_members.subrange(0, all_members.len() as int));
    }
    while rest.len() > 0
        invariant
            n == all.len(),
            i + rest@.len() == n,
            rest@ == all.subrange(i as int, n as int),
            all_members.len() == group_count(all),
            all_members.len() <= usize::MAX,
            g == group_count(all.take(i as int)),
            g <= all_members.len(),
            groups@ == all_members.subrange(g as int, all_members.len() as int),
            result@ == expanded(all.take(i as int), all_members.take(g as int)),
        decreases rest.len(),
    {
        let p = rest.remove(0);
        let ghost prefix = all.take(i as int);
        let ghost next = all.take(i + 1);
        proof {
            assert(p == all[i as int]);
            assert(next.drop_last() =~= prefix);
            assert(next.last() == p);
            assert(rest@ =~= all.subrange(i + 1, n as int));
            lemma_group_count_prefix(all, i + 1);
        }
        if p.is_group {
            let mode = p.mode;
            proof {
                assert(group_count(next) == g + 1);
            }
            let mut ms = groups.remove(0);
            let ghost mv = ms@;
            let member_total = ms.len();
            proof {
                assert(mv.len() == member_total);
            }
            let ghost base = result@;
            proof {
                assert(mv == all_members[g as int]@);
                assert(groups@ =~= all_members.subrange(g + 1, all_members.len() as int));
                assert(member_entries(mv, mode).take(0) =~= seq![]);
                assert(base + member_entries(mv, mode).take(0) =~= base);
            }
            let mut taken: usize = 0;
            while ms.len() > 0
                invariant
                    mv.len() <= usize::MAX,
                    taken + ms@.len() == mv.len(),
                    ms@ == mv.subrange(taken as int, mv.len() as int),
                    result@ == base + member_entries(mv, mode).take(taken as int),
                decreases ms.len(),
            {
                let m = ms.remove(0);
                let ghost before = result@;
                proof {
                    assert(m == mv[taken as int]);
                    assert(ms@ =~= mv.subrange(taken + 1, mv.len() as int));
                }
                result.push(ParsedParticipant { name: m, mode, amount: None, is_group: false });
                proof {
                    let me = member_entries(mv, mode);
                    assert(me.take(taken + 1) =~= me.take(taken as int).push(me[taken as int]));
                    assert(result@ =~= base + me.take(taken + 1));
                }
                taken += 1;
            }
            proof {
                assert(member_entries(mv, mode).take(mv.len() as int) =~= member_entries(mv, mode));
                assert(all_members.take(g + 1).drop_last() =~= all_members.take(g as int));
                assert(all_members.take(g + 1).last()@ == mv);
            }
            g += 1;
        } else {
            result.push(p);
        }
        i += 1;
    }
    proof {
        assert(all.take(n as int) =~= all);
        assert(all_members.take(g as int) =~= all_members);
    }
    ParsedExpense { participants: result, amount, message }
}

proof fn lemma_group_count_prefix(ps: Seq<ParsedParticipant>, i: int)
    requires
        0 <= i <= ps.len(),
    ensures
        group_count(ps.take(i)) <= group_count(ps),
    decreases ps.len(),
{
    if i == ps.len() {
        assert(ps.take(i) =~= ps);
    } else {
        lemma_group_count_prefix(ps.drop_last(), i);
        assert(ps.drop_last().take(i) =~= ps.take(i));
    }
}


/// The participant that `n` is an alias of, from the first pair of
/// `aliases` (alias, participant) whose alias is `n`.
pub open spec fn alias_of(aliases: Seq<(String, String)>, n: Seq<char>) -> Option<Seq<char>>
    decreases aliases.len(),
{
    if aliases.len() == 0 {
        None
    } else if aliases[0].0@ == n {
        Some(aliases[0].1@)
    } else {
        alias_of(aliases.drop_first(), n)
    }
}

/// `q` is `p` with its name resolved through `aliases` (groups are kept).
pub open spec fn resolved(p: ParsedParticipant, q: ParsedParticipant, aliases: Seq<(String, String)>) -> bool {
    &&& q.mode == p.mode
    &&& q.amount == p.amount
    &&& q.is_group == p.is_group
    &&& q.name@ == if !p.is_group && alias_of(aliases, p.name@) is Some {
        alias_of(aliases, p.name@)->0
    } else {
        p.name@
    }
}

pub(crate) fn lookup_alias(aliases: &Vec<(String, String)>, n: &String) -> (r: Option<String>)
    ensures
        r is Some == alias_of(aliases@, n@) is Some,
        r matches Some(s) ==> s@ == alias_of(aliases@, n@)->0,
{
    let mut i: usize = 0;
    proof {
        assert(aliases@.subrange(0, aliases@.len() as int) =~= aliases@);
    }
    while i < aliases.len()
        invariant
            0 <= i <= aliases@.len(),
            alias_of(aliases@, n@) == alias_of(aliases@.subrange(i as int, aliases@.len() as int), n@),
        decreases aliases.len() - i,
    {
        proof {
            let rest = aliases@.subrange(i as int, aliases@.len() as int);
            assert(rest.drop_first() =~= aliases@.subrange(i + 1, aliases@.len() as int));
            assert(rest[0] == aliases@[i as int]);
        }
        if aliases[i].0 == *n {
            return Some(aliases[i].1.clone());
        }
        i += 1;
    }
    proof {
        assert(aliases@.subrange(i as int, aliases@.len() as int) =~= seq![]);
    }
    None
}

/// Replaces each participant name that is an alias by the name of the
/// participant it stands for; `aliases` pairs an alias with a participant.
pub fn resolve_aliases(expense: ParsedExpense, aliases: &Vec<(String, String)>) -> (r: ParsedExpense)
    ensures
        r.amount == expense.amount,
        r.message == expense.message,
        r.participants@.len() == expense.participants@.len(),
        forall|i: int|
            0 <= i < r.participants@.len() ==> resolved(
                expense.participants@[i],
                #[trigger] r.participants@[i],
                aliases@,
            ),
{
    let ParsedExpense { participants, amount, message } = expense;
    let ghost all = participants@;
    let mut ps = participants;
    let mut i: usize = 0;
    while i < ps.len()
        invariant
            0 <= i <= ps@.len(),
            ps@.len() == all.len(),
            forall|j: int| 0 <= j < i ==> resolved(all[j], #[trigger] ps@[j], aliases@),
            forall|j: int| i <= j < ps@.len() ==> #[trigger] ps@[j] == all[j],
        decreases ps.len() - i,
    {
        if !ps[i].is_group {
            match lookup_alias(aliases, &ps[i].name) {
                Some(name) => {
                    let p = ParsedParticipant {
                        name,
                        mode: ps[i].mode,
                        amount: ps[i].amount,
                        is_group: false,
                    };
                    ps.set(i, p);
                },
                None => {},
            }
        }
        i += 1;
    }
    ParsedExpense { participants: ps, amount, message }
}

} // verus!
