//! The text of an expense: creditors, the amount, debtors and an optional
//! message, as in `alice bob/10 30.5 carol #friends - dinner`.
//!
//! A participant is a name, optionally with a custom amount after a `/`; a
//! leading `@` is dropped and a leading `#` marks a group. Names are
//! lowercased. Parts are separated by spaces, tabs or line breaks.
use vstd::prelude::*;
use vstd::string::*;
use crate::amount::{amount_value, do_parse_amount};
use crate::error::InputError;
use crate::names::{is_valid_name, valid_name};
use crate::types::{Amount, ParsedExpense, ParsedParticipant, ParticipantMode};
use crate::words::{lower_of, lowercase};

verus! {

pub open spec fn is_space(c: char) -> bool {
    c == ' ' || c == '\t' || c == '\r' || c == '\n'
}

/// Characters that end a name.
pub open spec fn stops_name(c: char) -> bool {
    is_space(c) || c == '/' || c == '-'
}

/// Unicode white space, which may trail an expense.
pub open spec fn is_white_space(c: char) -> bool {
    ('\t' <= c && c <= '\r') || c == ' ' || c == '\u{85}' || c == '\u{a0}' || c == '\u{1680}' || (
    '\u{2000}' <= c && c <= '\u{200a}') || c == '\u{2028}' || c == '\u{2029}' || c == '\u{202f}'
        || c == '\u{205f}' || c == '\u{3000}'
}

/// Whether `c` is Unicode white space.
pub fn white_space(c: char) -> (r: bool)
    ensures
        r == is_white_space(c),
{
    ('\t' <= c && c <= '\r') || c == ' ' || c == '\u{85}' || c == '\u{a0}' || c == '\u{1680}' || (
    '\u{2000}' <= c && c <= '\u{200a}') || c == '\u{2028}' || c == '\u{2029}' || c == '\u{202f}'
        || c == '\u{205f}' || c == '\u{3000}'
}

pub open spec fn skip_spaces(s: Seq<char>, i: int) -> int
    decreases s.len() - i,
{
    if 0 <= i < s.len() && is_space(s[i]) {
        skip_spaces(s, i + 1)
    } else {
        i
    }
}

pub open spec fn name_end(s: Seq<char>, i: int) -> int
    decreases s.len() - i,
{
    if 0 <= i < s.len() && !stops_name(s[i]) {
        name_end(s, i + 1)
    } else {
        i
    }
}

pub open spec fn word_end(s: Seq<char>, i: int) -> int
    decreases s.len() - i,
{
    if 0 <= i < s.len() && !is_space(s[i]) {
        word_end(s, i + 1)
    } else {
        i
    }
}

/// A name as written, without its leading `#` or `@`.
pub open spec fn bare_name(t: Seq<char>) -> Seq<char> {
    if t.len() > 0 && (t[0] == '#' || t[0] == '@') {
        t.drop_first()
    } else {
        t
    }
}

pub open spec fn marks_group(t: Seq<char>) -> bool {
    t.len() > 0 && t[0] == '#'
}

/// A participant as read: lowercased name, whether it is a group, custom amount.
pub type Mention = (Seq<char>, bool, Option<i64>);

/// The participant written at `i` (after any spaces) and where the next part
/// starts.
pub open spec fn mention_at(s: Seq<char>, i: int) -> Option<(Mention, int)> {
    let j = skip_spaces(s, i);
    let e = name_end(s, j);
    let t = s.subrange(j, e);
    if e == j || !valid_name(bare_name(t)) {
        None
    } else if e < s.len() && s[e] == '/' {
        let a = word_end(s, e + 1);
        if a == e + 1 {
            None
        } else {
            match amount_value(s.subrange(e + 1, a)) {
                Some(v) => Some(((lower_of(bare_name(t)), marks_group(t), Some(v)), skip_spaces(s, a))),
                None => None,
            }
        }
    } else if e == s.len() || is_space(s[e]) {
        Some(((lower_of(bare_name(t)), marks_group(t), None), skip_spaces(s, e)))
    } else {
        None
    }
}

/// The participants written from `i` on, and where they end.
pub open spec fn mentions(s: Seq<char>, i: int) -> (Seq<Mention>, int)
    decreases s.len() - i,
{
    match mention_at(s, i) {
        Some((m, k)) => if i < k <= s.len() {
            let (ms, end) = mentions(s, k);
            (seq![m] + ms, end)
        } else {
            (seq![], i)
        },
        None => (seq![], i),
    }
}

/// The amount written at `i` (after any spaces) and where the next part starts.
pub open spec fn amount_at(s: Seq<char>, i: int) -> Option<(i64, int)> {
    let j = skip_spaces(s, i);
    let e = word_end(s, j);
    if e == j {
        None
    } else {
        match amount_value(s.subrange(j, e)) {
            Some(v) => Some((v, skip_spaces(s, e))),
            None => None,
        }
    }
}

/// The message written at `i` (after any spaces, behind `- `), and where
/// the text not read yet starts.
pub open spec fn message_at(s: Seq<char>, i: int) -> (Option<Seq<char>>, int) {
    let j = skip_spaces(s, i);
    if j + 2 <= s.len() && s[j] == '-' && s[j + 1] == ' ' {
        (Some(s.subrange(j + 2, s.len() as int)), s.len() as int)
    } else {
        (None, i)
    }
}

/// The parts of an expense text: creditors, amount, debtors, message; `None`
/// when the text is not an expense.
pub open spec fn expense_syntax(s: Seq<char>) -> Option<(Seq<Mention>, i64, Seq<Mention>, Option<Seq<char>>)> {
    let (cs, i1) = mentions(s, 0);
    match amount_at(s, i1) {
        None => None,
        Some((a, i2)) => {
            let (ds, i3) = mentions(s, i2);
            let (msg, i4) = message_at(s, i3);
            if forall|k: int| i4 <= k < s.len() ==> is_white_space(#[trigger] s[k]) {
                Some((cs, a, ds, msg))
            } else {
                None
            }
        },
    }
}

pub open spec fn mention_of(p: ParsedParticipant) -> Mention {
    (p.name@, p.is_group, p.amount)
}

pub open spec fn mentions_of(ps: Seq<ParsedParticipant>) -> Seq<Mention> {
    ps.map_values(|p: ParsedParticipant| mention_of(p))
}

fn skip_spaces_from(s: &str, n: usize, i: usize) -> (r: usize)
    requires
        n == s@.len(),
        i <= n,
    ensures
        r == skip_spaces(s@, i as int),
        i <= r <= n,
{
    let mut k = i;
    while k < n
        invariant
            n == s@.len(),
            i <= k <= n,
            skip_spaces(s@, i as int) == skip_spaces(s@, k as int),
        ensures
            i <= k <= n,
            skip_spaces(s@, i as int) == k,
        decreases n - k,
    {
        let c = s.get_char(k);
        if !(c == ' ' || c == '\t' || c == '\r' || c == '\n') {
            break;
        }
        k += 1;
    }
    k
}

fn name_end_from(s: &str, n: usize, i: usize) -> (r: usize)
    requires
        n == s@.len(),
        i <= n,
    ensures
        r == name_end(s@, i as int),
        i <= r <= n,
{
    let mut k = i;
    while k < n
        invariant
            n == s@.len(),
            i <= k <= n,
            name_end(s@, i as int) == name_end(s@, k as int),
        ensures
            i <= k <= n,
            name_end(s@, i as int) == k,
        decreases n - k,
    {
        let c = s.get_char(k);
        if c == ' ' || c == '\t' || c == '\r' || c == '\n' || c == '/' || c == '-' {
            break;
        }
        k += 1;
    }
    k
}

fn word_end_from(s: &str, n: usize, i: usize) -> (r: usize)
    requires
        n == s@.len(),
        i <= n,
    ensures
        r == word_end(s@, i as int),
        i <= r <= n,
{
    let mut k = i;
    while k < n
        invariant
            n == s@.len(),
            i <= k <= n,
            word_end(s@, i as int) == word_end(s@, k as int),
        ensures
            i <= k <= n,
            word_end(s@, i as int) == k,
        decreases n - k,
    {
        let c = s.get_char(k);
        if c == ' ' || c == '\t' || c == '\r' || c == '\n' {
            break;
        }
        k += 1;
    }
    k
}

/// Reads the participant written at `i`, on the given side.
fn read_mention(s: &str, n: usize, i: usize, mode: ParticipantMode) -> (r: Option<(ParsedParticipant, usize)>)
    requires
        n == s@.len(),
        i <= n,
    ensures
        mention_at(s@, i as int) is None ==> r is None,
        mention_at(s@, i as int) matches Some((m, k)) ==> (r matches Some((p, k2)) && k2 == k
            && mention_of(p) == m && p.mode == mode && i < k2 <= n),
{
    let j = skip_spaces_from(s, n, i);
    let e = name_end_from(s, n, j);
    if e == j {
        return None;
    }
    let t = s.substring_char(j, e);
    let first = t.get_char(0);
    let is_group = first == '#';
    let bare = if first == '#' || first == '@' {
        t.substring_char(1, e - j)
    } else {
        t
    };
    proof {
        assert(t@ == s@.subrange(j as int, e as int));
        if first == '#' || first == '@' {
            assert(bare@ =~= t@.drop_first());
        }
        assert(bare@ == bare_name(t@));
    }
    if !is_valid_name(bare) {
        return None;
    }
    let name = lowercase(bare);
    if e < n && s.get_char(e) == '/' {
        let a = word_end_from(s, n, e + 1);
        if a == e + 1 {
            return None;
        }
        match do_parse_amount(s.substring_char(e + 1, a)) {
            Some(v) => {
                let next = skip_spaces_from(s, n, a);
                Some((ParsedParticipant { name, mode, amount: Some(v), is_group }, next))
            },
            None => None,
        }
    } else if e == n || {
        let c = s.get_char(e);
        c == ' ' || c == '\t' || c == '\r' || c == '\n'
    } {
        let next = skip_spaces_from(s, n, e);
        Some((ParsedParticipant { name, mode, amount: None, is_group }, next))
    } else {
        None
    }
}

/// Reads the participants written from `i` on, on the given side, and where
/// they end.
fn read_mentions(s: &str, n: usize, i: usize, mode: ParticipantMode) -> (r: (Vec<ParsedParticipant>, usize))
    requires
        n == s@.len(),
        i <= n,
    ensures
        mentions_of(r.0@) == mentions(s@, i as int).0,
        r.1 == mentions(s@, i as int).1,
        i <= r.1 <= n,
        forall|k: int| 0 <= k < r.0@.len() ==> (#[trigger] r.0@[k]).mode == mode,
{
    let mut out: Vec<ParsedParticipant> = Vec::new();
    let mut pos = i;
    proof {
        assert(mentions_of(out@) + mentions(s@, i as int).0 =~= mentions(s@, i as int).0);
    }
    while pos < n
        invariant
            n == s@.len(),
            i <= pos <= n,
            mentions_of(out@) + mentions(s@, pos as int).0 == mentions(s@, i as int).0,
            mentions(s@, pos as int).1 == mentions(s@, i as int).1,
            forall|k: int| 0 <= k < out@.len() ==> (#[trigger] out@[k]).mode == mode,
        ensures
            i <= pos <= n,
            mentions_of(out@) + mentions(s@, pos as int).0 == mentions(s@, i as int).0,
            mentions(s@, pos as int).1 == mentions(s@, i as int).1,
            forall|k: int| 0 <= k < out@.len() ==> (#[trigger] out@[k]).mode == mode,
            mention_at(s@, pos as int) is None || pos == n,
        decreases n - pos,
    {
        match read_mention(s, n, pos, mode) {
            Some((p, k)) => {
                let ghost before = out@;
                let ghost m = mention_of(p);
                proof {
                    assert(mentions(s@, pos as int).0 == seq![m] + mentions(s@, k as int).0);
                }
                out.push(p);
                proof {
                    assert(mentions_of(out@) =~= mentions_of(before).push(m));
                    assert(mentions_of(out@) + mentions(s@, k as int).0 =~= mentions_of(before) + (
                    seq![m] + mentions(s@, k as int).0));
                }
                pos = k;
            },
            None => {
                break;
            },
        }
    }
    proof {
        if pos == n {
            assert(skip_spaces(s@, n as int) == n);
            assert(name_end(s@, n as int) == n);
        }
        assert(mentions(s@, pos as int).0 =~= seq![]);
        assert(mentions_of(out@) + seq![] =~= mentions_of(out@));
    }
    (out, pos)
}

fn syntax_error(reason: &str) -> (r: Result<ParsedExpense, InputError>)
    ensures
        r matches Err(InputError::InvalidExpenseSyntax(_)),
{
    Err(InputError::invalid_expense_syntax(reason.to_owned()))
}

/// Reads an expense: creditors, the amount, debtors, and an optional message
/// behind `- `. Creditors come first among the participants.
pub fn parse_expense(s: &str) -> (r: Result<ParsedExpense, InputError>)
    ensures
        expense_syntax(s@) is None ==> (r matches Err(InputError::InvalidExpenseSyntax(_))),
        expense_syntax(s@) matches Some((cs, a, ds, msg)) ==> (r matches Ok(e) && e.amount == a
            && mentions_of(e.participants@) == cs + ds
            && (forall|k: int| 0 <= k < cs.len() ==> (#[trigger] e.participants@[k]).mode == ParticipantMode::Creditor)
            && (forall|k: int| cs.len() <= k < e.participants@.len() ==> (#[trigger] e.participants@[k]).mode == ParticipantMode::Debtor)
            && (msg is None ==> e.message is None)
            && (msg matches Some(m) ==> (e.message matches Some(t) && t@ == m))),
{
    let n = s.unicode_len();
    let (mut participants, i1) = read_mentions(s, n, 0, ParticipantMode::Creditor);
    let j = skip_spaces_from(s, n, i1);
    let e = word_end_from(s, n, j);
    if e == j {
        return syntax_error("missing amount");
    }
    let amount: Amount = match do_parse_amount(s.substring_char(j, e)) {
        Some(v) => v,
        None => {
            return syntax_error("cannot read the amount");
        },
    };
    let i2 = skip_spaces_from(s, n, e);
    proof {
        assert(amount_at(s@, i1 as int) == Some((amount, i2 as int)));
    }
    let (mut debtors, i3) = read_mentions(s, n, i2, ParticipantMode::Debtor);
    let m = skip_spaces_from(s, n, i3);
    let mut message: Option<String> = None;
    let mut i4 = i3;
    if n >= 2 && m <= n - 2 && s.get_char(m) == '-' && s.get_char(m + 1) == ' ' {
        message = Some(s.substring_char(m + 2, n).to_owned());
        i4 = n;
    }
    proof {
        assert(message_at(s@, i3 as int).1 == i4);
        assert(message_at(s@, i3 as int).0 is None <==> message is None);
        if message is Some {
            assert(message->0@ == message_at(s@, i3 as int).0->0);
        }
    }
    let mut k = i4;
    while k < n
        invariant
            n == s@.len(),
            i4 <= k <= n,
            forall|q: int| i4 <= q < k ==> is_white_space(#[trigger] s@[q]),
            i1 == mentions(s@, 0).1,
            amount_at(s@, i1 as int) == Some((amount, i2 as int)),
            i3 == mentions(s@, i2 as int).1,
            i4 == message_at(s@, i3 as int).1,
        decreases n - k,
    {
        let c = s.get_char(k);
        if !white_space(c) {
            proof {
                assert(!is_white_space(s@[k as int]));
            }
            return syntax_error("unexpected text after the expense");
        }
        k += 1;
    }
    let ghost cs = participants@;
    let ghost ds = debtors@;
    participants.append(&mut debtors);
    proof {
        assert(participants@ == cs + ds);
        assert(mentions_of(cs + ds) =~= mentions_of(cs) + mentions_of(ds));
    }
    Ok(ParsedExpense { participants, amount, message })
}

} // verus!
