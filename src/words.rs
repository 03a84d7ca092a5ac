//! Lists of names written as words separated by spaces.
use vstd::prelude::*;
use vstd::string::*;
use crate::balance::names;
use crate::error::InputError;

verus! {

/// The words finished after reading `s`, and the word in progress.
pub open spec fn scan_words(s: Seq<char>) -> (Seq<Seq<char>>, Seq<char>)
    decreases s.len(),
{
    if s.len() == 0 {
        (seq![], seq![])
    } else {
        let (ws, cur) = scan_words(s.drop_last());
        if s.last() == ' ' {
            if cur.len() > 0 {
                (ws.push(cur), seq![])
            } else {
                (ws, seq![])
            }
        } else {
            (ws, cur.push(s.last()))
        }
    }
}

/// The non-empty pieces of `s` between spaces, in order.
pub open spec fn words(s: Seq<char>) -> Seq<Seq<char>> {
    let (ws, cur) = scan_words(s);
    if cur.len() > 0 {
        ws.push(cur)
    } else {
        ws
    }
}

/// What `str::to_lowercase` returns for `s`.
pub uninterp spec fn lower_of(s: Seq<char>) -> Seq<char>;

pub open spec fn lowered(ws: Seq<Seq<char>>) -> Seq<Seq<char>> {
    ws.map_values(|w: Seq<char>| lower_of(w))
}

/// Relies on std's `str::to_lowercase`: Unicode lowercase mapping, a function
/// of the characters alone.
#[verifier::external_body]
pub(crate) fn lowercase(s: &str) -> (r: String)
    ensures
        r@ == lower_of(s@),
{
    s.to_lowercase()
}

/// The non-empty pieces of `s` between spaces, in order.
pub fn split_words(s: &str) -> (r: Vec<String>)
    ensures
        names(r@) == words(s@),
{
    let n = s.unicode_len();
    let mut out: Vec<String> = Vec::new();
    let mut start: usize = 0;
    let mut k: usize = 0;
    proof {
        assert(s@.take(0) =~= seq![]);
        assert(names(out@) =~= seq![]);
        assert(s@.subrange(0, 0) =~= seq![]);
    }
    while k < n
        invariant
            n == s@.len(),
            0 <= start <= k <= n,
            names(out@) == scan_words(s@.take(k as int)).0,
            scan_words(s@.take(k as int)).1 == s@.subrange(start as int, k as int),
        decreases n - k,
    {
        let c = s.get_char(k);
        proof {
            assert(s@.take(k + 1).drop_last() =~= s@.take(k as int));
            assert(s@.take(k + 1).last() == c);
        }
        if c == ' ' {
            if k > start {
                let ghost before = out@;
                out.push(s.substring_char(start, k).to_owned());
                proof {
                    assert(names(out@) =~= names(before).push(s@.subrange(start as int, k as int)));
                }
            }
            start = k + 1;
            proof {
                assert(s@.subrange(start as int, k + 1) =~= seq![]);
            }
        } else {
            proof {
                assert(s@.subrange(start as int, k + 1) =~= s@.subrange(start as int, k as int).push(
                    c,
                ));
            }
        }
        k += 1;
    }
    proof {
        assert(s@.take(n as int) =~= s@);
    }
    if n > start {
        let ghost before = out@;
        out.push(s.substring_char(start, n).to_owned());
        proof {
            assert(names(out@) =~= names(before).push(s@.subrange(start as int, n as int)));
        }
    }
    out
}

fn lower_all(ws: &Vec<String>, from: usize) -> (r: Vec<String>)
    requires
        from <= ws@.len(),
    ensures
        names(r@) == lowered(names(ws@).subrange(from as int, ws@.len() as int)),
{
    let mut out: Vec<String> = Vec::new();
    let mut i: usize = from;
    proof {
        assert(names(out@) =~= lowered(names(ws@).subrange(from as int, from as int)));
    }
    while i < ws.len()
        invariant
            from <= i <= ws@.len(),
            names(out@) == lowered(names(ws@).subrange(from as int, i as int)),
        decreases ws.len() - i,
    {
        let ghost before = out@;
        out.push(lowercase(ws[i].as_str()));
        proof {
            assert(names(out@) =~= names(before).push(lower_of(ws@[i as int]@)));
            assert(lowered(names(ws@).subrange(from as int, i + 1)) =~= lowered(
                names(ws@).subrange(from as int, i as int),
            ).push(lower_of(ws@[i as int]@)));
        }
        i += 1;
    }
    out
}

/// The participants listed in `s`, lowercased; at least one is required.
pub fn parse_participants(s: &str) -> (r: Result<Vec<String>, InputError>)
    ensures
        words(s@).len() == 0 ==> r == Err::<Vec<String>, InputError>(
            InputError::ParticipantsNotProvided,
        ),
        words(s@).len() > 0 ==> (r matches Ok(v) && names(v@) == lowered(words(s@))),
{
    let ws = split_words(s);
    if ws.len() == 0 {
        Err(InputError::participants_not_provided())
    } else {
        let v = lower_all(&ws, 0);
        proof {
            assert(names(ws@).subrange(0, ws@.len() as int) =~= names(ws@));
        }
        Ok(v)
    }
}

/// A group name followed by its members, all lowercased; the group name is
/// required.
pub fn parse_group_and_members(s: &str) -> (r: Result<(String, Vec<String>), InputError>)
    ensures
        words(s@).len() == 0 ==> r == Err::<(String, Vec<String>), InputError>(
            InputError::GroupNotProvided,
        ),
        words(s@).len() > 0 ==> (r matches Ok((g, m)) && g@ == lower_of(words(s@)[0]) && names(m@)
            == lowered(words(s@).drop_first())),
{
    let ws = split_words(s);
    if ws.len() == 0 {
        Err(InputError::group_not_provided())
    } else {
        let group = lowercase(ws[0].as_str());
        let members = lower_all(&ws, 1);
        proof {
            assert(names(ws@).subrange(1, ws@.len() as int) =~= words(s@).drop_first());
        }
        Ok((group, members))
    }
}

} // verus!
