//! Checks of names against what a chat has registered: participants, their
//! aliases and groups. The registered lists are read from storage by the
//! caller.
use vstd::prelude::*;
use vstd::string::*;
use crate::balance::names;
use crate::error::InputError;
use crate::expense_syntax::{is_white_space, white_space};
use crate::participants::{alias_of, lookup_alias};

verus! {

fn position_of(v: &[String], n: &String) -> (r: Option<usize>)
    ensures
        r is None ==> !names(v@).contains(n@),
        r matches Some(k) ==> k < v@.len() && v@[k as int]@ == n@,
{
    let mut i: usize = 0;
    while i < v.len()
        invariant
            0 <= i <= v@.len(),
            forall|j: int| 0 <= j < i ==> v@[j]@ != n@,
        decreases v.len() - i,
    {
        if v[i] == *n {
            return Some(i);
        }
        i += 1;
    }
    proof {
        if names(v@).contains(n@) {
            let j = choose|j: int| 0 <= j < names(v@).len() && names(v@)[j] == n@;
            assert(v@[j]@ == n@);
        }
    }
    None
}

/// The index of the first name of `v` that `registered` lacks, if any.
pub open spec fn first_unregistered(v: Seq<String>, registered: Seq<String>, k: int) -> bool {
    &&& 0 <= k < v.len()
    &&& !names(registered).contains(v[k]@)
    &&& forall|j: int| 0 <= j < k ==> names(registered).contains(#[trigger] v[j]@)
}

/// Checks that every participant is registered; the error names the first
/// one that is not.
pub fn validate_participants_exist(participants: &[String], registered: &[String]) -> (r: Result<
    (),
    InputError,
>)
    ensures
        r is Ok <==> forall|j: int|
            0 <= j < participants@.len() ==> names(registered@).contains(#[trigger] participants@[j]@),
        r matches Err(e) ==> exists|k: int|
            first_unregistered(participants@, registered@, k) && e == InputError::UnregisteredParticipant(
                participants@[k],
            ),
{
    let mut i: usize = 0;
    while i < participants.len()
        invariant
            0 <= i <= participants@.len(),
            forall|j: int| 0 <= j < i ==> names(registered@).contains(#[trigger] participants@[j]@),
        decreases participants.len() - i,
    {
        match position_of(registered, &participants[i]) {
            None => {
                proof {
                    assert(first_unregistered(participants@, registered@, i as int));
                }
                return Err(InputError::unregistered_participant(participants[i].clone()));
            },
            Some(k) => {
                proof {
                    assert(names(registered@)[k as int] == participants@[i as int]@);
                }
            },
        }
        i += 1;
    }
    Ok(())
}

/// Checks that a participant is registered.
pub fn validate_participant_exists(participant: &String, registered: &[String]) -> (r: Result<
    (),
    InputError,
>)
    ensures
        names(registered@).contains(participant@) ==> r is Ok,
        !names(registered@).contains(participant@) ==> r == Err::<(), InputError>(
            InputError::UnregisteredParticipant(*participant),
        ),
{
    match position_of(registered, participant) {
        None => Err(InputError::unregistered_participant(participant.clone())),
        Some(k) => {
            proof {
                assert(names(registered@)[k as int] == participant@);
            }
            Ok(())
        },
    }
}

/// The first check that new aliases fail, for alias `k`: it is the name of a
/// participant, or already the alias of one.
pub open spec fn alias_taken(v: Seq<String>, participants: Seq<String>, aliases: Seq<(String, String)>, k: int) -> bool {
    names(participants).contains(v[k]@) || alias_of(aliases, v[k]@) is Some
}

/// Checks that none of the new aliases is already the name of a participant
/// or an alias: for the first one that is, the error says which.
pub fn validate_aliases_do_not_exist(
    aliases: &[String],
    participants: &[String],
    registered: &Vec<(String, String)>,
) -> (r: Result<(), InputError>)
    ensures
        r is Ok <==> forall|j: int|
            0 <= j < aliases@.len() ==> !alias_taken(aliases@, participants@, registered@, j),
        r matches Err(e) ==> exists|k: int|
            0 <= k < aliases@.len() && alias_taken(aliases@, participants@, registered@, k) && (forall|j: int|
                0 <= j < k ==> !alias_taken(aliases@, participants@, registered@, j)) && (if names(
                participants@,
            ).contains(aliases@[k]@) {
                e == InputError::AliasRegisteredAsParticipant(aliases@[k])
            } else {
                e matches InputError::AliasRegisteredAsAlias(a, p) && a == aliases@[k] && p@
                    == alias_of(registered@, aliases@[k]@)->0
            }),
{
    let mut i: usize = 0;
    while i < aliases.len()
        invariant
            0 <= i <= aliases@.len(),
            forall|j: int| 0 <= j < i ==> !alias_taken(aliases@, participants@, registered@, j),
        decreases aliases.len() - i,
    {
        let alias = &aliases[i];
        match position_of(participants, alias) {
            Some(k) => {
                proof {
                    assert(names(participants@)[k as int] == alias@);
                    assert(alias_taken(aliases@, participants@, registered@, i as int));
                }
                return Err(InputError::alias_registered_as_participant(alias.clone()));
            },
            None => {},
        }
        match lookup_alias(registered, alias) {
            Some(p) => {
                proof {
                    assert(alias_taken(aliases@, participants@, registered@, i as int));
                }
                return Err(InputError::alias_registered_as_alias(alias.clone(), p));
            },
            None => {},
        }
        i += 1;
    }
    Ok(())
}

/// Checks that every alias to remove is an alias of the participant, given
/// the participant's registered aliases; the error names the first that is
/// not.
pub fn validate_aliases_exist(participant: &String, aliases: &[String], registered: &[String]) -> (r:
    Result<(), InputError>)
    ensures
        r is Ok <==> forall|j: int|
            0 <= j < aliases@.len() ==> names(registered@).contains(#[trigger] aliases@[j]@),
        r matches Err(e) ==> exists|k: int|
            first_unregistered(aliases@, registered@, k) && e == InputError::AliasNotRegisteredAsAlias(
                aliases@[k],
                *participant,
            ),
{
    let mut i: usize = 0;
    while i < aliases.len()
        invariant
            0 <= i <= aliases@.len(),
            forall|j: int| 0 <= j < i ==> names(registered@).contains(#[trigger] aliases@[j]@),
        decreases aliases.len() - i,
    {
        match position_of(registered, &aliases[i]) {
            None => {
                proof {
                    assert(first_unregistered(aliases@, registered@, i as int));
                }
                return Err(
                    InputError::alias_not_registered_as_alias(aliases[i].clone(), participant.clone()),
                );
            },
            Some(k) => {
                proof {
                    assert(names(registered@)[k as int] == aliases@[i as int]@);
                }
            },
        }
        i += 1;
    }
    Ok(())
}

/// The name is empty or only white space.
pub open spec fn blank(s: Seq<char>) -> bool {
    forall|i: int| 0 <= i < s.len() ==> is_white_space(#[trigger] s[i])
}

fn is_blank(s: &str) -> (r: bool)
    ensures
        r == blank(s@),
{
    let n = s.unicode_len();
    let mut i: usize = 0;
    while i < n
        invariant
            n == s@.len(),
            0 <= i <= n,
            forall|j: int| 0 <= j < i ==> is_white_space(#[trigger] s@[j]),
        decreases n - i,
    {
        if !white_space(s.get_char(i)) {
            return false;
        }
        i += 1;
    }
    true
}

/// Checks that a group name was given and is registered.
pub fn validate_group_exists(group_name: &String, groups: &[String]) -> (r: Result<(), InputError>)
    ensures
        blank(group_name@) ==> r == Err::<(), InputError>(InputError::GroupNotProvided),
        !blank(group_name@) && names(groups@).contains(group_name@) ==> r is Ok,
        !blank(group_name@) && !names(groups@).contains(group_name@) ==> r == Err::<(), InputError>(
            InputError::UnregisteredGroup(*group_name),
        ),
{
    if is_blank(group_name.as_str()) {
        return Err(InputError::group_not_provided());
    }
    match position_of(groups, group_name) {
        None => Err(InputError::unregistered_group(group_name.clone())),
        Some(k) => {
            proof {
                assert(names(groups@)[k as int] == group_name@);
            }
            Ok(())
        },
    }
}

} // verus!
