//! Which names are valid for participants, aliases and groups.
use vstd::prelude::*;
use vstd::string::*;
use crate::error::InputError;

verus! {

pub open spec fn is_ascii_letter(c: char) -> bool {
    ('a' <= c && c <= 'z') || ('A' <= c && c <= 'Z')
}

pub open spec fn is_ascii_letter_or_digit(c: char) -> bool {
    is_ascii_letter(c) || ('0' <= c && c <= '9')
}

/// A valid name is made of ASCII letters and digits and starts with a letter.
/// The empty name is valid.
pub open spec fn valid_name(s: Seq<char>) -> bool {
    &&& forall|i: int| 0 <= i < s.len() ==> is_ascii_letter_or_digit(#[trigger] s[i])
    &&& s.len() > 0 ==> is_ascii_letter(s[0])
}

/// The index of the first invalid name, if any.
pub open spec fn first_invalid(names: Seq<String>, k: int) -> bool {
    &&& 0 <= k < names.len()
    &&& !valid_name(names[k]@)
    &&& forall|j: int| 0 <= j < k ==> valid_name(#[trigger] names[j]@)
}

/// Whether `name` is ASCII, alphanumeric and starts with a letter (or is empty).
pub fn is_valid_name(name: &str) -> (r: bool)
    ensures
        r == valid_name(name@),
{
    let n = name.unicode_len();
    let mut i: usize = 0;
    while i < n
        invariant
            n == name@.len(),
            0 <= i <= n,
            forall|j: int| 0 <= j < i ==> is_ascii_letter_or_digit(#[trigger] name@[j]),
        decreases n - i,
    {
        let c = name.get_char(i);
        if !(('a' <= c && c <= 'z') || ('A' <= c && c <= 'Z') || ('0' <= c && c <= '9')) {
            return false;
        }
        i += 1;
    }
    if n == 0 {
        return true;
    }
    let c = name.get_char(0);
    ('a' <= c && c <= 'z') || ('A' <= c && c <= 'Z')
}

fn first_invalid_name(names: &[String]) -> (r: Option<usize>)
    ensures
        r matches Some(k) ==> first_invalid(names@, k as int),
        r is None ==> forall|j: int| 0 <= j < names@.len() ==> valid_name(#[trigger] names@[j]@),
{
    let mut i: usize = 0;
    while i < names.len()
        invariant
            0 <= i <= names.len(),
            forall|j: int| 0 <= j < i ==> valid_name(#[trigger] names@[j]@),
        decreases names.len() - i,
    {
        if !is_valid_name(names[i].as_str()) {
            return Some(i);
        }
        i += 1;
    }
    None
}

/// Checks a list of participant names; the error names the first invalid one.
pub fn validate_participant_names(names: &[String]) -> (r: Result<(), InputError>)
    ensures
        r is Ok <==> forall|j: int| 0 <= j < names@.len() ==> valid_name(#[trigger] names@[j]@),
        r matches Err(e) ==> exists|k: int|
            first_invalid(names@, k) && e == InputError::InvalidParticipantName(names@[k]),
{
    match first_invalid_name(names) {
        Some(k) => Err(InputError::invalid_participant_name(names[k].clone())),
        None => Ok(()),
    }
}

/// Checks a participant name.
pub fn validate_participant_name(name: &str) -> (r: Result<(), InputError>)
    ensures
        valid_name(name@) ==> r is Ok,
        !valid_name(name@) ==> (r matches Err(InputError::InvalidParticipantName(n)) && n@ == name@),
{
    if is_valid_name(name) {
        Ok(())
    } else {
        Err(InputError::invalid_participant_name(name.to_owned()))
    }
}

/// Checks a list of aliases; the error names the first invalid one.
pub fn validate_alias_names(names: &[String]) -> (r: Result<(), InputError>)
    ensures
        r is Ok <==> forall|j: int| 0 <= j < names@.len() ==> valid_name(#[trigger] names@[j]@),
        r matches Err(e) ==> exists|k: int|
            first_invalid(names@, k) && e == InputError::InvalidAliasName(names@[k]),
{
    match first_invalid_name(names) {
        Some(k) => Err(InputError::invalid_alias_name(names[k].clone())),
        None => Ok(()),
    }
}

/// Checks a group name.
pub fn validate_group_name(name: &str) -> (r: Result<(), InputError>)
    ensures
        valid_name(name@) ==> r is Ok,
        !valid_name(name@) ==> (r matches Err(InputError::InvalidGroupName(n)) && n@ == name@),
{
    if is_valid_name(name) {
        Ok(())
    } else {
        Err(InputError::invalid_group_name(name.to_owned()))
    }
}

} // verus!
