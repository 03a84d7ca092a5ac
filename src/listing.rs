//! Plain-text lists for replies.
use vstd::prelude::*;
use vstd::string::*;

verus! {

/// One line per element, each as `- element`.
pub open spec fn list_lines(es: Seq<Seq<char>>) -> Seq<char>
    decreases es.len(),
{
    if es.len() == 0 {
        seq![]
    } else {
        list_lines(es.drop_last()) + "- "@ + es.last() + "\n"@
    }
}

pub open spec fn texts(v: Seq<&str>) -> Seq<Seq<char>> {
    v.map_values(|s: &str| s@)
}

/// The elements as a bulleted list, or `Nothing to show!` when there are none.
pub fn format_simple_list(elements: &[&str]) -> (r: String)
    ensures
        elements@.len() == 0 ==> r@ == "Nothing to show!"@,
        elements@.len() > 0 ==> r@ == list_lines(texts(elements@)),
{
    if elements.len() == 0 {
        return String::from_str("Nothing to show!");
    }
    let mut out = String::new();
    let mut i: usize = 0;
    proof {
        assert(texts(elements@).take(0) =~= seq![]);
    }
    while i < elements.len()
        invariant
            0 <= i <= elements@.len(),
            out@ == list_lines(texts(elements@).take(i as int)),
        decreases elements.len() - i,
    {
        out.append("- ");
        out.append(elements[i]);
        out.append("\n");
        proof {
            let ts = texts(elements@);
            assert(ts.take(i + 1).drop_last() =~= ts.take(i as int));
            assert(ts.take(i + 1).last() == elements@[i as int]@);
        }
        i += 1;
    }
    proof {
        assert(texts(elements@).take(elements@.len() as int) =~= texts(elements@));
    }
    out
}


/// Relies on std's `String::push`: appends `c` to the end of `s`.
#[verifier::external_body]
fn push_char(s: &mut String, c: char)
    ensures
        final(s)@ == old(s)@.push(c),
{
    s.push(c);
}

/// `length` copies of `c`, used to pad columns.
pub fn make_string_of_char(c: char, length: usize) -> (r: String)
    ensures
        r@ == Seq::new(length as nat, |i: int| c),
{
    let mut out = String::new();
    let mut i: usize = 0;
    while i < length
        invariant
            0 <= i <= length,
            out@ == Seq::new(i as nat, |k: int| c),
        decreases length - i,
    {
        push_char(&mut out, c);
        proof {
            assert(Seq::new((i + 1) as nat, |k: int| c) =~= Seq::new(i as nat, |k: int| c).push(c));
        }
        i += 1;
    }
    out
}

} // verus!
