use vstd::prelude::*;

verus! {

/// Relies on `String::push`: it appends one character.
pub assume_specification[ std::string::String::push ](s: &mut std::string::String, ch: char)
    ensures
        final(s)@ == old(s)@.push(ch),
;

/// Whether some item of `list` satisfies `predicate`.
pub fn some<T, F: Fn(&T) -> bool>(list: &Vec<T>, predicate: F) -> (r: bool)
    requires
        forall|i: int| 0 <= i < list.len() ==> predicate.requires((&list[i],)),
    ensures
        r ==> exists|i: int| 0 <= i < list.len() && predicate.ensures((&list[i],), true),
        !r ==> forall|i: int| 0 <= i < list.len() ==> predicate.ensures((&list[i],), false),
{
    let mut i: usize = 0;
    while i < list.len()
        invariant
            i <= list.len(),
            forall|j: int| 0 <= j < list.len() ==> predicate.requires((&list[j],)),
            forall|j: int| 0 <= j < i ==> predicate.ensures((&list[j],), false),
        decreases list.len() - i,
    {
        if predicate(&list[i]) {
            return true;
        }
        i += 1;
    }
    false
}

/// The characters of `s`.
pub fn chars_of(s: &str) -> (r: Vec<char>)
    ensures
        r@ == s@,
{
    broadcast use vstd::string::group_string_axioms;

    let mut out: Vec<char> = Vec::new();
    for c in it: s.chars()
        invariant
            it.seq() == s@,
            out@ == it.seq().take(it.index() as int),
    {
        proof {
            assert(it.seq().take(it.index() + 1) =~= it.seq().take(it.index() as int).push(c));
        }
        out.push(c);
    }
    assert(out@ =~= s@);
    out
}

} // verus!
