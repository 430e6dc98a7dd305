//! Names: indices into a package's table of strings.
use crate::search::{first_match, lemma_first_match, lemma_first_match_at, lemma_first_match_push};
use vstd::prelude::*;

verus! {

/// A name as objects hold it: the position of a string in the name table of
/// the package that the object lives in, and the number that tells apart
/// objects named by the same string.
#[derive(Clone, Copy, Debug, PartialEq, Eq, Structural)]
pub struct Name {
    pub index: usize,
    pub number: i32,
}

/// The strings of a name table, as sequences of characters.
pub open spec fn texts(names: Seq<String>) -> Seq<Seq<char>> {
    names.map_values(|s: String| s@)
}

/// The string at `index`. An index beyond the table reads as the empty string.
pub open spec fn text_at(names: Seq<Seq<char>>, index: int) -> Seq<char> {
    if 0 <= index < names.len() {
        names[index]
    } else {
        Seq::empty()
    }
}

/// The condition of being `text`.
pub open spec fn is_text(text: Seq<char>) -> spec_fn(Seq<char>) -> bool {
    |t: Seq<char>| t == text
}

/// The first position at which `names` holds `text`.
pub open spec fn position_of(names: Seq<Seq<char>>, text: Seq<char>) -> Option<int> {
    first_match(names, is_text(text))
}

/// The table after `text` has been interned: unchanged where it already holds
/// the string, and with the string appended where it does not.
pub open spec fn interned(names: Seq<Seq<char>>, text: Seq<char>) -> Seq<Seq<char>> {
    if position_of(names, text).is_some() {
        names
    } else {
        names.push(text)
    }
}

/// The table after the strings of `list` have been interned one by one, from
/// the first to the last.
pub open spec fn interned_all(names: Seq<Seq<char>>, list: Seq<Seq<char>>) -> Seq<Seq<char>>
    decreases list.len(),
{
    if list.len() == 0 {
        names
    } else {
        interned(interned_all(names, list.drop_last()), list.last())
    }
}

/// Interning only appends: the table it started from is kept as a prefix.
pub proof fn lemma_interned_all_extends(names: Seq<Seq<char>>, list: Seq<Seq<char>>)
    ensures
        names.len() <= interned_all(names, list).len(),
        interned_all(names, list).take(names.len() as int) == names,
    decreases list.len(),
{
    if list.len() > 0 {
        lemma_interned_all_extends(names, list.drop_last());
        let before = interned_all(names, list.drop_last());
        assert(interned(before, list.last()).take(names.len() as int) =~= before.take(names.len() as int));
    } else {
        assert(names.take(names.len() as int) =~= names);
    }
}

/// Every string of the list is in the table once the list has been interned.
pub proof fn lemma_interned_all_holds(names: Seq<Seq<char>>, list: Seq<Seq<char>>, i: int)
    requires
        0 <= i < list.len(),
    ensures
        position_of(interned_all(names, list), list[i]).is_some(),
    decreases list.len(),
{
    let before = interned_all(names, list.drop_last());
    let p = is_text(list[i]);
    lemma_first_match_push(before, p, list.last());
    if i < list.len() - 1 {
        lemma_interned_all_holds(names, list.drop_last(), i);
        assert(list.drop_last()[i] == list[i]);
    }
}

/// Interning one list after another is interning the two joined.
pub proof fn lemma_interned_all_concat(names: Seq<Seq<char>>, a: Seq<Seq<char>>, b: Seq<Seq<char>>)
    ensures
        interned_all(names, a + b) == interned_all(interned_all(names, a), b),
    decreases b.len(),
{
    if b.len() == 0 {
        assert(a + b =~= a);
    } else {
        lemma_interned_all_concat(names, a, b.drop_last());
        assert((a + b).drop_last() =~= a + b.drop_last());
        assert((a + b).last() == b.last());
    }
}

/// Reads the string that a name points at.
pub fn read_text(names: &Vec<String>, index: usize) -> (text: String)
    ensures
        text@ == text_at(texts(names@), index as int),
{
    if index < names.len() {
        names[index].clone()
    } else {
        String::new()
    }
}

/// Whether the string at `index` is `text`.
pub fn text_is(names: &Vec<String>, index: usize, text: &String) -> (same: bool)
    ensures
        same == (text_at(texts(names@), index as int) == text@),
{
    if index < names.len() {
        names[index] == *text
    } else {
        let empty = String::new();
        empty == *text
    }
}

/// Looks a string up in a name table.
pub fn find_text(names: &Vec<String>, text: &String) -> (found: Option<usize>)
    ensures
        match found {
            Some(i) => position_of(texts(names@), text@) == Some(i as int),
            None => position_of(texts(names@), text@).is_none(),
        },
{
    let ghost table = texts(names@);
    let ghost p = is_text(text@);
    let mut i: usize = 0;
    while i < names.len()
        invariant
            i <= names.len(),
            table == texts(names@),
            p == is_text(text@),
            forall|j: int| 0 <= j < i ==> !p(#[trigger] table[j]),
        decreases names.len() - i,
    {
        if names[i] == *text {
            proof {
                lemma_first_match_at(table, p, i as int);
            }
            return Some(i);
        }
        i += 1;
    }
    proof {
        lemma_first_match(table, p);
    }
    None
}

/// Interns a string: returns where the table holds it, appending it first
/// where the table does not hold it yet.
pub fn intern(names: &mut Vec<String>, text: String) -> (index: usize)
    ensures
        texts(final(names)@) == interned(texts(old(names)@), text@),
        position_of(texts(final(names)@), text@) == Some(index as int),
        index < final(names).len(),
{
    let found = find_text(names, &text);
    proof {
        lemma_first_match(texts(names@), is_text(text@));
    }
    match found {
        Some(i) => i,
        None => {
            let index = names.len();
            proof {
                lemma_first_match_push(texts(names@), is_text(text@), text@);
                assert(texts(names@.push(text)) =~= texts(names@).push(text@));
            }
            names.push(text);
            index
        },
    }
}

} // verus!
