//! Names that no other object bears yet: a name that is taken gets a number
//! at its end, counted up until the name is free.
use crate::name::{find_text, position_of, texts};
use crate::search::{lemma_distinct_bounded, lemma_first_match};
use crate::name::is_text;
use vstd::prelude::*;
use vstd::string::*;

verus! {

/// The value of a decimal digit.
pub open spec fn digit_value(c: char) -> Option<nat> {
    if c == '0' {
        Some(0)
    } else if c == '1' {
        Some(1)
    } else if c == '2' {
        Some(2)
    } else if c == '3' {
        Some(3)
    } else if c == '4' {
        Some(4)
    } else if c == '5' {
        Some(5)
    } else if c == '6' {
        Some(6)
    } else if c == '7' {
        Some(7)
    } else if c == '8' {
        Some(8)
    } else if c == '9' {
        Some(9)
    } else {
        None
    }
}

/// The decimal digit of a value below ten.
pub open spec fn digit(d: nat) -> char {
    if d == 0 {
        '0'
    } else if d == 1 {
        '1'
    } else if d == 2 {
        '2'
    } else if d == 3 {
        '3'
    } else if d == 4 {
        '4'
    } else if d == 5 {
        '5'
    } else if d == 6 {
        '6'
    } else if d == 7 {
        '7'
    } else if d == 8 {
        '8'
    } else {
        '9'
    }
}

/// A number written in decimal digits, without leading zeros.
pub open spec fn decimal(n: nat) -> Seq<char>
    decreases n,
{
    if n < 10 {
        seq![digit(n)]
    } else {
        decimal(n / 10).push(digit(n % 10))
    }
}

/// The number that a sequence of decimal digits writes.
pub open spec fn number_of(digits: Seq<char>) -> nat
    decreases digits.len(),
{
    if digits.len() == 0 {
        0
    } else {
        number_of(digits.drop_last()) * 10 + match digit_value(digits.last()) {
            Some(d) => d,
            None => 0,
        }
    }
}

/// How many decimal digits a text ends in.
pub open spec fn digits_at_end(text: Seq<char>) -> nat
    decreases text.len(),
{
    if text.len() > 0 && digit_value(text.last()).is_some() {
        1 + digits_at_end(text.drop_last())
    } else {
        0
    }
}

/// A text without the decimal digits that it ends in.
pub open spec fn stem(text: Seq<char>) -> Seq<char> {
    text.take(text.len() - digits_at_end(text))
}

/// The number from which the search for a free name counts up: the number
/// that the text ends in; one where it ends in none; zero where it ends in a
/// number too large to count from.
pub open spec fn first_number(text: Seq<char>) -> nat {
    let digits = text.skip(text.len() - digits_at_end(text));
    if digits.len() == 0 {
        1
    } else if number_of(digits) <= u64::MAX {
        number_of(digits)
    } else {
        0
    }
}

/// The name tried for the number `k`: the stem of the text and the number.
pub open spec fn candidate(text: Seq<char>, k: nat) -> Seq<char> {
    stem(text) + decimal(k)
}

/// Whether `k` is the first number, counting up from where the text starts,
/// whose candidate the table does not hold.
pub open spec fn first_free(names: Seq<Seq<char>>, text: Seq<char>, k: nat) -> bool {
    &&& first_number(text) <= k
    &&& position_of(names, candidate(text, k)).is_none()
    &&& forall|j: nat|
        first_number(text) <= j < k ==> position_of(names, #[trigger] candidate(text, j)).is_some()
}

/// The name that an object called `text` gets in a package with the names
/// `names`: `text` itself where the table does not hold it, and otherwise the
/// first candidate that the table does not hold.
pub open spec fn unique_name(names: Seq<Seq<char>>, text: Seq<char>) -> Seq<char> {
    if position_of(names, text).is_none() {
        text
    } else {
        candidate(text, choose|k: nat| first_free(names, text, k))
    }
}

/// Writing a number and reading it back gives the number.
pub proof fn lemma_decimal_round_trip(n: nat)
    ensures
        number_of(decimal(n)) == n,
        decimal(n).len() >= 1,
    decreases n,
{
    if n < 10 {
        assert(decimal(n).drop_last() =~= Seq::<char>::empty());
        assert(number_of(decimal(n).drop_last()) == 0);
    } else {
        lemma_decimal_round_trip(n / 10);
        assert(decimal(n).drop_last() =~= decimal(n / 10));
    }
}

/// Different numbers give different candidates.
pub proof fn lemma_candidates_differ(text: Seq<char>, j: nat, k: nat)
    requires
        j != k,
    ensures
        candidate(text, j) != candidate(text, k),
{
    lemma_decimal_round_trip(j);
    lemma_decimal_round_trip(k);
    let s = stem(text);
    if candidate(text, j) == candidate(text, k) {
        assert(decimal(j) =~= candidate(text, j).skip(s.len() as int));
        assert(decimal(k) =~= candidate(text, k).skip(s.len() as int));
    }
}

/// At most one number is the first free one.
pub proof fn lemma_first_free_is_one(names: Seq<Seq<char>>, text: Seq<char>, j: nat, k: nat)
    requires
        first_free(names, text, j),
        first_free(names, text, k),
    ensures
        j == k,
{
    if j < k {
        assert(position_of(names, candidate(text, j)).is_some());
    } else if k < j {
        assert(position_of(names, candidate(text, k)).is_some());
    }
}

/// The name given is one that the table does not hold, wherever a free
/// candidate exists.
pub proof fn lemma_unique_name_is_free(names: Seq<Seq<char>>, text: Seq<char>, k: nat)
    requires
        position_of(names, text).is_some() ==> first_free(names, text, k),
    ensures
        position_of(names, unique_name(names, text)).is_none(),
        position_of(names, text).is_some() ==> unique_name(names, text) == candidate(text, k),
{
    if position_of(names, text).is_some() {
        let chosen = choose|k: nat| first_free(names, text, k);
        lemma_first_free_is_one(names, text, chosen, k);
    }
}

/// A prefix of a sequence of digits writes a number that is no larger.
proof fn lemma_number_of_grows(digits: Seq<char>, n: int)
    requires
        0 <= n <= digits.len(),
    ensures
        number_of(digits.take(n)) <= number_of(digits),
    decreases digits.len() - n,
{
    if n < digits.len() {
        lemma_number_of_grows(digits, n + 1);
        assert(digits.take(n + 1).drop_last() =~= digits.take(n));
    } else {
        assert(digits.take(n) =~= digits);
    }
}

/// The text that writes one decimal digit.
fn digit_text(d: u8) -> (text: &'static str)
    requires
        d < 10,
    ensures
        text@ == seq![digit(d as nat)],
{
    proof {
        reveal_strlit("0");
        reveal_strlit("1");
        reveal_strlit("2");
        reveal_strlit("3");
        reveal_strlit("4");
        reveal_strlit("5");
        reveal_strlit("6");
        reveal_strlit("7");
        reveal_strlit("8");
        reveal_strlit("9");
    }
    let text = if d == 0 {
        "0"
    } else if d == 1 {
        "1"
    } else if d == 2 {
        "2"
    } else if d == 3 {
        "3"
    } else if d == 4 {
        "4"
    } else if d == 5 {
        "5"
    } else if d == 6 {
        "6"
    } else if d == 7 {
        "7"
    } else if d == 8 {
        "8"
    } else {
        "9"
    };
    assert(text@ =~= seq![digit(d as nat)]);
    text
}

/// Appends a number in decimal digits to a text.
fn append_decimal(text: &mut String, n: u128)
    ensures
        final(text)@ == old(text)@ + decimal(n as nat),
    decreases n,
{
    if n < 10 {
        text.append(digit_text(n as u8));
    } else {
        append_decimal(text, n / 10);
        text.append(digit_text((n % 10) as u8));
        assert(text@ =~= old(text)@ + decimal(n as nat));
    }
}

/// The value of a character as a decimal digit.
fn read_digit(c: char) -> (value: Option<u8>)
    ensures
        match value {
            Some(d) => digit_value(c) == Some(d as nat) && d < 10,
            None => digit_value(c).is_none(),
        },
{
    if c == '0' {
        Some(0)
    } else if c == '1' {
        Some(1)
    } else if c == '2' {
        Some(2)
    } else if c == '3' {
        Some(3)
    } else if c == '4' {
        Some(4)
    } else if c == '5' {
        Some(5)
    } else if c == '6' {
        Some(6)
    } else if c == '7' {
        Some(7)
    } else if c == '8' {
        Some(8)
    } else if c == '9' {
        Some(9)
    } else {
        None
    }
}

/// How many decimal digits a text ends in.
fn count_digits_at_end(text: &str) -> (count: usize)
    ensures
        count == digits_at_end(text@),
        count <= text@.len(),
{
    let n = text.unicode_len();
    let mut end: usize = n;
    let mut scanning = true;
    assert(text@.take(n as int) =~= text@);
    while scanning && end > 0
        invariant
            n == text@.len(),
            end <= n,
            digits_at_end(text@) == (n - end) + if scanning {
                digits_at_end(text@.take(end as int))
            } else {
                0
            },
        decreases end + if scanning { 1int } else { 0int },
    {
        let c = text.get_char(end - 1);
        let ghost head = text@.take(end as int);
        proof {
            assert(head.last() == c);
            assert(head.drop_last() =~= text@.take(end - 1));
        }
        if read_digit(c).is_some() {
            end -= 1;
        } else {
            scanning = false;
        }
    }
    proof {
        if scanning {
            assert(text@.take(0) =~= Seq::<char>::empty());
        }
    }
    n - end
}

/// The number that the last `count` characters of a text write, or zero
/// where it is too large to count from.
fn read_number(text: &str, count: usize) -> (value: u64)
    requires
        count == digits_at_end(text@),
        0 < count <= text@.len(),
    ensures
        value == first_number(text@),
{
    let n = text.unicode_len();
    let ghost digits = text@.skip(n - count);
    let mut value: u64 = 0;
    let mut i: usize = 0;
    while i < count
        invariant
            n == text@.len(),
            0 < count <= n,
            count == digits_at_end(text@),
            i <= count,
            digits == text@.skip(n - count),
            value == number_of(digits.take(i as int)),
        decreases count - i,
    {
        let c = text.get_char(n - count + i);
        let d: u8 = match read_digit(c) {
            Some(d) => d,
            None => 0,
        };
        proof {
            assert(digits.take(i + 1).drop_last() =~= digits.take(i as int));
            assert(digits.take(i + 1).last() == c);
            lemma_number_of_grows(digits, i + 1);
            assert(number_of(digits.take(i + 1)) == value * 10 + d);
        }
        if value > (u64::MAX - d as u64) / 10 {
            assert(value * 10 + d > u64::MAX);
            return 0;
        }
        value = value * 10 + d as u64;
        i += 1;
    }
    assert(digits.take(count as int) =~= digits);
    value
}

/// Gives a name that the table does not hold: `text` itself where it is free,
/// and otherwise `text` with the number at its end counted up, or with a
/// number put to its end, until it is.
pub fn give_unique_name(names: &Vec<String>, text: &String) -> (unique: String)
    ensures
        unique@ == unique_name(texts(names@), text@),
        position_of(texts(names@), unique@).is_none(),
{
    let ghost table = texts(names@);
    if find_text(names, text).is_none() {
        proof {
            lemma_unique_name_is_free(table, text@, 0);
        }
        return text.clone();
    }
    let count = count_digits_at_end(text.as_str());
    let length = text.as_str().unicode_len();
    let first: u64 = if count == 0 {
        assert(text@.skip(text@.len() - 0) =~= Seq::<char>::empty());
        1
    } else {
        read_number(text.as_str(), count)
    };
    let stem_text = text.as_str().substring_char(0, length - count);
    assert(stem_text@ =~= stem(text@));
    let ghost mut found: Seq<int> = Seq::empty();
    let mut k: u128 = first as u128;
    loop
        invariant
            table == texts(names@),
            stem_text@ == stem(text@),
            first == first_number(text@),
            position_of(table, text@).is_some(),
            first <= k,
            k - first == found.len(),
            found.len() <= names.len(),
            forall|a: int|
                0 <= a < found.len() ==> 0 <= (#[trigger] found[a]) < names.len() && table[found[a]]
                    == candidate(text@, (first + a) as nat),
            forall|j: nat|
                first <= j < k ==> position_of(table, #[trigger] candidate(text@, j)).is_some(),
        decreases names.len() - found.len(),
    {
        let mut name = String::from_str(stem_text);
        append_decimal(&mut name, k);
        assert(name@ == candidate(text@, k as nat));
        match find_text(names, &name) {
            None => {
                proof {
                    lemma_unique_name_is_free(table, text@, k as nat);
                }
                return name;
            },
            Some(at) => {
                proof {
                    lemma_first_match(table, is_text(name@));
                    let longer = found.push(at as int);
                    assert forall|a: int, b: int| 0 <= a < b < longer.len() implies longer[a]
                        != longer[b] by {
                        lemma_candidates_differ(text@, (first + a) as nat, (first + b) as nat);
                    }
                    lemma_distinct_bounded(longer, names.len() as nat);
                    found = longer;
                }
                k += 1;
            },
        }
    }
}

/// The number at which a search that counts up from `k` and looks at no
/// more than `tries` candidates stops: at the first candidate that the table
/// does not hold, or else behind the last candidate looked at.
pub open spec fn search(names: Seq<Seq<char>>, text: Seq<char>, k: nat, tries: nat) -> nat
    decreases tries,
{
    if tries == 0 || position_of(names, candidate(text, k)).is_none() {
        k
    } else {
        search(names, text, k + 1, (tries - 1) as nat)
    }
}

/// The search stops within its tries, passes only taken candidates, and
/// stops early only at a free one.
proof fn lemma_search(names: Seq<Seq<char>>, text: Seq<char>, k: nat, tries: nat)
    ensures
        k <= search(names, text, k, tries) <= k + tries,
        forall|j: nat|
            k <= j < search(names, text, k, tries) ==> position_of(
                names,
                #[trigger] candidate(text, j),
            ).is_some(),
        search(names, text, k, tries) < k + tries ==> position_of(
            names,
            candidate(text, search(names, text, k, tries)),
        ).is_none(),
    decreases tries,
{
    if !(tries == 0 || position_of(names, candidate(text, k)).is_none()) {
        lemma_search(names, text, k + 1, (tries - 1) as nat);
    }
}

/// A table cannot hold more candidates than it has strings: of the
/// candidates for one more number than the table has strings, one is free.
proof fn lemma_some_candidate_is_free(names: Seq<Seq<char>>, text: Seq<char>, k: nat)
    ensures
        exists|j: nat|
            k <= j <= k + names.len() && position_of(names, #[trigger] candidate(text, j)).is_none(),
{
    if forall|j: nat|
        k <= j <= k + names.len() ==> position_of(names, #[trigger] candidate(text, j)).is_some() {
        let places = Seq::new(
            names.len() + 1,
            |a: int| position_of(names, candidate(text, (k + a) as nat)).unwrap(),
        );
        assert forall|a: int| 0 <= a < places.len() implies 0 <= (#[trigger] places[a])
            < names.len() && names[places[a]] == candidate(text, (k + a) as nat) by {
            let name = candidate(text, (k + a) as nat);
            assert(position_of(names, name).is_some());
            lemma_first_match(names, is_text(name));
        }
        assert forall|a: int, b: int| 0 <= a < b < places.len() implies places[a] != places[b] by {
            lemma_candidates_differ(text, (k + a) as nat, (k + b) as nat);
            assert(names[places[a]] == candidate(text, (k + a) as nat));
            assert(names[places[b]] == candidate(text, (k + b) as nat));
        }
        lemma_distinct_bounded(places, names.len());
    }
}

/// Name uniqueness. The name given is one that the table does not hold.
pub proof fn lemma_unique_name_is_new(names: Seq<Seq<char>>, text: Seq<char>)
    ensures
        position_of(names, unique_name(names, text)).is_none(),
{
    if position_of(names, text).is_some() {
        let first = first_number(text);
        let k = search(names, text, first, names.len());
        lemma_search(names, text, first, names.len());
        if position_of(names, candidate(text, k)).is_some() {
            assert(k == first + names.len());
            lemma_some_candidate_is_free(names, text, first);
            let free = choose|j: nat|
                first <= j <= first + names.len() && position_of(
                    names,
                    #[trigger] candidate(text, j),
                ).is_none();
            assert(position_of(names, candidate(text, free)).is_some());
        }
        lemma_unique_name_is_free(names, text, k);
    } else {
        lemma_unique_name_is_free(names, text, 0);
    }
}

} // verus!
