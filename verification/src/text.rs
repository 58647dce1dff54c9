//! Text: comparison, sorting, numbers and joining.

use vstd::prelude::*;

verus! {

/// The contents of each string.
pub open spec fn texts(strings: Seq<String>) -> Seq<Seq<char>> {
    strings.map_values(|string: String| string@)
}

/// Whether two strings hold the same characters.
pub fn same(left: &str, right: &str) -> (equal: bool)
    ensures
        equal == (left@ == right@),
{
    let length = left.unicode_len();
    if length != right.unicode_len() {
        return false;
    }
    left.to_owned() == right.to_owned()
}

/// `left` comes before `right` when they are compared character by character,
/// a prefix before what it begins.
pub open spec fn before(left: Seq<char>, right: Seq<char>) -> bool
    decreases left.len(),
{
    if right.len() == 0 {
        false
    } else if left.len() == 0 {
        true
    } else if left[0] != right[0] {
        left[0] < right[0]
    } else {
        before(left.drop_first(), right.drop_first())
    }
}

/// Whether `left` comes before `right`.
pub fn is_before(left: &str, right: &str) -> (yes: bool)
    ensures
        yes == before(left@, right@),
{
    let left_length = left.unicode_len();
    let right_length = right.unicode_len();
    let mut i: usize = 0;
    assert(left@.skip(0) =~= left@);
    assert(right@.skip(0) =~= right@);
    while i < left_length && i < right_length
        invariant
            i <= left_length,
            i <= right_length,
            left_length == left@.len(),
            right_length == right@.len(),
            before(left@, right@) == before(left@.skip(i as int), right@.skip(i as int)),
        decreases left_length - i,
    {
        let l = left.get_char(i);
        let r = right.get_char(i);
        if l != r {
            return l < r;
        }
        proof {
            assert(left@.skip(i as int).drop_first() =~= left@.skip(i + 1));
            assert(right@.skip(i as int).drop_first() =~= right@.skip(i + 1));
        }
        i = i + 1;
    }
    i < right_length
}

/// Of two different texts one comes before the other, and no text comes
/// before itself.
pub proof fn lemma_before_total(left: Seq<char>, right: Seq<char>)
    ensures
        before(left, right) || before(right, left) || left == right,
        !(before(left, right) && before(right, left)),
        !before(left, left),
    decreases left.len() + right.len(),
{
    if left.len() > 0 && right.len() > 0 && left[0] == right[0] {
        lemma_before_total(left.drop_first(), right.drop_first());
        if left.drop_first() == right.drop_first() {
            assert(left =~= seq![left[0]] + left.drop_first());
            assert(right =~= seq![right[0]] + right.drop_first());
        }
    } else if left.len() == 0 && right.len() == 0 {
        assert(left =~= right);
    }
    if left.len() > 0 && right.len() == 0 {
        lemma_before_total(left.drop_first(), right);
    } else if left.len() > 0 && left[0] != right[0] {
        lemma_before_total(left.drop_first(), right.drop_first());
    }
}

/// What comes before a text comes before all that the text comes before.
pub proof fn lemma_before_transitive(a: Seq<char>, b: Seq<char>, c: Seq<char>)
    requires
        before(a, b),
        before(b, c),
    ensures
        before(a, c),
    decreases a.len(),
{
    if a.len() > 0 && b[0] == c[0] && a[0] == b[0] {
        lemma_before_transitive(a.drop_first(), b.drop_first(), c.drop_first());
    }
}

/// Each text comes before the next.
pub open spec fn ascending(strings: Seq<String>) -> bool {
    forall|i: int, j: int|
        0 <= i < j < strings.len() ==> before(#[trigger] strings[i]@, #[trigger] strings[j]@)
}

/// Some string of the list has this text.
pub open spec fn lists(strings: Seq<String>, text: Seq<char>) -> bool {
    exists|i: int| 0 <= i < strings.len() && #[trigger] strings[i]@ == text
}

/// Puts a text where it belongs in an ascending list, unless the list has it.
pub fn insert_ascending(strings: &mut Vec<String>, text: &str)
    requires
        ascending(old(strings)@),
    ensures
        ascending(final(strings)@),
        forall|other: Seq<char>| #[trigger]
            lists(final(strings)@, other) <==> lists(old(strings)@, other) || other == text@,
{
    let ghost was = strings@;
    let mut place: usize = 0;
    while place < strings.len() && is_before(strings[place].as_str(), text)
        invariant
            strings@ == was,
            place <= was.len(),
            forall|i: int| 0 <= i < place ==> before(#[trigger] was[i]@, text@),
        decreases was.len() - place,
    {
        place = place + 1;
    }
    if place < strings.len() && same(strings[place].as_str(), text) {
        return ;
    }
    strings.insert(place, text.to_owned());
    proof {
        let now = strings@;
        let p = place as int;
        assert(now[p]@ == text@);
        assert forall|i: int| p <= i < was.len() implies before(text@, #[trigger] was[i]@) by {
            lemma_before_total(was[p]@, text@);
            if i > p {
                lemma_before_transitive(text@, was[p]@, was[i]@);
            }
        }
        assert forall|i: int, j: int| 0 <= i < j < now.len() implies before(
            #[trigger] now[i]@,
            #[trigger] now[j]@,
        ) by {
            let a = if i < p { i } else { i - 1 };
            let b = if j < p { j } else { j - 1 };
            if i != p {
                assert(now[i] == was[a]);
            }
            if j != p {
                assert(now[j] == was[b]);
            }
        }
        assert forall|other: Seq<char>| #[trigger] lists(now, other) <==> lists(was, other) || other
            == text@ by {
            if lists(was, other) {
                let i = choose|i: int| 0 <= i < was.len() && #[trigger] was[i]@ == other;
                let k = if i < p { i } else { i + 1 };
                assert(now[k] == was[i]);
            }
            if lists(now, other) {
                let i = choose|i: int| 0 <= i < now.len() && #[trigger] now[i]@ == other;
                if i != p {
                    let k = if i < p { i } else { i - 1 };
                    assert(now[i] == was[k]);
                }
            }
        }
    }
}

/// The texts in order with a separator between neighbours.
pub open spec fn joined(parts: Seq<Seq<char>>, separator: Seq<char>) -> Seq<char>
    decreases parts.len(),
{
    if parts.len() == 0 {
        Seq::empty()
    } else if parts.len() == 1 {
        parts[0]
    } else {
        joined(parts.drop_last(), separator) + separator + parts.last()
    }
}

/// Joins the strings with a separator between neighbours.
pub fn join(parts: &Vec<String>, separator: &str) -> (text: String)
    ensures
        text@ == joined(texts(parts@), separator@),
{
    let mut text = String::new();
    for i in 0..parts.len()
        invariant
            text@ == joined(texts(parts@.take(i as int)), separator@),
    {
        let ghost was = text@;
        if i > 0 {
            text.append(separator);
        }
        text.append(parts[i].as_str());
        proof {
            let now = texts(parts@.take(i + 1));
            assert(now.drop_last() =~= texts(parts@.take(i as int)));
            assert(now.last() == parts@[i as int]@);
            if i == 0 {
                assert(text@ =~= parts@[0]@);
            } else {
                assert(text@ =~= was + separator@ + parts@[i as int]@);
            }
        }
    }
    assert(parts@.take(parts@.len() as int) =~= parts@);
    text
}

/// The character of a digit.
pub open spec fn digit_char(digit: nat) -> char {
    if digit == 0 {
        '0'
    } else if digit == 1 {
        '1'
    } else if digit == 2 {
        '2'
    } else if digit == 3 {
        '3'
    } else if digit == 4 {
        '4'
    } else if digit == 5 {
        '5'
    } else if digit == 6 {
        '6'
    } else if digit == 7 {
        '7'
    } else if digit == 8 {
        '8'
    } else {
        '9'
    }
}

/// A number in decimal, without leading zeros.
pub open spec fn decimal(number: nat) -> Seq<char>
    decreases number,
{
    if number < 10 {
        seq![digit_char(number)]
    } else {
        decimal(number / 10).push(digit_char(number % 10))
    }
}

fn digit_text(digit: u128) -> (text: &'static str)
    requires
        digit < 10,
    ensures
        text@ == seq![digit_char(digit as nat)],
{
    proof {
        reveal_strlit("0");
        reveal_strlit("1");
        reveal_strlit("2");
        reveal_strlit("3");
        reveal_strlit("4");
        reveal_strlit("5");
        reveal_strlit("6");
        reveal_strlit("7");
        reveal_strlit("8");
        reveal_strlit("9");
    }
    let text = if digit == 0 {
        "0"
    } else if digit == 1 {
        "1"
    } else if digit == 2 {
        "2"
    } else if digit == 3 {
        "3"
    } else if digit == 4 {
        "4"
    } else if digit == 5 {
        "5"
    } else if digit == 6 {
        "6"
    } else if digit == 7 {
        "7"
    } else if digit == 8 {
        "8"
    } else {
        "9"
    };
    assert(text@ =~= seq![digit_char(digit as nat)]);
    text
}

/// Writes a number in decimal.
pub fn decimal_text(number: u128) -> (text: String)
    ensures
        text@ == decimal(number as nat),
    decreases number,
{
    if number < 10 {
        digit_text(number).to_owned()
    } else {
        let mut text = decimal_text(number / 10);
        text.append(digit_text(number % 10));
        assert(text@ =~= decimal(number as nat));
        text
    }
}

/// Different numbers are written differently.
pub proof fn lemma_decimal_injective(a: nat, b: nat)
    requires
        decimal(a) == decimal(b),
    ensures
        a == b,
    decreases a,
{
    assert(decimal(a).last() == digit_char(a % 10));
    assert(decimal(b).last() == digit_char(b % 10));
    assert(a % 10 == b % 10);
    lemma_decimal_not_empty(a / 10);
    lemma_decimal_not_empty(b / 10);
    if a >= 10 && b >= 10 {
        assert(decimal(a / 10) =~= decimal(a).drop_last());
        assert(decimal(b / 10) =~= decimal(b).drop_last());
        lemma_decimal_injective(a / 10, b / 10);
    }
}

/// A number takes at least one digit.
pub proof fn lemma_decimal_not_empty(number: nat)
    ensures
        decimal(number).len() > 0,
{
}

/// The part stands in the text from one place up to the other.
pub open spec fn stands_at(text: Seq<char>, part: Seq<char>, from: int, to: int) -> bool {
    &&& 0 <= from
    &&& from + part.len() == to
    &&& to <= text.len()
    &&& text.subrange(from, to) == part
}

/// The text is the parts, one behind the other in this order: each stands in the text
/// from its own place up to the place of the next.
pub open spec fn is_laid_out(text: Seq<char>, parts: Seq<Seq<char>>, places: Seq<int>) -> bool {
    &&& places.len() == parts.len() + 1
    &&& places[0] == 0
    &&& places[parts.len() as int] == text.len()
    &&& forall|k: int|
        0 <= k < parts.len() ==> stands_at(text, #[trigger] parts[k], places[k], places[k + 1])
}

/// The text is the parts, one behind the other in this order.
pub open spec fn consists_of(text: Seq<char>, parts: Seq<Seq<char>>) -> bool {
    exists|places: Seq<int>| is_laid_out(text, parts, places)
}

/// No parts make an empty text.
pub proof fn lemma_consists_of_nothing()
    ensures
        consists_of(Seq::empty(), Seq::empty()),
{
    assert(is_laid_out(Seq::empty(), Seq::empty(), seq![0int]));
}

/// A part behind the others.
pub proof fn lemma_consists_of_more(text: Seq<char>, parts: Seq<Seq<char>>, part: Seq<char>)
    requires
        consists_of(text, parts),
    ensures
        consists_of(text + part, parts.push(part)),
{
    let places = choose|places: Seq<int>| is_laid_out(text, parts, places);
    let all = text + part;
    let more = parts.push(part);
    let longer = places.push(all.len() as int);
    assert forall|k: int| 0 <= k < more.len() implies stands_at(
        all,
        #[trigger] more[k],
        longer[k],
        longer[k + 1],
    ) by {
        if k < parts.len() {
            assert(more[k] == parts[k]);
            assert(stands_at(text, parts[k], places[k], places[k + 1]));
            assert(all.subrange(longer[k], longer[k + 1]) =~= text.subrange(
                places[k],
                places[k + 1],
            ));
        } else {
            assert(all.subrange(longer[k], longer[k + 1]) =~= part);
        }
    }
    assert(is_laid_out(all, more, longer));
}

/// The texts, with the separator before each but the first.
pub open spec fn separated(parts: Seq<Seq<char>>, separator: Seq<char>) -> Seq<Seq<char>> {
    Seq::new(
        parts.len(),
        |k: int|
            if k == 0 {
                parts[k]
            } else {
                separator + parts[k]
            },
    )
}

/// Joined texts stand one behind the other in their order, with the separator before
/// each but the first.
pub proof fn lemma_joined_stand_in_order(parts: Seq<Seq<char>>, separator: Seq<char>)
    ensures
        consists_of(joined(parts, separator), separated(parts, separator)),
    decreases parts.len(),
{
    let pieces = separated(parts, separator);
    if parts.len() == 0 {
        lemma_consists_of_nothing();
        assert(pieces =~= Seq::empty());
    } else {
        let front = parts.drop_last();
        lemma_joined_stand_in_order(front, separator);
        let last = pieces[parts.len() - 1];
        assert(pieces =~= separated(front, separator).push(last));
        lemma_consists_of_more(joined(front, separator), separated(front, separator), last);
        if parts.len() == 1 {
            assert(joined(front, separator) =~= Seq::<char>::empty());
            assert(joined(front, separator) + last =~= parts[0]);
        } else {
            assert(last == separator + parts.last());
            assert(joined(front, separator) + last =~= joined(front, separator) + separator
                + parts.last());
        }
    }
}

/// The number that digits stand for, the last of them for ones.
pub open spec fn number_of(digits: Seq<char>) -> int
    decreases digits.len(),
{
    if digits.len() == 0 {
        0
    } else {
        10 * number_of(digits.drop_last()) + (digits.last() as int - '0' as int)
    }
}

/// A number in decimal is digits that stand for the number, and the first of them is no
/// zero unless it is alone.
pub proof fn lemma_decimal_reads_back(number: nat)
    ensures
        number_of(decimal(number)) == number,
        forall|i: int| 0 <= i < decimal(number).len() ==> '0' <= #[trigger] decimal(number)[i] <= '9',
        decimal(number).len() > 0,
        number > 0 ==> decimal(number)[0] != '0',
        number == 0 ==> decimal(number).len() == 1,
    decreases number,
{
    if number < 10 {
        let digits = decimal(number);
        assert(digits.drop_last() =~= Seq::<char>::empty());
        assert(digits.last() == digit_char(number));
        assert(number_of(digits.drop_last()) == 0);
    } else {
        let front = decimal(number / 10);
        let digits = decimal(number);
        lemma_decimal_reads_back(number / 10);
        assert(digits.drop_last() =~= front);
        assert(digits.last() == digit_char(number % 10));
        assert forall|i: int| 0 <= i < digits.len() implies '0' <= #[trigger] digits[i] <= '9' by {
            if i < front.len() {
                assert(digits[i] == front[i]);
            }
        }
    }
}

/// One text comes before another if and only if, where they first differ, it has the
/// smaller character or has ended.
pub proof fn lemma_before_is_decided_by_the_first_difference(
    left: Seq<char>,
    right: Seq<char>,
    at: int,
)
    requires
        0 <= at <= left.len(),
        at <= right.len(),
        forall|i: int| 0 <= i < at ==> left[i] == #[trigger] right[i],
        at < left.len() && at < right.len() ==> left[at] != right[at],
    ensures
        before(left, right) <==> at < right.len() && (at == left.len() || left[at] < right[at]),
    decreases at,
{
    if at > 0 {
        assert(left[0] == right[0]);
        let l = left.drop_first();
        let r = right.drop_first();
        assert forall|i: int| 0 <= i < at - 1 implies l[i] == #[trigger] r[i] by {
            assert(left[i + 1] == right[i + 1]);
        }
        lemma_before_is_decided_by_the_first_difference(l, r, at - 1);
    }
}

} // verus!
