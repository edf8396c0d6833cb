//! Text: decimal numbers and the UTF-8 reading of bytes.
use vstd::prelude::*;
use vstd::utf8::{decode_utf8, valid_utf8};

verus! {

/// The digit that stands for `value`, from 0 to 9.
pub open spec fn digit(value: int) -> char {
    if value == 0 {
        '0'
    } else if value == 1 {
        '1'
    } else if value == 2 {
        '2'
    } else if value == 3 {
        '3'
    } else if value == 4 {
        '4'
    } else if value == 5 {
        '5'
    } else if value == 6 {
        '6'
    } else if value == 7 {
        '7'
    } else if value == 8 {
        '8'
    } else {
        '9'
    }
}

/// `value` in decimal, without leading zeros.
pub open spec fn decimal(value: nat) -> Seq<char>
    decreases value,
{
    if value < 10 {
        seq![digit(value as int)]
    } else {
        decimal(value / 10).push(digit((value % 10) as int))
    }
}

/// The number that a text of digits stands for in base ten, each digit taken by
/// its distance from `0`.
pub open spec fn number(text: Seq<char>) -> int
    decreases text.len(),
{
    if text.len() == 0 {
        0
    } else {
        10 * number(text.drop_last()) + (text.last() as int - '0' as int)
    }
}

/// Whether a text is a decimal numeral: digits and nothing else, at least one of
/// them, and no leading zero but for the number zero itself.
pub open spec fn is_numeral(text: Seq<char>) -> bool {
    &&& text.len() > 0
    &&& forall|i: int| 0 <= i < text.len() ==> '0' as int <= #[trigger] text[i] as int <= '9' as int
    &&& text.len() > 1 ==> text[0] != '0'
}

/// The contents of a list of strings.
pub open spec fn all_chars(list: Seq<String>) -> Seq<Seq<char>> {
    Seq::new(list.len(), |i: int| list[i]@)
}

/// What `String::from_utf8_lossy` makes of a byte string.
pub uninterp spec fn lossy(bytes: Seq<u8>) -> Seq<char>;

/// How a byte string is shown: valid UTF-8 as it stands, anything else with
/// replacement characters.
pub open spec fn shown(bytes: Seq<u8>) -> Seq<char> {
    if valid_utf8(bytes) {
        decode_utf8(bytes)
    } else {
        lossy(bytes)
    }
}

/// A digit as text.
fn digit_text(value: u16) -> (text: &'static str)
    requires
        value < 10,
    ensures
        text@ == seq![digit(value as int)],
        text@.len() == 1,
        text@[0] as int == '0' as int + value,
{
    proof {
        reveal_strlit("0");
        reveal_strlit("1");
        reveal_strlit("2");
        reveal_strlit("3");
        reveal_strlit("4");
        reveal_strlit("5");
        reveal_strlit("6");
        reveal_strlit("7");
        reveal_strlit("8");
        reveal_strlit("9");
    }
    let text: &'static str = if value == 0 {
        "0"
    } else if value == 1 {
        "1"
    } else if value == 2 {
        "2"
    } else if value == 3 {
        "3"
    } else if value == 4 {
        "4"
    } else if value == 5 {
        "5"
    } else if value == 6 {
        "6"
    } else if value == 7 {
        "7"
    } else if value == 8 {
        "8"
    } else {
        "9"
    };
    assert(text@ =~= seq![digit(value as int)]);
    text
}

/// Writes a number in decimal.
pub fn to_decimal(value: u16) -> (text: String)
    ensures
        text@ == decimal(value as nat),
        is_numeral(text@),
        number(text@) == value,
    decreases value,
{
    let mut text: String = if value < 10 {
        String::new()
    } else {
        to_decimal(value / 10)
    };
    text.append(digit_text(value % 10));
    assert(text@ =~= decimal(value as nat));
    proof {
        law_decimal_is_the_numeral(value as nat);
    }
    text
}

/// An owned copy of a list of strings.
pub fn copy_list(list: &[String]) -> (copy: Vec<String>)
    ensures
        all_chars(copy@) == all_chars(list@),
        copy@.len() == list@.len(),
        forall|i: int| 0 <= i < list@.len() ==> #[trigger] copy@[i]@ == list@[i]@,
{
    let mut copy: Vec<String> = Vec::new();
    append_list(&mut copy, list);
    assert(all_chars(copy@) =~= all_chars(list@));
    proof {
        law_all_chars(copy@);
        law_all_chars(list@);
        assert forall|i: int| 0 <= i < list@.len() implies #[trigger] copy@[i]@ == list@[i]@ by {
            assert(all_chars(copy@)[i] == all_chars(list@)[i]);
        }
    }
    copy
}

/// Appends a copy of each string of `more` to `list`.
pub fn append_list(list: &mut Vec<String>, more: &[String])
    ensures
        all_chars(final(list)@) == all_chars(old(list)@) + all_chars(more@),
{
    let ghost before = all_chars(list@);
    let mut i: usize = 0;
    assert(all_chars(list@) =~= before + all_chars(more@.take(0)));
    while i < more.len()
        invariant
            i <= more@.len(),
            all_chars(list@) == before + all_chars(more@.take(i as int)),
        decreases more@.len() - i,
    {
        let ghost here = list@;
        list.push(more[i].clone());
        i += 1;
        assert(all_chars(list@) =~= all_chars(here).push(more@[i - 1]@));
        assert(all_chars(more@.take(i as int)) =~= all_chars(more@.take(i - 1)).push(more@[i - 1]@));
        assert(all_chars(list@) =~= before + all_chars(more@.take(i as int)));
    }
    assert(more@.take(i as int) =~= more@);
}

/// A number in decimal is a numeral, and reading that numeral in base ten gives the
/// number back.
pub proof fn law_decimal_is_the_numeral(value: nat)
    ensures
        is_numeral(decimal(value)),
        number(decimal(value)) == value,
        value > 0 ==> decimal(value)[0] != '0',
    decreases value,
{
    reveal_with_fuel(number, 2);
    let text = decimal(value);
    if value < 10 {
        assert(text.drop_last() =~= Seq::<char>::empty());
    } else {
        law_decimal_is_the_numeral(value / 10);
        let front = decimal(value / 10);
        assert(text.drop_last() =~= front);
        assert(text[0] == front[0]);
        assert forall|i: int| 0 <= i < text.len() implies '0' as int <= #[trigger] text[i] as int
            <= '9' as int by {
            if i < front.len() {
                assert(text[i] == front[i]);
            }
        }
    }
}

proof fn lemma_number_of_numeral(text: Seq<char>)
    requires
        is_numeral(text),
    ensures
        text[0] != '0' ==> number(text) > 0,
        number(text) >= 0,
        text.len() == 1 ==> number(text) < 10,
        text.len() > 1 ==> number(text) >= 10,
    decreases text.len(),
{
    reveal_with_fuel(number, 2);
    let front = text.drop_last();
    assert('0' as int <= text[text.len() - 1] as int <= '9' as int);
    if text.len() > 1 {
        assert forall|i: int| 0 <= i < front.len() implies '0' as int <= #[trigger] front[i] as int
            <= '9' as int by {
            assert(front[i] == text[i]);
        }
        assert(front[0] == text[0]);
        lemma_number_of_numeral(front);
    }
}

/// There is one numeral for each number: two numerals that stand for the same
/// number are the same text.
pub proof fn law_numeral_is_unique(left: Seq<char>, right: Seq<char>)
    requires
        is_numeral(left),
        is_numeral(right),
        number(left) == number(right),
    ensures
        left == right,
    decreases left.len(),
{
    reveal_with_fuel(number, 2);
    lemma_number_of_numeral(left);
    lemma_number_of_numeral(right);
    let a = left.drop_last();
    let b = right.drop_last();
    assert('0' as int <= left[left.len() - 1] as int <= '9' as int);
    assert('0' as int <= right[right.len() - 1] as int <= '9' as int);
    assert(left.len() == 1 <==> right.len() == 1);
    if left.len() > 1 {
        assert forall|i: int| 0 <= i < a.len() implies '0' as int <= #[trigger] a[i] as int <= '9' as int by {
            assert(a[i] == left[i]);
        }
        assert forall|i: int| 0 <= i < b.len() implies '0' as int <= #[trigger] b[i] as int <= '9' as int by {
            assert(b[i] == right[i]);
        }
        assert(a[0] == left[0] && b[0] == right[0]);
        assert(number(a) == number(b) && left.last() == right.last());
        law_numeral_is_unique(a, b);
    } else {
        assert(a =~= b);
    }
    assert(left =~= a.push(left.last()));
    assert(right =~= b.push(right.last()));
}

/// The contents of a list of strings are those of each of its strings, in order.
pub proof fn law_all_chars(list: Seq<String>)
    ensures
        all_chars(list).len() == list.len(),
        forall|i: int| 0 <= i < list.len() ==> #[trigger] all_chars(list)[i] == list[i]@,
{
}

/// Valid UTF-8 is shown as the characters that it encodes; of anything else, what
/// is shown is what the lossy reading makes of it.
pub proof fn law_shown(bytes: Seq<u8>)
    ensures
        valid_utf8(bytes) ==> shown(bytes) == decode_utf8(bytes),
        !valid_utf8(bytes) ==> shown(bytes) == lossy(bytes),
{
}

/// `std::str::from_utf8`: reads bytes as UTF-8. It yields the text exactly where
/// the bytes are valid UTF-8, and then the characters that they encode.
#[verifier::external_body]
pub(crate) fn read_utf8(bytes: &[u8]) -> (text: Option<String>)
    ensures
        text is Some <==> valid_utf8(bytes@),
        text matches Some(text) ==> text@ == decode_utf8(bytes@),
{
    match std::str::from_utf8(bytes) {
        Ok(text) => Some(text.to_owned()),
        Err(_) => None,
    }
}

/// `String::from_utf8_lossy`: reads bytes as UTF-8, with a replacement character
/// for what is not. The result is a function of the bytes, and valid UTF-8 is
/// read as it stands.
#[verifier::external_body]
pub(crate) fn read_lossy(bytes: &[u8]) -> (text: String)
    ensures
        text@ == lossy(bytes@),
        valid_utf8(bytes@) ==> text@ == decode_utf8(bytes@),
{
    String::from_utf8_lossy(bytes).into_owned()
}

} // verus!
