//! Text helpers: UTF-8 decoding, ASCII case folding, sets of names and decimal
//! numbers.
use crate::bytes::bytes_equal;
use vstd::prelude::*;
use vstd::utf8::{decode_utf8, encode_utf8, valid_utf8};

verus! {

/// The error of `core::str::from_utf8`; opaque.
#[verifier::external_type_specification]
#[verifier::external_body]
pub struct ExUtf8Error(core::str::Utf8Error);

/// `core::str::from_utf8` succeeds exactly on valid UTF-8, and then the text it
/// returns is the one that the bytes encode.
pub assume_specification[ core::str::from_utf8 ](v: &[u8]) -> (res: Result<
    &str,
    core::str::Utf8Error,
>)
    ensures
        res is Ok <==> valid_utf8(v@),
        res matches Ok(s) ==> encode_utf8(s@) == v@,
;

/// `c` with the letters `A` to `Z` folded to `a` to `z`.
pub open spec fn lower_char(c: char) -> char {
    if 'A' <= c && c <= 'Z' {
        (c as u32 + 32) as char
    } else {
        c
    }
}

/// `text` with its ASCII letters in lower case.
pub open spec fn lower(text: Seq<char>) -> Seq<char> {
    text.map_values(|c: char| lower_char(c))
}

/// Text in lower case stays as it is.
pub proof fn law_lower_idempotent(text: Seq<char>)
    ensures
        lower(lower(text)) == lower(text),
{
    assert forall|i: int| 0 <= i < text.len() implies lower_char(lower_char(text[i]))
        == lower_char(text[i]) by {
        let c = text[i];
        if 'A' <= c && c <= 'Z' {
            assert(lower_char(c) as u32 == c as u32 + 32);
        }
    }
    assert(lower(lower(text)) =~= lower(text));
}

/// Whether two characters are the same, or the two forms of an ASCII letter.
pub open spec fn same_letter(a: char, b: char) -> bool {
    ||| a == b
    ||| 'A' <= a && a <= 'Z' && b as int == a as int + 32
    ||| 'A' <= b && b <= 'Z' && a as int == b as int + 32
}

/// Two texts have the same lower case exactly where they differ in nothing but
/// the case of ASCII letters, and folding changes nothing but that case.
pub proof fn law_lower_ignores_case(a: Seq<char>, b: Seq<char>)
    ensures
        lower(a) == lower(b) <==> a.len() == b.len() && forall|i: int|
            0 <= i < a.len() ==> same_letter(#[trigger] a[i], b[i]),
        lower(a).len() == a.len(),
        forall|i: int|
            0 <= i < a.len() ==> same_letter(a[i], #[trigger] lower(a)[i]) && !('A' <= lower(a)[i]
                && lower(a)[i] <= 'Z'),
{
    assert forall|i: int| 0 <= i < a.len() implies same_letter(a[i], #[trigger] lower(a)[i]) && !(
    'A' <= lower(a)[i] && lower(a)[i] <= 'Z') by {
        assert(lower(a)[i] == lower_char(a[i]));
    }
    if lower(a) == lower(b) {
        assert(lower(a).len() == lower(b).len());
        assert forall|i: int| 0 <= i < a.len() implies same_letter(#[trigger] a[i], b[i]) by {
            assert(lower(a)[i] == lower_char(a[i]));
            assert(lower(b)[i] == lower_char(b[i]));
        }
    }
    if a.len() == b.len() && forall|i: int| 0 <= i < a.len() ==> same_letter(#[trigger] a[i], b[i]) {
        assert forall|i: int| 0 <= i < a.len() implies #[trigger] lower(a)[i] == lower(b)[i] by {
            assert(same_letter(a[i], b[i]));
            assert(lower(a)[i] == lower_char(a[i]));
            assert(lower(b)[i] == lower_char(b[i]));
        }
        assert(lower(a) =~= lower(b));
    }
}

/// Folding to lower case keeps the length in bytes.
pub proof fn law_lower_keeps_bytes(text: Seq<char>)
    ensures
        encode_utf8(lower(text)).len() == encode_utf8(text).len(),
    decreases text.len(),
{
    if text.len() > 0 {
        assert(lower(text).drop_first() =~= lower(text.drop_first()));
        assert(lower(text)[0] == lower_char(text[0]));
        law_lower_keeps_bytes(text.drop_first());
    }
}

/// `str::to_ascii_lowercase` maps the letters `A` to `Z` to `a` to `z` and
/// leaves every other character as it is.
pub assume_specification[ str::to_ascii_lowercase ](s: &str) -> (res: String)
    ensures
        res@ == lower(s@),
;

/// Decodes UTF-8; `None` where the bytes are not valid.
pub fn decode(bytes: &[u8]) -> (text: Option<&str>)
    ensures
        text is Some <==> valid_utf8(bytes@),
        text matches Some(s) ==> s@ == decode_utf8(bytes@),
{
    broadcast use vstd::utf8::encode_utf8_decode_utf8;

    match core::str::from_utf8(bytes) {
        Ok(s) => Some(s),
        Err(_) => None,
    }
}

/// Whether two texts are the same.
pub fn same_text(a: &str, b: &str) -> (same: bool)
    ensures
        same == (a@ == b@),
{
    proof {
        vstd::utf8::encode_utf8_decode_utf8(a@);
        vstd::utf8::encode_utf8_decode_utf8(b@);
    }
    bytes_equal(a.as_bytes(), b.as_bytes())
}

/// The texts in a list of strings, in order.
pub open spec fn texts(names: Seq<String>) -> Seq<Seq<char>> {
    names.map_values(|name: String| name@)
}

/// Whether `names` holds `name`.
pub fn contains_name(names: &Vec<String>, name: &str) -> (found: bool)
    ensures
        found == texts(names@).contains(name@),
{
    let mut i: usize = 0;
    while i < names.len()
        invariant
            i <= names@.len(),
            forall|j: int| 0 <= j < i ==> names@[j]@ != name@,
        decreases names@.len() - i,
    {
        if same_text(names[i].as_str(), name) {
            assert(texts(names@)[i as int] == name@);
            return true;
        }
        i += 1;
    }
    assert forall|j: int| 0 <= j < texts(names@).len() implies texts(names@)[j] != name@ by {
        assert(texts(names@)[j] == names@[j]@);
    }
    false
}

/// Adds `name` to `names` unless it is there already.
pub fn insert_name(names: &mut Vec<String>, name: String)
    requires
        texts(old(names)@).no_duplicates(),
    ensures
        texts(final(names)@).no_duplicates(),
        texts(final(names)@).to_set() == texts(old(names)@).to_set().insert(name@),
{
    let ghost before = texts(names@);
    if contains_name(names, name.as_str()) {
        assert(before.to_set() =~= before.to_set().insert(name@));
        return;
    }
    let ghost text = name@;
    names.push(name);
    let ghost after = texts(names@);
    assert(after =~= before.push(text));
    assert forall|x: Seq<char>|
        after.to_set().contains(x) == before.to_set().insert(text).contains(x) by {
        if before.contains(x) {
            let k = before.index_of(x);
            assert(after[k] == x);
        }
        if x == text {
            assert(after[before.len() as int] == x);
        }
    }
    assert(after.to_set() =~= before.to_set().insert(text));
}

/// The decimal digit of a number below ten.
pub open spec fn digit_char(digit: int) -> char {
    (48 + digit) as char
}

/// A number in decimal notation, without leading zeros.
pub open spec fn decimal_text(n: int) -> Seq<char>
    decreases n,
{
    if n < 10 {
        seq![digit_char(n)]
    } else {
        decimal_text(n / 10).push(digit_char(n % 10))
    }
}

/// The number that decimal digits stand for.
pub open spec fn digits_value(digits: Seq<char>) -> int
    decreases digits.len(),
{
    if digits.len() == 0 {
        0
    } else {
        10 * digits_value(digits.drop_last()) + (digits.last() as int - 48)
    }
}

/// Whether a text is the number `n`: digits only, at least one, and no zero in
/// front of others.
pub open spec fn is_number(text: Seq<char>, n: int) -> bool {
    &&& text.len() > 0
    &&& forall|i: int| 0 <= i < text.len() ==> '0' <= #[trigger] text[i] && text[i] <= '9'
    &&& text[0] == '0' ==> text.len() == 1
    &&& digits_value(text) == n
}

/// Every number is read back from its decimal notation.
pub proof fn law_decimal_round_trip(n: int)
    requires
        0 <= n,
    ensures
        is_number(decimal_text(n), n),
    decreases n,
{
    let text = decimal_text(n);
    if n < 10 {
        assert(text.drop_last() =~= Seq::empty());
        assert(digits_value(text.drop_last()) == 0);
        assert(text.last() as int == 48 + n);
        assert(digits_value(text) == n);
    } else {
        let front = decimal_text(n / 10);
        law_decimal_round_trip(n / 10);
        assert(text.drop_last() =~= front);
        assert(text.last() as int == 48 + n % 10);
        assert(digits_value(text) == 10 * digits_value(front) + n % 10);
        assert forall|i: int| 0 <= i < text.len() implies '0' <= #[trigger] text[i] && text[i]
            <= '9' by {
            if i < front.len() {
                assert(text[i] == front[i]);
            }
        }
        assert(text[0] == front[0]);
        if front[0] == '0' {
            assert(front.drop_last() =~= Seq::empty());
            assert(digits_value(front.drop_last()) == 0);
            assert(digits_value(front) == 0);
        }
    }
}

/// The decimal digit of a number below ten.
fn digit(n: u16) -> (text: &'static str)
    requires
        n < 10,
    ensures
        text@ == seq![digit_char(n as int)],
{
    proof {
        reveal_strlit("0");
        reveal_strlit("1");
        reveal_strlit("2");
        reveal_strlit("3");
        reveal_strlit("4");
        reveal_strlit("5");
        reveal_strlit("6");
        reveal_strlit("7");
        reveal_strlit("8");
        reveal_strlit("9");
    }
    match n {
        0 => "0",
        1 => "1",
        2 => "2",
        3 => "3",
        4 => "4",
        5 => "5",
        6 => "6",
        7 => "7",
        8 => "8",
        _ => "9",
    }
}

/// Writes a number in decimal notation.
pub fn decimal(n: u16) -> (text: String)
    ensures
        text@ == decimal_text(n as int),
        is_number(text@, n as int),
    decreases n,
{
    proof {
        law_decimal_round_trip(n as int);
    }
    if n < 10 {
        digit(n).to_owned()
    } else {
        let mut text: String = decimal(n / 10);
        text.append(digit(n % 10));
        assert(text@ =~= decimal_text(n as int));
        text
    }
}

} // verus!
