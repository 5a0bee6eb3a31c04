use vstd::prelude::*;

verus! {

/// The character of a decimal digit.
pub open spec fn digit_char(d: nat) -> char {
    if d == 0 { '0' } else if d == 1 { '1' } else if d == 2 { '2' } else if d == 3 { '3' }
    else if d == 4 { '4' } else if d == 5 { '5' } else if d == 6 { '6' } else if d == 7 { '7' }
    else if d == 8 { '8' } else { '9' }
}

/// The canonical decimal writing of `n`: no sign, no leading zero.
pub open spec fn decimal(n: nat) -> Seq<char>
    decreases n,
{
    if n < 10 {
        seq![digit_char(n)]
    } else {
        decimal(n / 10).push(digit_char(n % 10))
    }
}

/// The characters that JSON counts as white space.
pub open spec fn is_json_space(c: char) -> bool {
    c == ' ' || c == '\n' || c == '\t' || c == '\r'
}

pub open spec fn all_json_space(s: Seq<char>) -> bool {
    forall|i: int| 0 <= i < s.len() ==> is_json_space(#[trigger] s[i])
}

/// `s` is the JSON text of the unsigned integer `n`: its canonical decimal
/// writing, with white space on either side.
pub open spec fn is_json_uint_text(s: Seq<char>, n: u64) -> bool {
    exists|i: int, j: int|
        0 <= i <= j <= s.len() && all_json_space(#[trigger] s.subrange(0, i)) && s.subrange(i, j)
            == decimal(n as nat) && all_json_space(#[trigger] s.subrange(j, s.len() as int))
}

/// Relies on `ToString` for `u64` (its `Display`): the decimal digits of the
/// value, with no sign and no leading zero.
#[verifier::external_body]
fn u64_to_string(n: u64) -> (r: String)
    ensures
        r@ == decimal(n as nat),
{
    n.to_string()
}

/// Relies on `serde_json::from_str::<u64>`: it accepts exactly a JSON
/// integer without sign, fraction or exponent that fits in a `u64`, with
/// JSON white space around it.
#[verifier::external_body]
fn json_to_u64(s: &str) -> (r: Option<u64>)
    ensures
        forall|n: u64| #[trigger] is_json_uint_text(s@, n) ==> r == Some(n),
        r matches Some(n) ==> is_json_uint_text(s@, n),
{
    serde_json::from_str::<u64>(s).ok()
}

/// The text under which a tag is stored in an anchor.
pub fn tag_text(tag: u64) -> (r: String)
    ensures
        r@ == decimal_text(tag),
{
    u64_to_string(tag)
}

/// The decimal writing of a tag.
pub open spec fn decimal_text(tag: u64) -> Seq<char> {
    decimal(tag as nat)
}

/// Reads a tag back from an anchor's text; `None` where the text is not a
/// tag.
pub fn parse_tag(s: &str) -> (r: Option<u64>)
    ensures
        forall|n: u64| #[trigger] is_json_uint_text(s@, n) ==> r == Some(n),
        r matches Some(n) ==> is_json_uint_text(s@, n),
{
    json_to_u64(s)
}

/// The canonical text of a tag is read back as that tag.
pub proof fn lemma_tag_text_round_trip(tag: u64)
    ensures
        is_json_uint_text(decimal_text(tag), tag),
{
    let s = decimal_text(tag);
    assert(s.subrange(0, 0) =~= Seq::<char>::empty());
    assert(s.subrange(0, s.len() as int) =~= s);
    assert(s.subrange(s.len() as int, s.len() as int) =~= Seq::<char>::empty());
    assert(all_json_space(s.subrange(0, 0)));
    assert(all_json_space(s.subrange(s.len() as int, s.len() as int)));
}

pub open spec fn is_digit(c: char) -> bool {
    '0' <= c <= '9'
}

/// A decimal writing is a non-empty run of digits.
pub proof fn lemma_decimal_digits(n: nat)
    ensures
        decimal(n).len() >= 1,
        forall|i: int| 0 <= i < decimal(n).len() ==> is_digit(#[trigger] decimal(n)[i]),
    decreases n,
{
    if n >= 10 {
        lemma_decimal_digits(n / 10);
        assert forall|i: int| 0 <= i < decimal(n).len() implies is_digit(#[trigger] decimal(n)[i]) by {
            if i < decimal(n / 10).len() {
                assert(decimal(n)[i] == decimal(n / 10)[i]);
            }
        }
    }
}

/// Two numbers with one decimal writing are equal.
pub proof fn lemma_decimal_injective(a: nat, b: nat)
    requires
        decimal(a) == decimal(b),
    ensures
        a == b,
    decreases a + b,
{
    lemma_decimal_digits(a / 10);
    lemma_decimal_digits(b / 10);
    if a < 10 && b < 10 {
        assert(decimal(a) == seq![digit_char(a)]);
        assert(decimal(b) == seq![digit_char(b)]);
        assert(seq![digit_char(a)][0] == digit_char(a));
        assert(seq![digit_char(b)][0] == digit_char(b));
        assert(decimal(a)[0] == decimal(b)[0]);
    } else if a < 10 {
        assert(decimal(b) == decimal(b / 10).push(digit_char(b % 10)));
        assert(decimal(b).len() >= 2);
    } else if b < 10 {
        assert(decimal(a) == decimal(a / 10).push(digit_char(a % 10)));
        assert(decimal(a).len() >= 2);
    } else {
        assert(decimal(a) == decimal(a / 10).push(digit_char(a % 10)));
        assert(decimal(b) == decimal(b / 10).push(digit_char(b % 10)));
        let la = decimal(a).len() - 1;
        assert(decimal(a)[la] == digit_char(a % 10));
        assert(decimal(b)[la] == digit_char(b % 10));
        assert(decimal(a / 10) =~= decimal(a).subrange(0, la));
        assert(decimal(b / 10) =~= decimal(b).subrange(0, la));
        lemma_decimal_injective(a / 10, b / 10);
        assert(digit_char(a % 10) == digit_char(b % 10));
        assert(a % 10 == b % 10);
        assert(a == 10 * (a / 10) + a % 10) by (nonlinear_arith);
        assert(b == 10 * (b / 10) + b % 10) by (nonlinear_arith);
    }
}

/// The canonical text of a tag reads as that tag only.
pub proof fn lemma_tag_text_unique(tag: u64, n: u64)
    requires
        is_json_uint_text(decimal_text(tag), n),
    ensures
        n == tag,
{
    let s = decimal_text(tag);
    lemma_decimal_digits(tag as nat);
    let (i, j) = choose|i: int, j: int|
        0 <= i <= j <= s.len() && all_json_space(#[trigger] s.subrange(0, i)) && s.subrange(i, j) == decimal(n as nat)
            && all_json_space(#[trigger] s.subrange(j, s.len() as int));
    if i > 0 {
        assert(s.subrange(0, i)[0] == s[0]);
        assert(is_digit(s[0]));
    }
    if j < s.len() {
        assert(s.subrange(j, s.len() as int)[0] == s[j]);
        assert(is_digit(s[j]));
    }
    assert(s.subrange(0, s.len() as int) =~= s);
    lemma_decimal_injective(tag as nat, n as nat);
}

} // verus!
