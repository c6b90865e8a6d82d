//! Text of error messages: decimal numbers and substring search.
use vstd::prelude::*;
use vstd::string::*;

verus! {

/// The decimal digit of a number below ten.
pub open spec fn digit(n: nat) -> char {
    (n + 48) as char
}

/// The decimal digits of a number.
pub open spec fn decimal(n: nat) -> Seq<char>
    decreases n,
{
    if n < 10 {
        seq![digit(n)]
    } else {
        decimal(n / 10).push(digit(n % 10))
    }
}

/// The decimal digits of a number, behind a minus sign where it is negative.
pub open spec fn signed_decimal(n: int) -> Seq<char> {
    if n < 0 {
        seq!['-'] + decimal((-n) as nat)
    } else {
        decimal(n as nat)
    }
}

fn digit_text(n: u64) -> (r: &'static str)
    requires
        n < 10,
    ensures
        r@ == seq![digit(n as nat)],
{
    proof {
        reveal_strlit("0");
        reveal_strlit("1");
        reveal_strlit("2");
        reveal_strlit("3");
        reveal_strlit("4");
        reveal_strlit("5");
        reveal_strlit("6");
        reveal_strlit("7");
        reveal_strlit("8");
        reveal_strlit("9");
    }
    let r: &'static str = if n == 0 {
        "0"
    } else if n == 1 {
        "1"
    } else if n == 2 {
        "2"
    } else if n == 3 {
        "3"
    } else if n == 4 {
        "4"
    } else if n == 5 {
        "5"
    } else if n == 6 {
        "6"
    } else if n == 7 {
        "7"
    } else if n == 8 {
        "8"
    } else {
        "9"
    };
    proof {
        assert(r@ =~= seq![digit(n as nat)]);
    }
    r
}

/// Appends a number in decimal.
pub fn push_decimal(text: &mut String, n: u64)
    ensures
        final(text)@ == old(text)@ + decimal(n as nat),
    decreases n,
{
    if n >= 10 {
        push_decimal(text, n / 10);
    }
    text.append(digit_text(n % 10));
    proof {
        assert(text@ =~= old(text)@ + decimal(n as nat));
    }
}

/// Appends a number in decimal, with its sign where it is negative.
pub fn push_signed_decimal(text: &mut String, n: i32)
    ensures
        final(text)@ == old(text)@ + signed_decimal(n as int),
{
    if n < 0 {
        proof {
            reveal_strlit("-");
        }
        text.append("-");
        push_decimal(text, (-(n as i64)) as u64);
        proof {
            assert(text@ =~= old(text)@ + signed_decimal(n as int));
        }
    } else {
        push_decimal(text, n as u64);
    }
}

/// One text behind another.
pub fn joined(head: &str, tail: &str) -> (r: String)
    ensures
        r@ == head@ + tail@,
{
    let mut r: String = head.to_owned();
    r.append(tail);
    r
}

/// `needle` stands in `text` at position `at`.
pub open spec fn stands_at(text: Seq<char>, needle: Seq<char>, at: int) -> bool {
    &&& 0 <= at
    &&& at + needle.len() <= text.len()
    &&& text.subrange(at, at + needle.len()) == needle
}

/// `needle` stands somewhere in `text`.
pub open spec fn contains_text(text: Seq<char>, needle: Seq<char>) -> bool {
    exists|at: int| stands_at(text, needle, at)
}

/// The characters of a text.
pub fn chars_of(text: &str) -> (r: Vec<char>)
    ensures
        r@ == text@,
{
    let mut r: Vec<char> = Vec::new();
    for c in it: text.chars()
        invariant
            r@ =~= text@.take(it.index() as int),
            it.seq() == text@,
    {
        r.push(c);
    }
    r
}

/// Whether `needle` stands in `text`.
pub fn contains(text: &str, needle: &str) -> (r: bool)
    ensures
        r == contains_text(text@, needle@),
{
    let t: Vec<char> = chars_of(text);
    let n: Vec<char> = chars_of(needle);
    let len: usize = t.len();
    let mut at: usize = 0;
    while at <= len && n.len() <= len - at
        invariant
            len == t@.len(),
            at <= len + 1,
            t@ == text@,
            n@ == needle@,
            forall|k: int| 0 <= k < at ==> !stands_at(text@, needle@, k),
        decreases len + 1 - at,
    {
        let mut i: usize = 0;
        while i < n.len() && t[at + i] == n[i]
            invariant
                i <= n@.len(),
                len == t@.len(),
                at + n@.len() <= len,
                forall|k: int| 0 <= k < i ==> t@[at + k] == n@[k],
            decreases n@.len() - i,
        {
            i = i + 1;
        }
        if i == n.len() {
            proof {
                assert(text@.subrange(at as int, at + n@.len()) =~= needle@);
                assert(stands_at(text@, needle@, at as int));
            }
            return true;
        }
        proof {
            assert(text@.subrange(at as int, at + n@.len())[i as int] == t@[at + i]);
            assert(!stands_at(text@, needle@, at as int));
        }
        at = at + 1;
    }
    false
}

/// Decimal text, digit by digit: the last digit is the number modulo ten,
/// and in front of it stands the rest of the number, if there is any; a
/// negative number has a minus sign in front.
pub proof fn law_decimal_digit_by_digit(n: nat, m: int)
    ensures
        n < 10 ==> decimal(n) == seq!["0123456789"@[n as int]],
        n >= 10 ==> decimal(n) == decimal(n / 10).push("0123456789"@[n as int % 10]),
        m >= 0 ==> signed_decimal(m) == decimal(m as nat),
        m < 0 ==> signed_decimal(m) == seq!['-'] + decimal((-m) as nat),
{
    reveal_strlit("0123456789");
}

/// `joined` puts one text behind the other, and `contains` finds a text that
/// stands, character by character, anywhere in another, and no other.
pub proof fn law_texts_are_joined_and_found(
    head: &str,
    tail: &str,
    both: String,
    text: &str,
    needle: &str,
    found: bool,
    at: int,
)
    requires
        call_ensures(joined, (head, tail), both),
        call_ensures(contains, (text, needle), found),
    ensures
        both@ == head@ + tail@,
        0 <= at && at + needle@.len() <= text@.len() && (forall|i: int|
            0 <= i < needle@.len() ==> text@[at + i] == #[trigger] needle@[i]) ==> found,
        found ==> exists|k: int|
            {
                &&& 0 <= k
                &&& k + needle@.len() <= text@.len()
                &&& #[trigger] text@.subrange(k, k + needle@.len()) == needle@
            },
{
    if 0 <= at && at + needle@.len() <= text@.len() && (forall|i: int|
        0 <= i < needle@.len() ==> text@[at + i] == #[trigger] needle@[i]) {
        assert(text@.subrange(at, at + needle@.len()) =~= needle@);
        assert(stands_at(text@, needle@, at));
    }
    if found {
        let k = choose|k: int| stands_at(text@, needle@, k);
        assert(text@.subrange(k, k + needle@.len()) == needle@);
    }
}

/// Numbers are appended as `law_decimal_digit_by_digit` has them, behind what
/// the text held.
pub proof fn law_numbers_are_appended(text: &mut String, n: u64, signed: &mut String, m: i32)
    requires
        call_ensures(push_decimal, (text, n), ()),
        call_ensures(push_signed_decimal, (signed, m), ()),
    ensures
        final(text)@ == old(text)@ + decimal(n as nat),
        final(signed)@ == old(signed)@ + signed_decimal(m as int),
{
}

} // verus!
