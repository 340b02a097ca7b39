//! Numbers and lists of numbers as text.

use vstd::prelude::*;
use vstd::string::*;

verus! {

/// The character of a hexadecimal digit.
pub open spec fn digit_char(d: int) -> char {
    if d < 10 {
        (48 + d) as char
    } else {
        (87 + d) as char
    }
}

/// A number in decimal, without leading zeros.
pub open spec fn decimal_text(n: int) -> Seq<char>
    decreases n,
{
    if n < 10 {
        seq![digit_char(n)]
    } else {
        decimal_text(n / 10).push(digit_char(n % 10))
    }
}

/// A byte as two hexadecimal digits.
pub open spec fn hex_text(b: int) -> Seq<char> {
    seq![digit_char(b / 16), digit_char(b % 16)]
}

/// The numbers in decimal, with a comma and a blank between them.
pub open spec fn joined_text(items: Seq<usize>) -> Seq<char>
    decreases items.len(),
{
    if items.len() == 0 {
        ""@
    } else if items.len() == 1 {
        decimal_text(items[0] as int)
    } else {
        joined_text(items.drop_last()) + ", "@ + decimal_text(items.last() as int)
    }
}

/// A list of numbers in square brackets.
pub open spec fn list_text(items: Seq<usize>) -> Seq<char> {
    "["@ + joined_text(items) + "]"@
}

fn digit(d: usize) -> (r: String)
    requires
        d < 16,
    ensures
        r@ == seq![digit_char(d as int)],
{
    proof {
        reveal_strlit("0");
        reveal_strlit("1");
        reveal_strlit("2");
        reveal_strlit("3");
        reveal_strlit("4");
        reveal_strlit("5");
        reveal_strlit("6");
        reveal_strlit("7");
        reveal_strlit("8");
        reveal_strlit("9");
        reveal_strlit("a");
        reveal_strlit("b");
        reveal_strlit("c");
        reveal_strlit("d");
        reveal_strlit("e");
        reveal_strlit("f");
    }
    let s: &str = match d {
        0 => "0",
        1 => "1",
        2 => "2",
        3 => "3",
        4 => "4",
        5 => "5",
        6 => "6",
        7 => "7",
        8 => "8",
        9 => "9",
        10 => "a",
        11 => "b",
        12 => "c",
        13 => "d",
        14 => "e",
        _ => "f",
    };
    assert(s@ =~= seq![digit_char(d as int)]);
    s.to_owned()
}

/// A number in decimal.
pub fn decimal(n: usize) -> (r: String)
    ensures
        r@ == decimal_text(n as int),
    decreases n,
{
    if n < 10 {
        digit(n)
    } else {
        let mut s: String = decimal(n / 10);
        let last: String = digit(n % 10);
        s.append(last.as_str());
        assert(s@ =~= decimal_text(n as int));
        s
    }
}

/// A byte as two hexadecimal digits.
pub fn hex(b: u8) -> (r: String)
    ensures
        r@ == hex_text(b as int),
{
    let n: usize = b as usize;
    let mut s: String = digit(n / 16);
    let last: String = digit(n % 16);
    s.append(last.as_str());
    assert(s@ =~= hex_text(b as int));
    s
}

/// The numbers in decimal, with a comma and a blank between them.
pub fn joined(items: &[usize]) -> (r: String)
    ensures
        r@ == joined_text(items@),
{
    let n: usize = items.len();
    let mut s: String = "".to_owned();
    let mut i: usize = 0;
    proof {
        assert(joined_text(items@.take(0)) == ""@);
    }
    while i < n
        invariant
            n == items@.len(),
            i <= n,
            s@ == joined_text(items@.take(i as int)),
        decreases n - i,
    {
        if i > 0 {
            s.append(", ");
        }
        let item: String = decimal(items[i]);
        s.append(item.as_str());
        proof {
            reveal_strlit("");
            let now = items@.take(i + 1);
            assert(now.drop_last() =~= items@.take(i as int));
            assert(now.last() == items@[i as int]);
            if i == 0 {
                assert(s@ =~= joined_text(now));
            }
        }
        i = i + 1;
    }
    assert(items@.take(n as int) =~= items@);
    s
}

/// A list of numbers in square brackets.
pub fn list(items: &[usize]) -> (r: String)
    ensures
        r@ == list_text(items@),
{
    let mut s: String = "[".to_owned();
    s.append(joined(items).as_str());
    s.append("]");
    s
}

/// A text whose lines after the first start with `indent`.
pub open spec fn indented_text(s: Seq<char>, indent: Seq<char>) -> Seq<char>
    decreases s.len(),
{
    if s.len() == 0 {
        Seq::empty()
    } else {
        let before = indented_text(s.drop_last(), indent).push(s.last());
        if s.last() == '\n' {
            before + indent
        } else {
            before
        }
    }
}

/// Indents the lines of a text after the first.
pub fn indented(s: &str, indent: &str) -> (r: String)
    ensures
        r@ == indented_text(s@, indent@),
{
    let n: usize = s.unicode_len();
    let mut r: String = String::new();
    let mut i: usize = 0;
    assert(r@ =~= indented_text(s@.take(0), indent@)) by {
        reveal_strlit("");
    }
    while i < n
        invariant
            i <= n,
            n == s@.len(),
            r@ == indented_text(s@.take(i as int), indent@),
        decreases n - i,
    {
        let ghost before = r@;
        r.append(s.substring_char(i, i + 1));
        assert(r@ =~= before.push(s@[i as int]));
        if s.get_char(i) == '\n' {
            r.append(indent);
        }
        proof {
            assert(s@.take(i + 1).drop_last() =~= s@.take(i as int));
            assert(r@ =~= indented_text(s@.take(i + 1), indent@));
        }
        i = i + 1;
    }
    assert(s@.take(n as int) =~= s@);
    r
}

} // verus!
