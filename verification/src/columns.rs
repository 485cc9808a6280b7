//! Text in columns, and texts joined.

use vstd::prelude::*;

use crate::text;

verus! {

/// `n` times the same character.
pub open spec fn filled(c: char, n: int) -> Seq<char> {
    Seq::new(
        if n < 0 {
            0
        } else {
            n as nat
        },
        |i: int| c,
    )
}

/// At the right of a column.
pub open spec fn right(s: Seq<char>, width: int) -> Seq<char> {
    filled(' ', width - s.len()) + s
}

/// At the left of a column.
pub open spec fn left(s: Seq<char>, width: int) -> Seq<char> {
    s + filled(' ', width - s.len())
}

/// In hexadecimal behind its prefix, with zeros in front up to this many digits.
pub open spec fn wide_hex(n: int, digits: int) -> Seq<char> {
    let d = text::digits(n as nat, 16);
    "0x"@ + filled('0', digits - d.len()) + d
}

/// The texts with `sep` between them.
pub open spec fn joined(s: Seq<Seq<char>>, sep: Seq<char>) -> Seq<char>
    decreases s.len(),
{
    if s.len() == 0 {
        Seq::empty()
    } else if s.len() == 1 {
        s[0]
    } else {
        joined(s.drop_last(), sep) + sep + s.last()
    }
}

/// `n` times the same character.
#[must_use]
pub fn repeated(c: char, n: usize) -> (r: String)
    ensures
        r@ == filled(c, n as int),
{
    let mut r = String::new();
    let mut i: usize = 0;
    while i < n
        invariant
            i <= n,
            r@ =~= filled(c, i as int),
        decreases n - i,
    {
        r.push(c);
        i += 1;
    }
    r
}

/// At the right of a column.
#[must_use]
pub fn at_right(s: &str, width: usize) -> (r: String)
    ensures
        r@ == right(s@, width as int),
{
    let n: usize = s.unicode_len();
    let mut r = repeated(
        ' ',
        if n < width {
            width - n
        } else {
            0
        },
    );
    r.append(s);
    assert(r@ =~= right(s@, width as int));
    r
}

/// At the left of a column.
#[must_use]
pub fn at_left(s: &str, width: usize) -> (r: String)
    ensures
        r@ == left(s@, width as int),
{
    let n: usize = s.unicode_len();
    let mut r = s.to_string();
    let space = repeated(
        ' ',
        if n < width {
            width - n
        } else {
            0
        },
    );
    r.append(space.as_str());
    assert(r@ =~= left(s@, width as int));
    r
}

/// In hexadecimal behind its prefix, with zeros in front up to this many digits.
#[must_use]
pub fn wide_hex_text(n: u64, digits: usize) -> (r: String)
    ensures
        r@ == wide_hex(n as int, digits as int),
{
    let mut d = String::new();
    text::push_number(&mut d, n, 16);
    assert(d@ =~= text::digits(n as nat, 16));
    let len: usize = d.as_str().unicode_len();
    let mut r = "0x".to_string();
    r.append(
        repeated(
            '0',
            if len < digits {
                digits - len
            } else {
                0
            },
        ).as_str(),
    );
    r.append(d.as_str());
    assert(filled('0', digits - d@.len()) =~= filled(
        '0',
        if d@.len() < digits {
            digits - d@.len()
        } else {
            0
        },
    ));
    r
}

/// The texts with `sep` between them.
#[must_use]
pub fn join(s: &Vec<String>, sep: &str) -> (r: String)
    ensures
        r@ == joined(text::views(s@), sep@),
{
    let ghost all = text::views(s@);
    let mut out = String::new();
    let mut i: usize = 0;
    while i < s.len()
        invariant
            i <= s@.len(),
            all == text::views(s@),
            out@ =~= joined(all.take(i as int), sep@),
        decreases s.len() - i,
    {
        proof {
            assert(all.take(i + 1).drop_last() =~= all.take(i as int));
            assert(all[i as int] == s@[i as int]@);
        }
        if i > 0 {
            out.append(sep);
        }
        out.append(s[i].as_str());
        i += 1;
    }
    assert(all.take(i as int) =~= all);
    out
}

/// `n` in decimal, with its sign where it is negative.
pub open spec fn signed(n: int) -> Seq<char> {
    if n < 0 {
        "-"@ + text::dec(-n)
    } else {
        text::dec(n)
    }
}

/// `n` in decimal, with its sign where it is negative.
#[must_use]
pub fn signed_text(n: i64) -> (r: String)
    ensures
        r@ == signed(n as int),
{
    if n < 0 {
        let mut r = "-".to_string();
        let size: u64 = if n == i64::MIN {
            0x8000_0000_0000_0000
        } else {
            (-n) as u64
        };
        r.append(text::dec_text(size).as_str());
        r
    } else {
        text::dec_text(n as u64)
    }
}

/// A text set in a column is all there, at its end or at its start, and only spaces are added,
/// no more than the column has room for.
pub proof fn law_a_column_keeps_its_text(s: Seq<char>, width: int)
    ensures
        right(s, width).len() == if s.len() > width {
            s.len() as int
        } else {
            width
        },
        left(s, width).len() == right(s, width).len(),
        right(s, width).skip(right(s, width).len() - s.len()) == s,
        left(s, width).take(s.len() as int) == s,
        forall|i: int|
            0 <= i < right(s, width).len() - s.len() ==> #[trigger] right(s, width)[i] == ' ',
        forall|i: int| s.len() <= i < left(s, width).len() ==> #[trigger] left(s, width)[i] == ' ',
{
    let n = (width - s.len()) as int;
    let pad = filled(' ', n);
    assert(right(s, width).skip(pad.len() as int) =~= s);
    assert(left(s, width).take(s.len() as int) =~= s);
}

} // verus!
