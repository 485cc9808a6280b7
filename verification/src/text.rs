//! Text as the rest of the library needs it: numbers written out, pieces joined, lines read.
//!
//! Everything here is stated over `Seq<char>`, the view of `str` and `String`.

use vstd::prelude::*;
use vstd::utf8::{decode_utf8, valid_utf8};

verus! {

/// `String::push` appends the given character to the end of the string.
pub assume_specification[ String::push ](s: &mut String, c: char)
    ensures
        final(s)@ == old(s)@.push(c),
;

/// The characters of an optional string.
pub open spec fn opt_view(s: Option<String>) -> Option<Seq<char>> {
    match s {
        Some(t) => Some(t@),
        None => None,
    }
}

/// The characters of each of the strings.
pub open spec fn views(s: Seq<String>) -> Seq<Seq<char>> {
    s.map_values(|t: String| t@)
}

/// The character for one digit, lower case past nine.
pub open spec fn digit(d: int) -> char {
    if d < 10 {
        (48 + d) as char
    } else {
        (87 + d) as char
    }
}

/// `n` written in `radix`, most significant digit first, no leading zeros.
pub open spec fn digits(n: nat, radix: nat) -> Seq<char>
    decreases n,
{
    if radix < 2 || n < radix {
        seq![digit(n as int)]
    } else {
        proof {
            assert(n / radix < n) by (nonlinear_arith)
                requires
                    2 <= radix,
                    n >= radix,
            ;
        }
        digits(n / radix, radix).push(digit((n % radix) as int))
    }
}

/// `n` in decimal.
pub open spec fn dec(n: int) -> Seq<char> {
    digits(n as nat, 10)
}

/// `n` in hexadecimal with its `0x` prefix.
pub open spec fn hex(n: int) -> Seq<char> {
    "0x"@ + digits(n as nat, 16)
}

/// The character for one digit of a number in a radix of at most sixteen.
fn digit_char(d: u8) -> (c: char)
    requires
        d < 16,
    ensures
        c == digit(d as int),
{
    if d < 10 {
        (48 + d) as char
    } else {
        (87 + d) as char
    }
}

/// Appends one digit to `out`.
pub(crate) fn push_digit(out: &mut String, d: u8)
    requires
        d < 16,
    ensures
        final(out)@ == old(out)@.push(digit(d as int)),
{
    out.push(digit_char(d));
}

/// Appends `n` in `radix` to `out`.
pub fn push_number(out: &mut String, n: u64, radix: u64)
    requires
        2 <= radix <= 16,
    ensures
        final(out)@ == old(out)@ + digits(n as nat, radix as nat),
    decreases n,
{
    if n >= radix {
        assert(n / radix < n) by (nonlinear_arith)
            requires
                2 <= radix,
                n >= radix,
        ;
        push_number(out, n / radix, radix);
    }
    assert(n % radix < radix) by (nonlinear_arith)
        requires
            2 <= radix,
    ;
    out.push(digit_char((n % radix) as u8));
    assert(out@ == old(out)@ + digits(n as nat, radix as nat)) by {
        assert((n as nat) / (radix as nat) == n / radix);
        assert((n as nat) % (radix as nat) == n % radix);
        assert(n < radix ==> n % radix == n) by (nonlinear_arith);
    }
}

/// `n` in decimal.
pub fn dec_text(n: u64) -> (r: String)
    ensures
        r@ == dec(n as int),
{
    let mut r = String::new();
    push_number(&mut r, n, 10);
    r
}

/// `n` in hexadecimal with its `0x` prefix.
pub fn hex_text(n: u64) -> (r: String)
    ensures
        r@ == hex(n as int),
{
    let mut r = "0x".to_string();
    push_number(&mut r, n, 16);
    r
}

/// The text whose UTF-8 encoding `bytes` is, if it is one.
pub open spec fn utf8(bytes: Seq<u8>) -> Option<Seq<char>> {
    if valid_utf8(bytes) {
        Some(decode_utf8(bytes))
    } else {
        None
    }
}

/// No bytes are no text.
pub proof fn lemma_utf8_of_nothing()
    ensures
        utf8(Seq::<u8>::empty()) == Some(Seq::<char>::empty()),
{
}

/// `core::str::from_utf8` succeeds exactly on well-formed UTF-8 and gives the text that the
/// bytes encode.
#[verifier::external_body]
pub(crate) fn from_utf8(bytes: &[u8]) -> (r: Option<&str>)
    ensures
        r is Some <==> utf8(bytes@) is Some,
        r matches Some(s) ==> utf8(bytes@) == Some(s@),
{
    core::str::from_utf8(bytes).ok()
}

/// The characters of `s`, one by one.
pub fn chars_of(s: &str) -> (r: Vec<char>)
    ensures
        r@ == s@,
{
    let mut r: Vec<char> = Vec::new();
    for c in it: s.chars()
        invariant
            r@ =~= it.seq().take(it.index()),
            it.seq() == s@,
    {
        r.push(c);
    }
    r
}

/// The string made of `chars`.
pub fn string_of(chars: &[char]) -> (r: String)
    ensures
        r@ == chars@,
{
    let mut r = String::new();
    let mut i: usize = 0;
    while i < chars.len()
        invariant
            i <= chars@.len(),
            r@ =~= chars@.take(i as int),
        decreases chars.len() - i,
    {
        r.push(chars[i]);
        i += 1;
    }
    assert(chars@.take(i as int) =~= chars@);
    r
}

/// Whether there is no text.
pub fn is_blank(s: &str) -> (r: bool)
    ensures
        r == (s@.len() == 0),
{
    s.unicode_len() == 0
}

/// `part` stands in `all` at `at`.
pub open spec fn stands_at(all: Seq<char>, part: Seq<char>, at: int) -> bool {
    0 <= at && at + part.len() <= all.len() && all.subrange(at, at + part.len() as int) == part
}

/// Whether `part` stands in `all` at `at`.
pub fn is_at(all: &[char], part: &[char], at: usize) -> (r: bool)
    ensures
        r == stands_at(all@, part@, at as int),
{
    if at > all.len() || part.len() > all.len() - at {
        return false;
    }
    let mut i: usize = 0;
    while i < part.len()
        invariant
            i <= part@.len(),
            at + part@.len() <= all@.len() == all.len(),
            forall|j: int| 0 <= j < i ==> all@[at + j] == part@[j],
        decreases part.len() - i,
    {
        if all[at + i] != part[i] {
            assert(all@.subrange(at as int, at + part@.len() as int)[i as int] != part@[i as int]);
            return false;
        }
        i += 1;
    }
    assert(all@.subrange(at as int, at + part@.len() as int) =~= part@);
    true
}

/// Whether the two texts are the same.
pub fn same(a: &str, b: &str) -> (r: bool)
    ensures
        r == (a@ == b@),
{
    let x = chars_of(a);
    let y = chars_of(b);
    let r: bool = x.len() == y.len() && is_at(x.as_slice(), y.as_slice(), 0);
    proof {
        assert(x@.subrange(0, x@.len() as int) =~= x@);
        if a@ == b@ {
            assert(stands_at(x@, y@, 0));
        }
    }
    r
}

/// `all` ends with `part`.
pub open spec fn ends(all: Seq<char>, part: Seq<char>) -> bool {
    stands_at(all, part, all.len() - part.len())
}

/// Whether `all` ends with `part`.
pub fn ends_with(all: &str, part: &str) -> (r: bool)
    ensures
        r == ends(all@, part@),
{
    let x = chars_of(all);
    let y = chars_of(part);
    y.len() <= x.len() && is_at(x.as_slice(), y.as_slice(), x.len() - y.len())
}

/// Whether `a` comes before `b` in dictionary order.
pub open spec fn precedes(a: Seq<char>, b: Seq<char>) -> bool
    decreases a.len(),
{
    if b.len() == 0 {
        false
    } else if a.len() == 0 {
        true
    } else if a[0] != b[0] {
        a[0] < b[0]
    } else {
        precedes(a.skip(1), b.skip(1))
    }
}

/// Dictionary order leaves no two different texts unordered, and orders none both ways.
pub proof fn lemma_precedes_total(a: Seq<char>, b: Seq<char>)
    ensures
        precedes(a, b) || a == b || precedes(b, a),
        !(precedes(a, b) && precedes(b, a)),
        !precedes(a, a),
    decreases a.len(),
{
    if a.len() > 0 {
        lemma_precedes_total(a.skip(1), a.skip(1));
    }
    if a.len() > 0 && b.len() > 0 && a[0] == b[0] {
        lemma_precedes_total(a.skip(1), b.skip(1));
        if a.skip(1) == b.skip(1) {
            assert(a =~= seq![a[0]] + a.skip(1));
            assert(b =~= seq![b[0]] + b.skip(1));
        }
    } else if a.len() == 0 && b.len() == 0 {
        assert(a =~= b);
    }
}

/// Dictionary order is transitive.
pub proof fn lemma_precedes_transitive(a: Seq<char>, b: Seq<char>, c: Seq<char>)
    requires
        precedes(a, b),
        precedes(b, c),
    ensures
        precedes(a, c),
    decreases a.len(),
{
    if a.len() > 0 && a[0] == b[0] && b[0] == c[0] {
        lemma_precedes_transitive(a.skip(1), b.skip(1), c.skip(1));
    }
}

/// Whether `a` comes before `b` in dictionary order.
pub fn is_before(a: &str, b: &str) -> (r: bool)
    ensures
        r == precedes(a@, b@),
{
    let x = chars_of(a);
    let y = chars_of(b);
    let mut i: usize = 0;
    assert(x@.skip(0) =~= x@);
    assert(y@.skip(0) =~= y@);
    while i < x.len() && i < y.len()
        invariant
            i <= x@.len(),
            i <= y@.len(),
            x@ == a@,
            y@ == b@,
            precedes(x@, y@) == precedes(x@.skip(i as int), y@.skip(i as int)),
        decreases x.len() - i,
    {
        if x[i] != y[i] {
            return x[i] < y[i];
        }
        assert(x@.skip(i as int).skip(1) =~= x@.skip(i + 1));
        assert(y@.skip(i as int).skip(1) =~= y@.skip(i + 1));
        i += 1;
    }
    i < y.len()
}

/// Whether the list holds the text.
pub fn lists(list: &Vec<String>, s: &str) -> (r: bool)
    ensures
        r == views(list@).contains(s@),
{
    let mut i: usize = 0;
    while i < list.len()
        invariant
            i <= list@.len(),
            forall|j: int| 0 <= j < i ==> #[trigger] views(list@)[j] != s@,
        decreases list.len() - i,
    {
        assert(views(list@)[i as int] == list@[i as int]@);
        if same(list[i].as_str(), s) {
            return true;
        }
        i += 1;
    }
    false
}

/// Whether `all` starts with `part`.
pub fn begins_with(all: &str, part: &str) -> (r: bool)
    ensures
        r == stands_at(all@, part@, 0),
{
    let a = chars_of(all);
    let b = chars_of(part);
    is_at(a.as_slice(), b.as_slice(), 0)
}

/// How `Debug` writes a text: in double quotes, with escapes for what is not printable.
pub uninterp spec fn debug_form(s: Seq<char>) -> Seq<char>;

/// The `Debug` formatting of `str`, through `format!`. The result is named, not described:
/// which characters are escaped, and how, is left to the formatting.
#[verifier::external_body]
pub(crate) fn debug_text(s: &str) -> (r: String)
    ensures
        r@ == debug_form(s@),
{
    format!("{s:?}")
}

/// Texts are ordered by the first character in which they differ, and a text comes before what
/// goes on from it.
pub proof fn law_texts_are_ordered_by_the_first_difference(
    a: Seq<char>,
    c: char,
    x: Seq<char>,
    d: char,
    y: Seq<char>,
)
    requires
        (c as u32) < (d as u32),
    ensures
        precedes(a + seq![c] + x, a + seq![d] + y),
        !precedes(a + seq![d] + y, a + seq![c] + x),
        precedes(a, a + seq![c] + x),
        !precedes(a + seq![c] + x, a),
    decreases a.len(),
{
    let l = a + seq![c] + x;
    let r = a + seq![d] + y;
    if a.len() > 0 {
        let b = a.drop_first();
        law_texts_are_ordered_by_the_first_difference(b, c, x, d, y);
        assert(l.drop_first() =~= b + seq![c] + x);
        assert(r.drop_first() =~= b + seq![d] + y);
        assert(l[0] == a[0] && r[0] == a[0]);
    } else {
        assert(l[0] == c && r[0] == d);
    }
}

} // verus!
