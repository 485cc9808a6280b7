//! Reading text: finding, splitting, trimming, numbers.
//!
//! Everything works on slices of characters, whose view is the text itself.

use vstd::prelude::*;
use vstd::slice::slice_subrange;

use crate::text;

verus! {

/// A character with the Unicode property `White_Space`.
pub open spec fn is_space(c: char) -> bool {
    let n = c as u32;
    ||| 9 <= n <= 13
    ||| n == 0x20
    ||| n == 0x85
    ||| n == 0xa0
    ||| n == 0x1680
    ||| 0x2000 <= n <= 0x200a
    ||| n == 0x2028
    ||| n == 0x2029
    ||| n == 0x202f
    ||| n == 0x205f
    ||| n == 0x3000
}

/// `s` without its leading white space.
pub open spec fn trim_start(s: Seq<char>) -> Seq<char>
    decreases s.len(),
{
    if s.len() > 0 && is_space(s[0]) {
        trim_start(s.drop_first())
    } else {
        s
    }
}

/// `s` without its trailing white space.
pub open spec fn trim_end(s: Seq<char>) -> Seq<char>
    decreases s.len(),
{
    if s.len() > 0 && is_space(s.last()) {
        trim_end(s.drop_last())
    } else {
        s
    }
}

/// `s` without the white space around it.
pub open spec fn trimmed(s: Seq<char>) -> Seq<char> {
    trim_end(trim_start(s))
}

/// `s` without any number of trailing `c`.
pub open spec fn without_end(s: Seq<char>, c: char) -> Seq<char>
    decreases s.len(),
{
    if s.len() > 0 && s.last() == c {
        without_end(s.drop_last(), c)
    } else {
        s
    }
}

/// `s` without any number of leading `pat`.
pub open spec fn without_start(s: Seq<char>, pat: Seq<char>) -> Seq<char>
    decreases s.len(),
{
    if pat.len() > 0 && text::stands_at(s, pat, 0) {
        without_start(s.skip(pat.len() as int), pat)
    } else {
        s
    }
}

/// Where `pat` first stands in `s`, from `i` on.
pub open spec fn find_from(s: Seq<char>, pat: Seq<char>, i: int) -> Option<int>
    decreases s.len() - i + 1,
{
    if i + pat.len() > s.len() {
        None
    } else if text::stands_at(s, pat, i) {
        Some(i)
    } else {
        find_from(s, pat, i + 1)
    }
}

/// Where `pat` first stands in `s`.
pub open spec fn find(s: Seq<char>, pat: Seq<char>) -> Option<int> {
    find_from(s, pat, 0)
}

/// Where `pat` last stands in `s`, at `i` or before.
pub open spec fn rfind_from(s: Seq<char>, pat: Seq<char>, i: int) -> Option<int>
    decreases i + 1,
{
    if i < 0 {
        None
    } else if text::stands_at(s, pat, i) {
        Some(i)
    } else {
        rfind_from(s, pat, i - 1)
    }
}

/// Where `pat` last stands in `s`.
pub open spec fn rfind(s: Seq<char>, pat: Seq<char>) -> Option<int> {
    rfind_from(s, pat, s.len() - pat.len())
}

/// What stands before and after the first `pat`, if there is one.
pub open spec fn cut_at(s: Seq<char>, pat: Seq<char>) -> Option<(Seq<char>, Seq<char>)> {
    match find(s, pat) {
        Some(i) => Some((s.take(i), s.skip(i + pat.len()))),
        None => None,
    }
}

/// What stands before the first `pat`, or everything.
pub open spec fn up_to(s: Seq<char>, pat: Seq<char>) -> Seq<char> {
    match find(s, pat) {
        Some(i) => s.take(i),
        None => s,
    }
}

/// What follows the last `pat`, if there is one.
pub open spec fn past_last(s: Seq<char>, pat: Seq<char>) -> Option<Seq<char>> {
    match rfind(s, pat) {
        Some(i) => Some(s.skip(i + pat.len())),
        None => None,
    }
}

/// How many characters stand before the first white space, or all of them.
pub open spec fn word_len(s: Seq<char>) -> nat
    decreases s.len(),
{
    if s.len() == 0 || is_space(s[0]) {
        0
    } else {
        1 + word_len(s.drop_first())
    }
}

/// The words of `s`: what white space separates.
pub open spec fn words(s: Seq<char>) -> Seq<Seq<char>>
    decreases s.len(),
{
    let t = trim_start(s);
    if t.len() == 0 || t.len() > s.len() || word_len(t) == 0 || word_len(t) > t.len() {
        Seq::empty()
    } else {
        seq![t.take(word_len(t) as int)] + words(t.skip(word_len(t) as int))
    }
}

/// How many characters stand before the first line feed, or all of them.
pub open spec fn line_len(s: Seq<char>) -> nat
    decreases s.len(),
{
    if s.len() == 0 || s[0] == '\n' {
        0
    } else {
        1 + line_len(s.drop_first())
    }
}

/// `s` without one trailing carriage return.
pub open spec fn chomped(s: Seq<char>) -> Seq<char> {
    if s.len() > 0 && s.last() == '\r' {
        s.drop_last()
    } else {
        s
    }
}

/// The lines of `s`, without their ends. The last line end is optional.
pub open spec fn lines(s: Seq<char>) -> Seq<Seq<char>>
    decreases s.len(),
{
    if s.len() == 0 {
        Seq::empty()
    } else if line_len(s) >= s.len() {
        seq![s]
    } else {
        seq![chomped(s.take(line_len(s) as int))] + lines(s.skip((line_len(s) + 1) as int))
    }
}

/// The value of a digit in `radix`, if it is one.
pub open spec fn digit_value(c: char, radix: int) -> Option<int> {
    let n = c as u32;
    let v = if 48 <= n <= 57 {
        n - 48
    } else if 97 <= n <= 102 {
        n - 87
    } else if 65 <= n <= 70 {
        n - 55
    } else {
        99
    };
    if v < radix {
        Some(v)
    } else {
        None
    }
}

/// Every character is a digit in `radix`.
pub open spec fn all_digits(s: Seq<char>, radix: int) -> bool {
    forall|i: int| 0 <= i < s.len() ==> digit_value(#[trigger] s[i], radix) is Some
}

/// The number that the digits of `s` write.
pub open spec fn number(s: Seq<char>, radix: int) -> int
    decreases s.len(),
{
    if s.len() == 0 {
        0
    } else {
        number(s.drop_last(), radix) * radix + match digit_value(s.last(), radix) {
            Some(v) => v,
            None => 0,
        }
    }
}

/// `s` without a leading plus sign.
pub open spec fn unsigned(s: Seq<char>) -> Seq<char> {
    if s.len() > 0 && s[0] == '+' {
        s.drop_first()
    } else {
        s
    }
}

/// The number written in `s`: an optional plus sign, then digits only, and no more than `max`.
pub open spec fn parsed(s: Seq<char>, radix: int, max: int) -> Option<int> {
    let d = unsigned(s);
    if d.len() > 0 && all_digits(d, radix) && number(d, radix) <= max {
        Some(number(d, radix))
    } else {
        None
    }
}

fn space(c: char) -> (r: bool)
    ensures
        r == is_space(c),
{
    let n: u32 = c as u32;
    (9 <= n && n <= 13) || n == 0x20 || n == 0x85 || n == 0xa0 || n == 0x1680 || (0x2000 <= n && n
        <= 0x200a) || n == 0x2028 || n == 0x2029 || n == 0x202f || n == 0x205f || n == 0x3000
}

/// `s` from `i` on.
pub(crate) fn from(s: &[char], i: usize) -> (r: &[char])
    requires
        i <= s@.len(),
    ensures
        r@ == s@.skip(i as int),
{
    let r = slice_subrange(s, i, s.len());
    assert(r@ =~= s@.skip(i as int));
    r
}

/// `s` up to `i`.
pub(crate) fn upto(s: &[char], i: usize) -> (r: &[char])
    requires
        i <= s@.len(),
    ensures
        r@ == s@.take(i as int),
{
    let r = slice_subrange(s, 0, i);
    assert(r@ =~= s@.take(i as int));
    r
}

fn skip_space(s: &[char]) -> (r: &[char])
    ensures
        r@ == trim_start(s@),
{
    let mut i: usize = 0;
    assert(s@.skip(0) =~= s@);
    while i < s.len() && space(s[i])
        invariant
            i <= s@.len(),
            trim_start(s@) == trim_start(s@.skip(i as int)),
        decreases s.len() - i,
    {
        assert(s@.skip(i as int).drop_first() =~= s@.skip(i + 1));
        i += 1;
    }
    from(s, i)
}

/// `s` without the white space around it.
pub(crate) fn trim(s: &[char]) -> (r: &[char])
    ensures
        r@ == trimmed(s@),
{
    let t = skip_space(s);
    let mut n: usize = t.len();
    assert(t@.take(n as int) =~= t@);
    while n > 0 && space(t[n - 1])
        invariant
            n <= t@.len(),
            trim_end(t@) == trim_end(t@.take(n as int)),
        decreases n,
    {
        assert(t@.take(n as int).drop_last() =~= t@.take(n - 1));
        n -= 1;
    }
    upto(t, n)
}

/// `s` without any number of trailing `c`.
pub(crate) fn drop_end(s: &[char], c: char) -> (r: &[char])
    ensures
        r@ == without_end(s@, c),
{
    let mut n: usize = s.len();
    assert(s@.take(n as int) =~= s@);
    while n > 0 && s[n - 1] == c
        invariant
            n <= s@.len(),
            without_end(s@, c) == without_end(s@.take(n as int), c),
        decreases n,
    {
        assert(s@.take(n as int).drop_last() =~= s@.take(n - 1));
        n -= 1;
    }
    upto(s, n)
}

/// `s` without any number of leading `pat`.
pub(crate) fn drop_start<'a>(s: &'a [char], pat: &str) -> (r: &'a [char])
    ensures
        r@ == without_start(s@, pat@),
{
    let p = text::chars_of(pat);
    let mut rest: &'a [char] = s;
    while p.len() > 0 && text::is_at(rest, p.as_slice(), 0)
        invariant
            p@ == pat@,
            without_start(s@, pat@) == without_start(rest@, pat@),
        decreases rest@.len(),
    {
        rest = from(rest, p.len());
    }
    rest
}

/// Whether `s` starts with `pat`.
pub(crate) fn begins(s: &[char], pat: &str) -> (r: bool)
    ensures
        r == text::stands_at(s@, pat@, 0),
{
    let p = text::chars_of(pat);
    text::is_at(s, p.as_slice(), 0)
}

/// Where `pat` first stands in `s`.
pub(crate) fn position(s: &[char], pat: &str) -> (r: Option<usize>)
    ensures
        match r {
            Some(i) => find(s@, pat@) == Some(i as int) && i + pat@.len() <= s@.len(),
            None => find(s@, pat@) is None,
        },
{
    let p = text::chars_of(pat);
    let mut i: usize = 0;
    while i <= s.len() && p.len() <= s.len() - i
        invariant
            p@ == pat@,
            i <= s@.len() + 1,
            find(s@, pat@) == find_from(s@, pat@, i as int),
        decreases s@.len() + 1 - i,
    {
        if text::is_at(s, p.as_slice(), i) {
            return Some(i);
        }
        if i == s.len() {
            assert(find_from(s@, pat@, i + 1) is None);
            return None;
        }
        i += 1;
    }
    None
}

/// Where `pat` last stands in `s`.
pub(crate) fn last_position(s: &[char], pat: &str) -> (r: Option<usize>)
    ensures
        match r {
            Some(i) => rfind(s@, pat@) == Some(i as int) && i + pat@.len() <= s@.len(),
            None => rfind(s@, pat@) is None,
        },
{
    let p = text::chars_of(pat);
    if p.len() > s.len() {
        return None;
    }
    let mut i: usize = s.len() - p.len();
    loop
        invariant
            p@ == pat@,
            i + p@.len() <= s@.len(),
            rfind(s@, pat@) == rfind_from(s@, pat@, i as int),
        decreases i,
    {
        if text::is_at(s, p.as_slice(), i) {
            return Some(i);
        }
        if i == 0 {
            assert(rfind_from(s@, pat@, i - 1) is None);
            return None;
        }
        i -= 1;
    }
}

/// What stands before and after the first `pat`, if there is one.
pub(crate) fn split_once<'a>(s: &'a [char], pat: &str) -> (r: Option<(&'a [char], &'a [char])>)
    ensures
        match r {
            Some((a, b)) => cut_at(s@, pat@) == Some((a@, b@)),
            None => cut_at(s@, pat@) is None,
        },
{
    match position(s, pat) {
        Some(i) => {
            let n: usize = pat.unicode_len();
            assert(s@.len() == s.len());
            Some((upto(s, i), from(s, i + n)))
        },
        None => None,
    }
}

/// What stands before the first `pat`, or everything.
pub(crate) fn before<'a>(s: &'a [char], pat: &str) -> (r: &'a [char])
    ensures
        r@ == up_to(s@, pat@),
{
    match position(s, pat) {
        Some(i) => upto(s, i),
        None => s,
    }
}

/// What follows the last `pat`, if there is one.
pub(crate) fn after_last<'a>(s: &'a [char], pat: &str) -> (r: Option<&'a [char]>)
    ensures
        match r {
            Some(t) => past_last(s@, pat@) == Some(t@),
            None => past_last(s@, pat@) is None,
        },
{
    match last_position(s, pat) {
        Some(i) => {
            let n: usize = pat.unicode_len();
            assert(s@.len() == s.len());
            Some(from(s, i + n))
        },
        None => None,
    }
}

proof fn lemma_trim_start_len(s: Seq<char>)
    ensures
        trim_start(s).len() <= s.len(),
        trim_start(s).len() > 0 ==> !is_space(trim_start(s)[0]),
    decreases s.len(),
{
    if s.len() > 0 && is_space(s[0]) {
        lemma_trim_start_len(s.drop_first());
    }
}

proof fn lemma_word_len(s: Seq<char>)
    ensures
        word_len(s) <= s.len(),
    decreases s.len(),
{
    if s.len() > 0 && !is_space(s[0]) {
        lemma_word_len(s.drop_first());
    }
}

/// The texts that slices of characters show.
pub open spec fn slice_views(s: Seq<&[char]>) -> Seq<Seq<char>> {
    s.map_values(|t: &[char]| t@)
}

/// The words of `s`.
pub(crate) fn split_words(s: &[char]) -> (r: Vec<&[char]>)
    ensures
        slice_views(r@) == words(s@),
{
    let mut out: Vec<&[char]> = Vec::new();
    let mut rest: &[char] = s;
    assert(slice_views(out@) + words(rest@) =~= words(s@));
    loop
        invariant
            slice_views(out@) + words(rest@) == words(s@),
        decreases rest@.len(),
    {
        let t = skip_space(rest);
        proof {
            lemma_trim_start_len(rest@);
            lemma_word_len(t@);
        }
        if t.len() == 0 {
            assert(slice_views(out@) =~= slice_views(out@) + words(rest@));
            return out;
        }
        let mut n: usize = 0;
        assert(t@.skip(0) =~= t@);
        while n < t.len() && !space(t[n])
            invariant
                n <= t@.len(),
                word_len(t@) == n + word_len(t@.skip(n as int)),
            decreases t.len() - n,
        {
            assert(t@.skip(n as int).drop_first() =~= t@.skip(n + 1));
            n += 1;
        }
        let ghost was = out@;
        let word = upto(t, n);
        out.push(word);
        let next = from(t, n);
        assert(slice_views(out@) =~= slice_views(was).push(word@));
        assert(slice_views(out@) + words(next@) =~= slice_views(was) + words(rest@));
        rest = next;
    }
}

/// The lines of `s`.
pub(crate) fn split_lines(s: &[char]) -> (r: Vec<&[char]>)
    ensures
        slice_views(r@) == lines(s@),
{
    let mut out: Vec<&[char]> = Vec::new();
    let mut rest: &[char] = s;
    assert(slice_views(out@) + lines(rest@) =~= lines(s@));
    while rest.len() > 0
        invariant
            slice_views(out@) + lines(rest@) == lines(s@),
        decreases rest@.len(),
    {
        let mut n: usize = 0;
        assert(rest@.skip(0) =~= rest@);
        while n < rest.len() && rest[n] != '\n'
            invariant
                n <= rest@.len(),
                line_len(rest@) == n + line_len(rest@.skip(n as int)),
            decreases rest.len() - n,
        {
            assert(rest@.skip(n as int).drop_first() =~= rest@.skip(n + 1));
            n += 1;
        }
        let ghost was = out@;
        if n == rest.len() {
            out.push(rest);
            assert(slice_views(out@) =~= slice_views(was).push(rest@));
            assert(slice_views(out@) =~= slice_views(was) + lines(rest@));
            return out;
        }
        let line = upto(rest, n);
        let line = if line.len() > 0 && line[line.len() - 1] == '\r' {
            let shorter = upto(line, line.len() - 1);
            assert(shorter@ =~= line@.drop_last());
            shorter
        } else {
            line
        };
        out.push(line);
        let next = from(rest, n + 1);
        assert(slice_views(out@) =~= slice_views(was).push(line@));
        assert(slice_views(out@) + lines(next@) =~= slice_views(was) + lines(rest@));
        rest = next;
    }
    assert(slice_views(out@) =~= slice_views(out@) + lines(rest@));
    out
}

fn value_of(c: char, radix: u64) -> (r: Option<u64>)
    requires
        2 <= radix <= 16,
    ensures
        match r {
            Some(v) => digit_value(c, radix as int) == Some(v as int),
            None => digit_value(c, radix as int) is None,
        },
{
    let n: u32 = c as u32;
    let v: u32 = if 48 <= n && n <= 57 {
        n - 48
    } else if 97 <= n && n <= 102 {
        n - 87
    } else if 65 <= n && n <= 70 {
        n - 55
    } else {
        99
    };
    if (v as u64) < radix {
        Some(v as u64)
    } else {
        None
    }
}

proof fn lemma_number_grows(s: Seq<char>, radix: int, i: int)
    requires
        1 <= radix,
        0 <= i <= s.len(),
    ensures
        0 <= number(s.take(i), radix) <= number(s, radix),
    decreases s.len(),
{
    if i == s.len() {
        assert(s.take(i) =~= s);
        if i > 0 {
            lemma_number_grows(s.drop_last(), radix, i - 1);
            assert(0 <= number(s.drop_last(), radix) * radix) by (nonlinear_arith)
                requires
                    0 <= number(s.drop_last(), radix),
                    1 <= radix,
            ;
        }
    } else {
        assert(s.drop_last().take(i) =~= s.take(i));
        lemma_number_grows(s.drop_last(), radix, i);
        assert(number(s.drop_last(), radix) <= number(s.drop_last(), radix) * radix)
            by (nonlinear_arith)
            requires
                0 <= number(s.drop_last(), radix),
                1 <= radix,
        ;
    }
}

/// The number written in `s`: an optional plus sign, then digits only, and no more than `max`.
pub(crate) fn parse_number(s: &[char], radix: u64, max: u64) -> (r: Option<u64>)
    requires
        2 <= radix <= 16,
    ensures
        match r {
            Some(v) => parsed(s@, radix as int, max as int) == Some(v as int),
            None => parsed(s@, radix as int, max as int) is None,
        },
{
    let d: &[char] = if s.len() > 0 && s[0] == '+' {
        let t = from(s, 1);
        assert(t@ =~= s@.drop_first());
        t
    } else {
        s
    };
    if d.len() == 0 {
        return None;
    }
    let mut v: u64 = 0;
    let mut i: usize = 0;
    assert(d@.take(0) =~= Seq::<char>::empty());
    while i < d.len()
        invariant
            i <= d@.len(),
            d@ == unsigned(s@),
            2 <= radix <= 16,
            v == number(d@.take(i as int), radix as int),
            v <= max,
            forall|k: int| 0 <= k < i ==> digit_value(#[trigger] d@[k], radix as int) is Some,
        decreases d.len() - i,
    {
        let x: u64 = match value_of(d[i], radix) {
            Some(x) => x,
            None => {
                assert(digit_value(d@[i as int], radix as int) is None);
                return None;
            },
        };
        proof {
            assert(d@.take(i + 1).drop_last() =~= d@.take(i as int));
            lemma_number_grows(d@, radix as int, i + 1);
        }
        let scaled: u64 = match v.checked_mul(radix) {
            Some(y) => y,
            None => return None,
        };
        let sum: u64 = match scaled.checked_add(x) {
            Some(y) => y,
            None => return None,
        };
        if sum > max {
            return None;
        }
        v = sum;
        i += 1;
    }
    assert(d@.take(i as int) =~= d@);
    Some(v)
}

// What the pieces of a text are, whatever the way to them.

/// All of it is white space.
pub open spec fn blank(s: Seq<char>) -> bool {
    forall|i: int| 0 <= i < s.len() ==> is_space(#[trigger] s[i])
}

/// A word: something, without any white space in it.
pub open spec fn solid(s: Seq<char>) -> bool {
    s.len() > 0 && forall|i: int| 0 <= i < s.len() ==> !is_space(#[trigger] s[i])
}

/// Each word behind its gap.
pub open spec fn set_out(gaps: Seq<Seq<char>>, words: Seq<Seq<char>>) -> Seq<char>
    decreases words.len(),
{
    if words.len() == 0 {
        Seq::empty()
    } else {
        gaps[0] + words[0] + set_out(gaps.drop_first(), words.drop_first())
    }
}

/// Words, and gaps that keep them apart.
pub open spec fn apart(gaps: Seq<Seq<char>>, words: Seq<Seq<char>>) -> bool {
    &&& gaps.len() == words.len()
    &&& forall|i: int| 0 <= i < words.len() ==> solid(#[trigger] words[i])
    &&& forall|i: int| 0 <= i < gaps.len() ==> blank(#[trigger] gaps[i])
    &&& forall|i: int| 0 < i < gaps.len() ==> (#[trigger] gaps[i]).len() > 0
}

proof fn lemma_trim_blank(a: Seq<char>, b: Seq<char>)
    requires
        blank(a),
    ensures
        trim_start(a + b) == trim_start(b),
    decreases a.len(),
{
    if a.len() > 0 {
        assert((a + b)[0] == a[0]);
        assert((a + b).drop_first() =~= a.drop_first() + b);
        assert forall|i: int| 0 <= i < a.drop_first().len() implies is_space(
            #[trigger] a.drop_first()[i],
        ) by {
            assert(a.drop_first()[i] == a[i + 1]);
        }
        lemma_trim_blank(a.drop_first(), b);
    } else {
        assert(a + b =~= b);
    }
}

proof fn lemma_word_ends(w: Seq<char>, rest: Seq<char>)
    requires
        forall|i: int| 0 <= i < w.len() ==> !is_space(#[trigger] w[i]),
        rest.len() > 0 ==> is_space(rest[0]),
    ensures
        word_len(w + rest) == w.len(),
    decreases w.len(),
{
    if w.len() > 0 {
        assert((w + rest)[0] == w[0]);
        assert((w + rest).drop_first() =~= w.drop_first() + rest);
        assert forall|i: int| 0 <= i < w.drop_first().len() implies !is_space(
            #[trigger] w.drop_first()[i],
        ) by {
            assert(w.drop_first()[i] == w[i + 1]);
        }
        lemma_word_ends(w.drop_first(), rest);
    } else {
        assert(w + rest =~= rest);
    }
}

/// The first word, and the words of what follows it.
pub proof fn lemma_first_word(gap: Seq<char>, w: Seq<char>, rest: Seq<char>)
    requires
        blank(gap),
        solid(w),
        rest.len() > 0 ==> is_space(rest[0]),
    ensures
        words(gap + w + rest) == seq![w] + words(rest),
{
    let s = gap + w + rest;
    assert(s =~= gap + (w + rest));
    lemma_trim_blank(gap, w + rest);
    let t = w + rest;
    assert(t[0] == w[0]);
    assert(trim_start(t) == t);
    lemma_word_ends(w, rest);
    assert(t.take(w.len() as int) =~= w);
    assert(t.skip(w.len() as int) =~= rest);
}

/// Words set apart by white space, with any of it before and behind, are found again, in
/// order.
pub proof fn law_words_are_found_again(
    gaps: Seq<Seq<char>>,
    w: Seq<Seq<char>>,
    trail: Seq<char>,
)
    requires
        apart(gaps, w),
        blank(trail),
    ensures
        words(set_out(gaps, w) + trail) == w,
    decreases w.len(),
{
    if w.len() == 0 {
        assert(set_out(gaps, w) + trail =~= trail + Seq::<char>::empty());
        lemma_trim_blank(trail, Seq::empty());
        assert(words(trail + Seq::<char>::empty()) =~= w);
    } else {
        let more = set_out(gaps.drop_first(), w.drop_first()) + trail;
        assert(set_out(gaps, w) + trail =~= gaps[0] + w[0] + more);
        assert(apart(gaps.drop_first(), w.drop_first())) by {
            assert forall|i: int| 0 <= i < w.drop_first().len() implies solid(
                #[trigger] w.drop_first()[i],
            ) by {
                assert(w.drop_first()[i] == w[i + 1]);
            }
            assert forall|i: int| 0 <= i < gaps.drop_first().len() implies blank(
                #[trigger] gaps.drop_first()[i],
            ) by {
                assert(gaps.drop_first()[i] == gaps[i + 1]);
            }
            assert forall|i: int| 0 < i < gaps.drop_first().len() implies (
            #[trigger] gaps.drop_first()[i]).len() > 0 by {
                assert(gaps.drop_first()[i] == gaps[i + 1]);
            }
        }
        assert(more.len() > 0 ==> is_space(more[0])) by {
            if w.len() > 1 {
                let g = gaps.drop_first()[0];
                assert(g == gaps[1]);
                assert(more[0] == g[0]);
            } else if more.len() > 0 {
                assert(set_out(gaps.drop_first(), w.drop_first()).len() == 0);
                assert(more[0] == trail[0]);
            }
        }
        lemma_first_word(gaps[0], w[0], more);
        law_words_are_found_again(gaps.drop_first(), w.drop_first(), trail);
        assert(seq![w[0]] + w.drop_first() =~= w);
    }
}

/// A text is the lines that line feeds end, in order: one carriage return before the line
/// feed is no part of its line, and what follows the last line feed is a line too, unless
/// there is nothing.
pub proof fn law_lines_end_at_line_feeds(line: Seq<char>, rest: Seq<char>)
    requires
        forall|i: int| 0 <= i < line.len() ==> #[trigger] line[i] != '\n',
        line.len() > 0 ==> line.last() != '\r',
    ensures
        lines(Seq::empty()) == Seq::<Seq<char>>::empty(),
        line.len() > 0 ==> lines(line) == seq![line],
        lines(line.push('\n') + rest) == seq![line] + lines(rest),
        lines(line.push('\r').push('\n') + rest) == seq![line] + lines(rest),
{
    lemma_line_ends(line, Seq::empty());
    assert(line + Seq::<char>::empty() =~= line);
    let a = line.push('\n') + rest;
    assert(a =~= line + (seq!['\n'] + rest));
    lemma_line_ends(line, seq!['\n'] + rest);
    assert(a.take(line.len() as int) =~= line);
    assert(a.skip((line.len() + 1) as int) =~= rest);
    let cr = line.push('\r');
    let b = cr.push('\n') + rest;
    assert(b =~= cr + (seq!['\n'] + rest));
    lemma_line_ends(cr, seq!['\n'] + rest);
    assert(b.take(cr.len() as int) =~= cr);
    assert(cr.drop_last() =~= line);
    assert(b.skip((cr.len() + 1) as int) =~= rest);
}

proof fn lemma_line_ends(line: Seq<char>, rest: Seq<char>)
    requires
        forall|i: int| 0 <= i < line.len() ==> #[trigger] line[i] != '\n',
        rest.len() > 0 ==> rest[0] == '\n',
    ensures
        line_len(line + rest) == line.len(),
    decreases line.len(),
{
    if line.len() > 0 {
        assert((line + rest)[0] == line[0]);
        assert((line + rest).drop_first() =~= line.drop_first() + rest);
        assert forall|i: int| 0 <= i < line.drop_first().len() implies #[trigger] line.drop_first()[i]
            != '\n' by {
            assert(line.drop_first()[i] == line[i + 1]);
        }
        lemma_line_ends(line.drop_first(), rest);
    } else {
        assert(line + rest =~= rest);
    }
}

/// Trimming takes the white space around a text and nothing of the text.
pub proof fn law_trimming_keeps_the_text(before: Seq<char>, s: Seq<char>, behind: Seq<char>)
    requires
        blank(before),
        blank(behind),
        s.len() > 0 ==> !is_space(s[0]) && !is_space(s.last()),
    ensures
        trimmed(before + s + behind) == s,
{
    assert(before + s + behind =~= before + (s + behind));
    lemma_trim_blank(before, s + behind);
    if s.len() > 0 {
        assert((s + behind)[0] == s[0]);
        lemma_trim_trail(s, behind);
    } else {
        assert(s + behind =~= behind + s);
        lemma_trim_blank(behind, s);
    }
}

proof fn lemma_trim_trail(s: Seq<char>, behind: Seq<char>)
    requires
        blank(behind),
        s.len() > 0,
        !is_space(s.last()),
    ensures
        trim_end(s + behind) == s,
    decreases behind.len(),
{
    if behind.len() > 0 {
        assert((s + behind).last() == behind.last());
        assert((s + behind).drop_last() =~= s + behind.drop_last());
        lemma_trim_trail(s, behind.drop_last());
    } else {
        assert(s + behind =~= s);
    }
}

/// A search finds the first place where the pattern stands, and nothing only where it stands
/// nowhere.
pub proof fn law_a_search_finds_the_first(s: Seq<char>, pat: Seq<char>)
    ensures
        match find(s, pat) {
            Some(k) => {
                &&& 0 <= k <= s.len() - pat.len()
                &&& s.subrange(k, k + pat.len()) == pat
                &&& forall|i: int|
                    0 <= i < k ==> #[trigger] s.subrange(i, i + pat.len()) != pat
            },
            None => forall|i: int|
                0 <= i <= s.len() - pat.len() ==> #[trigger] s.subrange(i, i + pat.len()) != pat,
        },
{
    lemma_find_from(s, pat, 0);
}

proof fn lemma_find_from(s: Seq<char>, pat: Seq<char>, from: int)
    requires
        0 <= from,
    ensures
        match find_from(s, pat, from) {
            Some(k) => {
                &&& from <= k <= s.len() - pat.len()
                &&& s.subrange(k, k + pat.len()) == pat
                &&& forall|i: int|
                    from <= i < k ==> #[trigger] s.subrange(i, i + pat.len()) != pat
            },
            None => forall|i: int|
                from <= i <= s.len() - pat.len() ==> #[trigger] s.subrange(i, i + pat.len())
                    != pat,
        },
    decreases s.len() - from + 1,
{
    if from + pat.len() <= s.len() && !text::stands_at(s, pat, from) {
        lemma_find_from(s, pat, from + 1);
    }
}

/// A search from the end finds the last place where the pattern stands, and nothing only where
/// it stands nowhere.
pub proof fn law_a_search_back_finds_the_last(s: Seq<char>, pat: Seq<char>)
    ensures
        match rfind(s, pat) {
            Some(k) => {
                &&& 0 <= k <= s.len() - pat.len()
                &&& s.subrange(k, k + pat.len()) == pat
                &&& forall|i: int|
                    k < i <= s.len() - pat.len() ==> #[trigger] s.subrange(i, i + pat.len())
                        != pat
            },
            None => forall|i: int|
                0 <= i <= s.len() - pat.len() ==> #[trigger] s.subrange(i, i + pat.len()) != pat,
        },
{
    lemma_rfind_from(s, pat, s.len() - pat.len());
}

proof fn lemma_rfind_from(s: Seq<char>, pat: Seq<char>, from: int)
    requires
        from <= s.len() - pat.len(),
    ensures
        match rfind_from(s, pat, from) {
            Some(k) => {
                &&& 0 <= k <= from
                &&& s.subrange(k, k + pat.len()) == pat
                &&& forall|i: int|
                    k < i <= from ==> #[trigger] s.subrange(i, i + pat.len()) != pat
            },
            None => forall|i: int|
                0 <= i <= from ==> #[trigger] s.subrange(i, i + pat.len()) != pat,
        },
    decreases from + 1,
{
    if from >= 0 && !text::stands_at(s, pat, from) {
        lemma_rfind_from(s, pat, from - 1);
    }
}

proof fn lemma_digit_is_read(d: int, radix: int)
    requires
        0 <= d < radix <= 16,
    ensures
        digit_value(text::digit(d), radix) == Some(d),
        !is_space(text::digit(d)),
        text::digit(d) != '+',
        text::digit(d) != 'x',
{
}

/// Every character of a written number is one of its digits.
pub proof fn lemma_digits_are_digits(n: nat, radix: nat)
    requires
        2 <= radix <= 16,
    ensures
        text::digits(n, radix).len() > 0,
        all_digits(text::digits(n, radix), radix as int),
        solid(text::digits(n, radix)),
        forall|i: int|
            0 <= i < text::digits(n, radix).len() ==> #[trigger] text::digits(n, radix)[i] != '+'
                && text::digits(n, radix)[i] != 'x',
        number(text::digits(n, radix), radix as int) == n,
    decreases n,
{
    let s = text::digits(n, radix);
    if n < radix {
        lemma_digit_is_read(n as int, radix as int);
        assert(s.drop_last() =~= Seq::<char>::empty());
        assert(number(s.drop_last(), radix as int) == 0);
        assert(0 * radix == 0);
    } else {
        assert(n / radix < n) by (nonlinear_arith)
            requires
                2 <= radix,
                n >= radix,
        ;
        lemma_digits_are_digits(n / radix, radix);
        vstd::arithmetic::div_mod::lemma_fundamental_div_mod(n as int, radix as int);
        vstd::arithmetic::div_mod::lemma_mod_bound(n as int, radix as int);
        lemma_digit_is_read((n % radix) as int, radix as int);
        let before = text::digits(n / radix, radix);
        assert(s.drop_last() =~= before);
        assert((n / radix) * radix == radix * (n / radix)) by (nonlinear_arith);
        assert forall|i: int| 0 <= i < s.len() implies digit_value(
            #[trigger] s[i],
            radix as int,
        ) is Some && !is_space(s[i]) && s[i] != '+' && s[i] != 'x' by {
            if i < before.len() {
                assert(s[i] == before[i]);
            }
        }
    }
}

/// A number that was written is read back, in any radix, where it does not exceed the limit.
pub proof fn law_a_written_number_is_read_back(n: nat, radix: nat, max: int)
    requires
        2 <= radix <= 16,
    ensures
        parsed(text::digits(n, radix), radix as int, max) == if n <= max {
            Some(n as int)
        } else {
            None
        },
{
    lemma_digits_are_digits(n, radix);
    assert(text::digits(n, radix)[0] != '+');
}

/// The value of a number is made digit by digit: a lower case letter is worth what its upper
/// case is, and only a text of digits is a number.
pub proof fn law_a_number_is_its_digits(s: Seq<char>, max: int)
    ensures
        digit_value('9', 10) == Some(9int),
        digit_value('a', 10) is None,
        digit_value('f', 16) == Some(15int),
        digit_value('F', 16) == digit_value('f', 16),
        digit_value('g', 16) is None,
        parsed(Seq::empty(), 10, max) is None,
        parsed(Seq::empty(), 16, max) is None,
        s.len() > 0 && s[0] != '+' ==> parsed(seq!['+'] + s, 16, max) == parsed(s, 16, max)
            && parsed(seq!['0'] + s, 16, max) == parsed(s, 16, max),
        (exists|i: int| 0 < i < s.len() && digit_value(#[trigger] s[i], 16) is None) ==> parsed(
            s,
            16,
            max,
        ) is None,
{
    if s.len() > 0 && s[0] != '+' {
        assert((seq!['+'] + s).drop_first() =~= s);
        let z = seq!['0'] + s;
        lemma_leading_zero(s);
        if all_digits(s, 16) {
            assert forall|i: int| 0 <= i < z.len() implies digit_value(#[trigger] z[i], 16) is Some by {
                if i > 0 {
                    assert(z[i] == s[i - 1]);
                }
            }
        }
        if all_digits(z, 16) {
            assert forall|i: int| 0 <= i < s.len() implies digit_value(#[trigger] s[i], 16) is Some by {
                assert(z[i + 1] == s[i]);
            }
        }
        assert(z[0] == '0');
    }
    if exists|i: int| 0 < i < s.len() && digit_value(#[trigger] s[i], 16) is None {
        let i = choose|i: int| 0 < i < s.len() && digit_value(#[trigger] s[i], 16) is None;
        if s[0] == '+' {
            assert(unsigned(s)[i - 1] == s[i]);
        }
        assert(!all_digits(unsigned(s), 16));
    }
}

proof fn lemma_leading_zero(s: Seq<char>)
    ensures
        number(seq!['0'] + s, 16) == number(s, 16),
    decreases s.len(),
{
    let z = seq!['0'] + s;
    if s.len() > 0 {
        assert(z.drop_last() =~= seq!['0'] + s.drop_last());
        assert(z.last() == s.last());
        lemma_leading_zero(s.drop_last());
    } else {
        assert(z.drop_last() =~= Seq::<char>::empty());
        assert(z.last() == '0');
        assert(number(z.drop_last(), 16) == 0);
    }
}

/// A cut at a pattern loses the pattern and nothing else, and is made where the pattern first
/// stands; without the pattern there is no cut.
pub proof fn law_a_cut_loses_only_the_pattern(s: Seq<char>, pat: Seq<char>)
    ensures
        match cut_at(s, pat) {
            Some((before, behind)) => {
                &&& s == before + pat + behind
                &&& up_to(s, pat) == before
                &&& forall|i: int|
                    0 <= i < before.len() ==> #[trigger] s.subrange(i, i + pat.len()) != pat
            },
            None => {
                &&& up_to(s, pat) == s
                &&& forall|i: int|
                    0 <= i <= s.len() - pat.len() ==> #[trigger] s.subrange(i, i + pat.len())
                        != pat
            },
        },
{
    law_a_search_finds_the_first(s, pat);
    if let Some((before, behind)) = cut_at(s, pat) {
        let k = find(s, pat)->0;
        assert(s =~= s.take(k) + s.subrange(k, k + pat.len()) + s.skip(k + pat.len()));
    }
}

/// What is dropped from the end of a text is the one character, over and over, and all of it.
pub proof fn law_dropping_ends_drops_only_them(s: Seq<char>, c: char, n: nat)
    requires
        s.len() > 0 ==> s.last() != c,
    ensures
        without_end(s + Seq::new(n, |i: int| c), c) == s,
    decreases n,
{
    let tail = Seq::new(n, |i: int| c);
    let all = s + tail;
    if n > 0 {
        let less = Seq::new((n - 1) as nat, |i: int| c);
        assert(all.last() == c);
        assert(all.drop_last() =~= s + less);
        law_dropping_ends_drops_only_them(s, c, (n - 1) as nat);
    } else {
        assert(all =~= s);
    }
}

/// What is dropped from the start of a text is the pattern, as often as it stands there.
pub proof fn law_dropping_starts_drops_only_them(pat: Seq<char>, s: Seq<char>)
    requires
        pat.len() > 0,
    ensures
        without_start(pat + s, pat) == without_start(s, pat),
        !(s.len() >= pat.len() && s.take(pat.len() as int) == pat) ==> without_start(s, pat) == s,
{
    let all = pat + s;
    assert(all.subrange(0, pat.len() as int) =~= pat);
    assert(all.skip(pat.len() as int) =~= s);
    if s.len() >= pat.len() {
        assert(s.subrange(0, pat.len() as int) =~= s.take(pat.len() as int));
    }
}

} // verus!
