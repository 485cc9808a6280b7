//! Text inside markup.

use vstd::prelude::*;

use crate::text;

verus! {

/// A character inside markup.
pub open spec fn entity(c: char) -> Seq<char> {
    if c == '&' {
        "&amp;"@
    } else if c == '<' {
        "&lt;"@
    } else if c == '>' {
        "&gt;"@
    } else {
        seq![c]
    }
}

/// Text inside markup.
pub open spec fn escaped(s: Seq<char>) -> Seq<char>
    decreases s.len(),
{
    if s.len() == 0 {
        Seq::empty()
    } else {
        escaped(s.drop_last()) + entity(s.last())
    }
}

/// The text as it can stand inside markup.
#[must_use]
pub fn esc(s: &str) -> (r: String)
    ensures
        r@ == escaped(s@),
{
    let chars = text::chars_of(s);
    let mut out = String::new();
    let mut i: usize = 0;
    while i < chars.len()
        invariant
            i <= chars@.len(),
            out@ == escaped(chars@.take(i as int)),
        decreases chars.len() - i,
    {
        let ghost before = out@;
        let c = chars[i];
        if c == '&' {
            out.append("&amp;");
        } else if c == '<' {
            out.append("&lt;");
        } else if c == '>' {
            out.append("&gt;");
        } else {
            out.push(c);
        }
        proof {
            assert(chars@.take(i + 1).drop_last() =~= chars@.take(i as int));
            assert(out@ =~= before + entity(c));
        }
        i += 1;
    }
    assert(chars@.take(i as int) =~= chars@);
    out
}

/// No text opens or closes a tag: what stands inside markup holds no angle bracket.
pub proof fn law_no_text_is_a_tag(s: Seq<char>, i: int)
    requires
        0 <= i < escaped(s).len(),
    ensures
        escaped(s)[i] != '<',
        escaped(s)[i] != '>',
    decreases s.len(),
{
    reveal_strlit("&amp;");
    reveal_strlit("&lt;");
    reveal_strlit("&gt;");
    let before = escaped(s.drop_last());
    if i < before.len() {
        law_no_text_is_a_tag(s.drop_last(), i);
    } else {
        assert(escaped(s)[i] == entity(s.last())[i - before.len()]);
    }
}

/// Text is escaped character by character: an ampersand and the two angle brackets by name,
/// anything else as it is, in order.
pub proof fn law_text_is_escaped_character_by_character(a: Seq<char>, c: char, b: Seq<char>)
    ensures
        escaped(Seq::empty()) == Seq::<char>::empty(),
        escaped(a + seq![c] + b) == escaped(a) + (if c == '<' {
            "&lt;"@
        } else if c == '>' {
            "&gt;"@
        } else if c == '&' {
            "&amp;"@
        } else {
            seq![c]
        }) + escaped(b),
    decreases b.len(),
{
    let s = a + seq![c] + b;
    if b.len() == 0 {
        assert(s.drop_last() =~= a);
        assert(escaped(s) =~= escaped(a) + entity(c) + escaped(b));
    } else {
        law_text_is_escaped_character_by_character(a, c, b.drop_last());
        assert(s.drop_last() =~= a + seq![c] + b.drop_last());
        assert(escaped(s) =~= escaped(a) + entity(c) + escaped(b));
    }
}

} // verus!
