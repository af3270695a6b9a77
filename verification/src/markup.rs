//! Text in markup.
use vstd::prelude::*;

use crate::text::chars_of;

verus! {

/// A character as markup writes it.
pub open spec fn entity(c: char) -> Seq<char> {
    if c == '&' {
        "&amp;"@
    } else if c == '<' {
        "&lt;"@
    } else if c == '>' {
        "&gt;"@
    } else {
        seq![c]
    }
}

/// A text as markup writes it.
pub open spec fn escaped(text: Seq<char>) -> Seq<char>
    decreases text.len(),
{
    if text.len() == 0 {
        Seq::empty()
    } else {
        escaped(text.drop_last()) + entity(text.last())
    }
}

/// Writes a text so that markup shows it as it is.
pub fn escape(text: &str) -> (r: String)
    ensures
        r@ == escaped(text@),
{
    let s: Vec<char> = chars_of(text);
    let mut out: String = String::new();
    let mut i: usize = 0;
    assert(out@ =~= escaped(s@.take(0)));
    while i < s.len()
        invariant
            i <= s@.len(),
            s@ == text@,
            out@ == escaped(s@.take(i as int)),
        decreases s@.len() - i,
    {
        let c: char = s[i];
        assert(s@.take(i + 1).drop_last() =~= s@.take(i as int));
        let ghost before = out@;
        if c == '&' {
            out.append("&amp;");
        } else if c == '<' {
            out.append("&lt;");
        } else if c == '>' {
            out.append("&gt;");
        } else {
            out.push(c);
            assert(out@ =~= before + seq![c]);
        }
        i += 1;
    }
    assert(s@.take(i as int) =~= s@);
    out
}

/// An escaped text holds no angle bracket.
pub proof fn lemma_no_brackets(text: Seq<char>)
    ensures
        !escaped(text).contains('<'),
        !escaped(text).contains('>'),
    decreases text.len(),
{
    if text.len() > 0 {
        lemma_no_brackets(text.drop_last());
        let before = escaped(text.drop_last());
        let last = entity(text.last());
        reveal_strlit("&amp;");
        reveal_strlit("&lt;");
        reveal_strlit("&gt;");
        assert(!last.contains('<') && !last.contains('>'));
        assert forall|c: char| (before + last).contains(c) implies before.contains(c)
            || last.contains(c) by {
            let i = (before + last).index_of(c);
            if i < before.len() {
                assert(before[i] == c);
            } else {
                assert(last[i - before.len()] == c);
            }
        }
    }
}

} // verus!
