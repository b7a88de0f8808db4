//! Removal of the markup that the dictionary service leaves in its text.
use vstd::prelude::*;

verus! {

broadcast use vstd::string::axiom_spec_iter;

/// The characters that the service uses for cross references and line
/// structure, and that never reach the display.
pub open spec fn is_markup(c: char) -> bool {
    c == '[' || c == ']' || c == '\r' || c == '\n'
}

/// Whether a character survives sanitizing.
pub open spec fn is_kept(c: char) -> bool {
    !is_markup(c)
}

/// The text with every markup character removed and the rest kept in order.
pub open spec fn sanitized(s: Seq<char>) -> Seq<char> {
    s.filter(|c: char| is_kept(c))
}

/// Relies on `String::push`: the character is appended at the end.
pub assume_specification[ String::push ](s: &mut String, ch: char)
    ensures
        final(s)@ == old(s)@.push(ch),
;

/// Removes every `[`, `]`, carriage return and line feed from `text`.
pub fn sanitize(text: &str) -> (r: String)
    ensures
        r@ == sanitized(text@),
{
    let mut out = String::new();
    for c in it: text.chars()
        invariant
            it.seq() == text@,
            out@ == sanitized(text@.take(it.index() as int)),
    {
        proof {
            let i = it.index() as int;
            let t = text@.take(i + 1);
            assert(t.drop_last() =~= text@.take(i));
            assert(t.last() == c);
            reveal(Seq::filter);
        }
        if c != '[' && c != ']' && c != '\r' && c != '\n' {
            out.push(c);
        }
    }
    proof {
        assert(text@.take(text@.len() as int) =~= text@);
    }
    out
}

/// Sanitized text holds no markup character.
pub proof fn lemma_sanitized_has_no_markup(s: Seq<char>)
    ensures
        forall|i: int| 0 <= i < sanitized(s).len() ==> !is_markup(#[trigger] sanitized(s)[i]),
{
    broadcast use vstd::seq_lib::group_filter_ensures;


}

/// Sanitizing text that is already sanitized changes nothing.
pub proof fn lemma_sanitize_idempotent(s: Seq<char>)
    ensures
        sanitized(sanitized(s)) == sanitized(s),
    decreases s.len(),
{
    reveal(Seq::filter);
    if s.len() > 0 {
        lemma_sanitize_idempotent(s.drop_last());
        if is_kept(s.last()) {
            let d = sanitized(s.drop_last());
            assert(sanitized(s) == d.push(s.last()));
            assert(d.push(s.last()).drop_last() =~= d);
        }
    }
}

} // verus!
