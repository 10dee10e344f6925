use crate::text::{contains, find_from, first_index, lemma_first_index, to_chars};
use vstd::prelude::*;

verus! {

/// The tag that opens a span of reasoning in a reply.
pub open spec fn reasoning_open() -> Seq<char> {
    "<think>"@
}

/// The tag that closes a span of reasoning in a reply.
pub open spec fn reasoning_close() -> Seq<char> {
    "</think>"@
}

/// The reply without its span of reasoning: where the first closing tag does not stand
/// before the first opening tag, all from the one through the other is left out. A text
/// that lacks either tag, or holds them the other way round, stays as it is.
pub open spec fn strip_reasoning(text: Seq<char>) -> Seq<char> {
    match (first_index(text, reasoning_open()), first_index(text, reasoning_close())) {
        (Some(open), Some(close)) => if close >= open {
            text.take(open) + text.skip(close + reasoning_close().len())
        } else {
            text
        },
        _ => text,
    }
}

/// A text that lacks the opening tag or the closing tag is left as it is.
pub proof fn lemma_strip_without_tags(text: Seq<char>)
    requires
        !contains(text, reasoning_open()) || !contains(text, reasoning_close()),
    ensures
        strip_reasoning(text) == text,
{
    lemma_first_index(text, reasoning_open());
    lemma_first_index(text, reasoning_close());
}

/// The reply without its span of reasoning.
pub fn strip_reasoning_span(text: &str) -> (r: String)
    ensures
        r@ == strip_reasoning(text@),
{
    let chars = to_chars(text);
    let open_tag = to_chars("<think>");
    let close_tag = to_chars("</think>");
    let n = chars.len();
    assert(text@.skip(0) == text@);
    assert(text@.subrange(0, n as int) == text@);
    match (find_from(&chars, &open_tag, 0), find_from(&chars, &close_tag, 0)) {
        (Some(open), Some(close)) => {
            if close >= open {
                let mut out = text.substring_char(0, open).to_owned();
                let after = close + close_tag.len();
                out.append(text.substring_char(after, n));
                assert(text@.skip(after as int) == text@.subrange(after as int, n as int));
                out
            } else {
                text.to_owned()
            }
        },
        _ => text.to_owned(),
    }
}

} // verus!
