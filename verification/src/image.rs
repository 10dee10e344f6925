use crate::lm::{parts_of, MessageContent, Part};
use crate::text::{contains, find_from, first_index, lemma_first_index, occurs_at, to_chars};
use vstd::prelude::*;

verus! {

/// The token that opens an image marker.
pub open spec fn image_open() -> Seq<char> {
    "<dars-img>"@
}

/// The token that closes an image marker.
pub open spec fn image_close() -> Seq<char> {
    "</dars-img>"@
}

/// An image, by its URL or its encoded data.
#[derive(Debug, Clone)]
pub struct Image {
    pub url: String,
}

impl Image {
    /// The image as it stands in a text: its URL between the two marker tokens.
    pub fn marker(&self) -> (r: String)
        ensures
            r@ == image_open() + self.url@ + image_close(),
    {
        let mut buf = String::new();
        buf.append("<dars-img>");
        buf.append(self.url.as_str());
        buf.append("</dars-img>");
        assert(buf@ =~= image_open() + self.url@ + image_close());
        buf
    }
}

/// A text piece for `text`, none where it is empty.
pub open spec fn text_part(text: Seq<char>) -> Seq<Part> {
    if text.len() == 0 {
        Seq::empty()
    } else {
        seq![Part::Text(text)]
    }
}

/// The pieces of a text that is read from left to right: each opening token that a
/// closing token follows makes an image of what stands between them, and every other
/// span, as long as it can be, is a text. An opening token that no closing token follows
/// is text like any other.
pub open spec fn marked_parts(text: Seq<char>) -> Seq<Part>
    decreases text.len(),
    via marked_parts_decreases
{
    match first_index(text, image_open()) {
        Some(open) => {
            let body = text.skip(open + image_open().len());
            match first_index(body, image_close()) {
                Some(close) => text_part(text.take(open)) + seq![Part::Image(body.take(close))]
                    + marked_parts(body.skip(close + image_close().len())),
                None => text_part(text),
            }
        },
        None => text_part(text),
    }
}

#[via_fn]
proof fn marked_parts_decreases(text: Seq<char>) {
    reveal_strlit("<dars-img>");
    lemma_first_index(text, image_open());
    if let Some(open) = first_index(text, image_open()) {
        lemma_first_index(text.skip(open + image_open().len()), image_close());
    }
}

/// The pieces into which a text block splits. A block without a complete marker is one
/// text piece, the empty block too.
pub open spec fn split_parts(text: Seq<char>) -> Seq<Part> {
    if text.len() == 0 {
        seq![Part::Text(text)]
    } else {
        marked_parts(text)
    }
}

impl Part {
    /// The span of the block that the piece was cut from: a text as it is, an image as
    /// its URL between the two marker tokens.
    pub open spec fn source(self) -> Seq<char> {
        match self {
            Part::Text(text) => text,
            Part::Image(url) => image_open() + url + image_close(),
        }
    }
}

/// The sources of the pieces, one after the other.
pub open spec fn joined_sources(parts: Seq<Part>) -> Seq<char>
    decreases parts.len(),
{
    if parts.len() == 0 {
        Seq::empty()
    } else {
        parts[0].source() + joined_sources(parts.skip(1))
    }
}

/// The sources of two lists of pieces, joined, are the joined sources of the one list
/// that holds both.
pub proof fn lemma_joined_sources_concat(a: Seq<Part>, b: Seq<Part>)
    ensures
        joined_sources(a + b) == joined_sources(a) + joined_sources(b),
    decreases a.len(),
{
    if a.len() == 0 {
        assert(a + b == b);
        assert(joined_sources(a) + joined_sources(b) =~= joined_sources(b));
    } else {
        assert((a + b).skip(1) == a.skip(1) + b);
        assert((a + b)[0] == a[0]);
        lemma_joined_sources_concat(a.skip(1), b);
        assert(joined_sources(a + b) =~= joined_sources(a) + joined_sources(b));
    }
}

proof fn lemma_text_part_source(text: Seq<char>)
    ensures
        joined_sources(text_part(text)) == text,
        joined_sources(seq![Part::Text(text)]) == text,
{
    let one = seq![Part::Text(text)];
    assert(one.skip(1) =~= Seq::empty());
    assert(joined_sources(one.skip(1)) =~= Seq::empty());
    assert(joined_sources(one) =~= text);
    if text.len() == 0 {
        assert(joined_sources(text_part(text)) =~= text);
    }
}

proof fn lemma_marked_parts_reconstruct(text: Seq<char>)
    ensures
        joined_sources(marked_parts(text)) == text,
    decreases text.len(),
{
    reveal_strlit("<dars-img>");
    lemma_first_index(text, image_open());
    lemma_text_part_source(text);
    if let Some(open) = first_index(text, image_open()) {
        let body = text.skip(open + image_open().len());
        lemma_first_index(body, image_close());
        if let Some(close) = first_index(body, image_close()) {
            let head = text.take(open);
            let image = seq![Part::Image(body.take(close))];
            let rest = body.skip(close + image_close().len());
            lemma_marked_parts_reconstruct(rest);
            lemma_joined_sources_concat(text_part(head) + image, marked_parts(rest));
            lemma_joined_sources_concat(text_part(head), image);
            lemma_text_part_source(head);
            assert(joined_sources(image) =~= image_open() + body.take(close) + image_close()) by {
                assert(image.skip(1) =~= Seq::empty());
                assert(joined_sources(image.skip(1)) =~= Seq::empty());
            }
            assert(text.subrange(open, open + image_open().len()) == image_open());
            assert(body.subrange(close, close + image_close().len()) == image_close());
            assert(text =~= head + image_open() + body.take(close) + image_close() + rest);
        }
    }
}

/// Splitting loses nothing and moves nothing: the sources of the pieces of a block, read
/// one after the other, are the block.
pub proof fn lemma_split_reconstructs(text: Seq<char>)
    ensures
        joined_sources(split_parts(text)) == text,
{
    if text.len() == 0 {
        lemma_text_part_source(text);
    } else {
        lemma_marked_parts_reconstruct(text);
    }
}

/// Whether none of the pieces is an empty text.
pub open spec fn no_empty_text(parts: Seq<Part>) -> bool {
    forall|i: int| 0 <= i < parts.len() ==> !((#[trigger] parts[i]) matches Part::Text(t) && t.len() == 0)
}

proof fn lemma_marked_parts_hold_text(text: Seq<char>)
    ensures
        no_empty_text(marked_parts(text)),
        text.len() > 0 ==> marked_parts(text).len() > 0,
    decreases text.len(),
{
    reveal_strlit("<dars-img>");
    lemma_first_index(text, image_open());
    if let Some(open) = first_index(text, image_open()) {
        let body = text.skip(open + image_open().len());
        lemma_first_index(body, image_close());
        if let Some(close) = first_index(body, image_close()) {
            lemma_marked_parts_hold_text(body.skip(close + image_close().len()));
        }
    }
}

/// A block splits into at least one piece, and a piece of text is empty only where the
/// block is.
pub proof fn lemma_split_parts_hold_text(text: Seq<char>)
    ensures
        split_parts(text).len() > 0,
        text.len() > 0 ==> no_empty_text(split_parts(text)),
{
    lemma_marked_parts_hold_text(text);
}

/// A block that lacks the opening token or the closing token is one text piece.
pub proof fn lemma_split_without_markers(text: Seq<char>)
    requires
        !contains(text, image_open()) || !contains(text, image_close()),
    ensures
        split_parts(text) == seq![Part::Text(text)],
{
    lemma_first_index(text, image_open());
    if let Some(open) = first_index(text, image_open()) {
        let skipped = open + image_open().len();
        let body = text.skip(skipped);
        lemma_first_index(body, image_close());
        if let Some(close) = first_index(body, image_close()) {
            assert(body.subrange(close, close + image_close().len()) == text.subrange(
                skipped + close,
                skipped + close + image_close().len(),
            ));
            assert(occurs_at(text, image_close(), skipped + close));
        }
    }
}

/// The text piece that holds `text[lo..hi]`.
fn text_content(text: &str, lo: usize, hi: usize) -> (r: MessageContent)
    requires
        lo <= hi <= text@.len(),
    ensures
        r@ == Part::Text(text@.subrange(lo as int, hi as int)),
{
    MessageContent::Text { text: text.substring_char(lo, hi).to_owned() }
}

/// Splits a text block into its pieces: an image for each complete marker, a text for
/// every other span. The sources of the pieces, read one after the other, are the block.
pub fn split_content(text: &str) -> (r: Vec<MessageContent>)
    ensures
        parts_of(r@) == split_parts(text@),
        joined_sources(parts_of(r@)) == text@,
{
    proof {
        lemma_split_reconstructs(text@);
    }
    let chars = to_chars(text);
    let open = to_chars("<dars-img>");
    let close = to_chars("</dars-img>");
    let n = chars.len();
    let mut parts: Vec<MessageContent> = Vec::new();
    if n == 0 {
        parts.push(text_content(text, 0, 0));
        assert(text@.subrange(0, 0) == text@);
        assert(parts_of(parts@) =~= split_parts(text@));
        return parts;
    }
    let mut pos: usize = 0;
    proof {
        reveal_strlit("<dars-img>");
        assert(text@.skip(0) == text@);
        assert(parts_of(parts@) + marked_parts(text@) =~= marked_parts(text@));
    }
    while pos < n
        invariant
            chars@ == text@,
            open@ == image_open(),
            close@ == image_close(),
            open@.len() == 10,
            n == chars@.len(),
            pos <= n,
            parts_of(parts@) + marked_parts(text@.skip(pos as int)) == marked_parts(text@),
        decreases n - pos,
    {
        let ghost rest = text@.skip(pos as int);
        let ghost done = parts_of(parts@);
        proof {
            lemma_first_index(rest, image_open());
        }
        let mut whole = true;
        match find_from(&chars, &open, pos) {
            Some(o) => {
                let body_start = o + open.len();
                let ghost body = rest.skip(o - pos + image_open().len());
                proof {
                    assert(body == text@.skip(body_start as int));
                    lemma_first_index(body, image_close());
                }
                match find_from(&chars, &close, body_start) {
                    Some(c) => {
                        whole = false;
                        if o > pos {
                            parts.push(text_content(text, pos, o));
                        }
                        parts.push(
                            MessageContent::Image {
                                url: text.substring_char(body_start, c).to_owned(),
                            },
                        );
                        proof {
                            assert(rest.take(o - pos) == text@.subrange(pos as int, o as int));
                            assert(body.take(c - body_start) == text@.subrange(
                                body_start as int,
                                c as int,
                            ));
                            assert(body.skip(c - body_start + image_close().len()) == text@.skip(
                                c + close@.len(),
                            ));
                            assert(parts_of(parts@) =~= done + text_part(rest.take(o - pos))
                                + seq![Part::Image(body.take(c - body_start))]);
                            assert(parts_of(parts@) + marked_parts(text@.skip(c + close@.len()))
                                =~= done + marked_parts(rest));
                        }
                        pos = c + close.len();
                    },
                    None => {},
                }
            },
            None => {},
        }
        if whole {
            parts.push(text_content(text, pos, n));
            proof {
                assert(rest == text@.subrange(pos as int, n as int));
                assert(marked_parts(rest) == text_part(rest));
                assert(parts_of(parts@) =~= done + text_part(rest));
                assert(text@.skip(n as int) =~= Seq::empty());
                lemma_first_index(text@.skip(n as int), image_open());
                assert(marked_parts(text@.skip(n as int)) =~= Seq::empty());
                assert(parts_of(parts@) + marked_parts(text@.skip(n as int)) =~= done
                    + marked_parts(rest));
            }
            pos = n;
        }
    }
    proof {
        assert(text@.skip(n as int) =~= Seq::empty());
        lemma_first_index(text@.skip(n as int), image_open());
        assert(marked_parts(text@.skip(n as int)) =~= Seq::empty());
        assert(parts_of(parts@) + Seq::<Part>::empty() =~= parts_of(parts@));
    }
    parts
}

} // verus!
