use crate::json::Json;
use crate::schema::schema_json;
use crate::text::{decimal, push_decimal};
use crate::{Error, ErrorView};
use vstd::prelude::*;

verus! {

/// The schema that an optional reference to a schema stands for.
pub open spec fn schema_view(schema: Option<&schemars::Schema>) -> Option<Json> {
    match schema {
        Some(s) => Some(schema_json(*s)),
        None => None,
    }
}

/// The reply of a language model as a mathematical value.
pub open spec fn reply_view(reply: Result<String, Error>) -> Result<Seq<char>, ErrorView> {
    match reply {
        Ok(text) => Ok(text@),
        Err(e) => Err(e@),
    }
}

/// The messages as mathematical values.
pub open spec fn turns_of(messages: Seq<Message>) -> Seq<Turn> {
    Seq::new(messages.len(), |i: int| messages[i]@)
}

/// A language model that answers while its caller waits.
pub trait LM {
    /// Whether the model may give `reply` when it is called with `messages` under
    /// `schema`. Unless a model says otherwise, it may give any reply: it may fail, and
    /// what it answers need not follow the schema.
    open spec fn replies(
        &self,
        messages: Seq<Turn>,
        schema: Option<Json>,
        reply: Result<Seq<char>, ErrorView>,
    ) -> bool {
        true
    }

    /// Calls the model with the given messages and, where there is one, the schema that
    /// its reply is to follow. The reply is one that the model may give.
    fn call(&self, message: Vec<Message>, schema: Option<&schemars::Schema>) -> (r: Result<
        String,
        Error,
    >)
        ensures
            self.replies(turns_of(message@), schema_view(schema), reply_view(r)),
    ;
}

/// One piece of a message, as a mathematical value: a span of text, or an image by its
/// URL.
pub enum Part {
    Text(Seq<char>),
    Image(Seq<char>),
}

/// A message as a mathematical value.
pub enum Turn {
    System(Seq<char>),
    User(Seq<Part>),
    Assistant(Part),
}

/// One piece of a message: a span of text, or an image by its URL.
#[derive(Debug, Clone, PartialEq)]
pub enum MessageContent {
    Text { text: String },
    Image { url: String },
}

/// A message of a conversation with a language model.
#[derive(Debug, Clone)]
#[allow(inconsistent_fields)]
pub enum Message {
    System { instruction: String },
    User { content: Vec<MessageContent> },
    Assistant { content: MessageContent },
}

impl View for MessageContent {
    type V = Part;

    open spec fn view(&self) -> Part {
        match self {
            MessageContent::Text { text } => Part::Text(text@),
            MessageContent::Image { url } => Part::Image(url@),
        }
    }
}

/// The pieces that a list of message contents stands for.
pub open spec fn parts_of(content: Seq<MessageContent>) -> Seq<Part> {
    Seq::new(content.len(), |i: int| content[i]@)
}

impl View for Message {
    type V = Turn;

    open spec fn view(&self) -> Turn {
        match self {
            Message::System { instruction } => Turn::System(instruction@),
            Message::User { content } => Turn::User(parts_of(content@)),
            Message::Assistant { content } => Turn::Assistant(content@),
        }
    }
}

impl Part {
    /// How the piece reads in a transcript: a text as it is, an image as the length of
    /// its URL in bytes.
    pub open spec fn display(self) -> Seq<char> {
        match self {
            Part::Text(text) => text,
            Part::Image(url) => "<image len="@ + decimal(vstd::utf8::encode_utf8(url).len()) + ">"@,
        }
    }
}

/// The pieces of a user message as they read in a transcript, a line feed after each.
pub open spec fn display_lines(parts: Seq<Part>) -> Seq<char>
    decreases parts.len(),
{
    if parts.len() == 0 {
        Seq::empty()
    } else {
        display_lines(parts.drop_last()) + parts.last().display() + "\n"@
    }
}

impl Turn {
    /// How the message reads in a transcript: the speaker on a line of its own, then what
    /// was said.
    pub open spec fn display(self) -> Seq<char> {
        match self {
            Turn::System(instruction) => "System:\n"@ + instruction,
            Turn::User(parts) => "User:\n"@ + display_lines(parts),
            Turn::Assistant(part) => "Assistant:\n"@ + part.display(),
        }
    }
}

impl MessageContent {
    /// Appends to `buf` how the piece reads in a transcript.
    pub fn write_to(&self, buf: &mut String)
        ensures
            final(buf)@ == old(buf)@ + self@.display(),
    {
        match self {
            MessageContent::Text { text } => {
                buf.append(text.as_str());
            },
            MessageContent::Image { url } => {
                buf.append("<image len=");
                push_decimal(buf, url.as_str().as_bytes().len());
                buf.append(">");
                assert(final(buf)@ =~= old(buf)@ + self@.display());
            },
        }
    }

    /// How the piece reads in a transcript.
    pub fn to_text(&self) -> (r: String)
        ensures
            r@ == self@.display(),
    {
        let mut buf = String::new();
        self.write_to(&mut buf);
        assert(buf@ =~= self@.display());
        buf
    }
}

impl Message {
    /// How the message reads in a transcript.
    pub fn to_text(&self) -> (r: String)
        ensures
            r@ == self@.display(),
    {
        let mut buf = String::new();
        match self {
            Message::System { instruction } => {
                buf.append("System:\n");
                buf.append(instruction.as_str());
                assert(buf@ =~= self@.display());
            },
            Message::User { content } => {
                buf.append("User:\n");
                let mut i: usize = 0;
                assert(parts_of(content@).take(0) =~= Seq::empty());
                while i < content.len()
                    invariant
                        i <= content@.len(),
                        buf@ == "User:\n"@ + display_lines(parts_of(content@).take(i as int)),
                    decreases content@.len() - i,
                {
                    let ghost before = buf@;
                    content[i].write_to(&mut buf);
                    buf.append("\n");
                    proof {
                        let head = parts_of(content@).take(i + 1);
                        assert(head.drop_last() == parts_of(content@).take(i as int));
                        assert(head.last() == content@[i as int]@);
                        assert(buf@ =~= "User:\n"@ + display_lines(head));
                    }
                    i += 1;
                }
                assert(parts_of(content@).take(i as int) == parts_of(content@));
            },
            Message::Assistant { content } => {
                buf.append("Assistant:\n");
                content.write_to(&mut buf);
                assert(buf@ =~= self@.display());
            },
        }
        buf
    }
}

} // verus!
