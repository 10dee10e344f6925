use dars::{Message, MessageContent};

fn text(s: &str) -> MessageContent {
    MessageContent::Text {
        text: s.to_string(),
    }
}

fn image(s: &str) -> MessageContent {
    MessageContent::Image { url: s.to_string() }
}

#[test]
fn text_reads_as_it_is() {
    assert_eq!(text("hello\nworld").to_text(), "hello\nworld");
    assert_eq!(text("").to_text(), "");
}

#[test]
fn image_reads_as_its_length_in_bytes() {
    assert_eq!(image("http://a/1.png").to_text(), "<image len=14>");
    assert_eq!(image("").to_text(), "<image len=0>");
    assert_eq!(image("é").to_text(), "<image len=2>");
}

#[test]
fn content_is_appended() {
    let mut buf = String::from("> ");
    text("a").write_to(&mut buf);
    image("bcd").write_to(&mut buf);
    assert_eq!(buf, "> a<image len=3>");
}

#[test]
fn system_message_reads_under_its_speaker() {
    let message = Message::System {
        instruction: "Be brief.".to_string(),
    };
    assert_eq!(message.to_text(), "System:\nBe brief.");
}

#[test]
fn user_message_reads_one_part_a_line() {
    let message = Message::User {
        content: vec![text("look:"), image("0123456789"), text("done")],
    };
    assert_eq!(message.to_text(), "User:\nlook:\n<image len=10>\ndone\n");
    let empty = Message::User { content: vec![] };
    assert_eq!(empty.to_text(), "User:\n");
}

#[test]
fn assistant_message_reads_under_its_speaker() {
    let message = Message::Assistant {
        content: text("{\"answer\":\"ok\"}"),
    };
    assert_eq!(message.to_text(), "Assistant:\n{\"answer\":\"ok\"}");
    let picture = Message::Assistant {
        content: image("ab"),
    };
    assert_eq!(picture.to_text(), "Assistant:\n<image len=2>");
}
