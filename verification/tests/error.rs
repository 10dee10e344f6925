use dars::{Cause, Error};

#[test]
fn causes_read_in_words() {
    assert_eq!(
        Cause::Json("expected value at line 1 column 1".to_string()).to_text(),
        "serde_json: expected value at line 1 column 1"
    );
    assert_eq!(Cause::Shape.to_text(), "not of the shape that was asked for");
    assert_eq!(Cause::Duplicate.to_text(), "the name is taken");
}

#[test]
fn errors_say_where_they_arose() {
    assert_eq!(
        Error::Format(Cause::Shape).to_text(),
        "format: not of the shape that was asked for"
    );
    assert_eq!(
        Error::Format(Cause::Duplicate).to_text(),
        "format: the name is taken"
    );
    assert_eq!(
        Error::Backend("rate limit".to_string()).to_text(),
        "backend: rate limit"
    );
    assert_eq!(
        Error::Decode(Cause::Json("EOF while parsing an object".to_string())).to_text(),
        "decode: serde_json: EOF while parsing an object"
    );
    assert_eq!(Error::Backend(String::new()).to_text(), "backend: ");
}
