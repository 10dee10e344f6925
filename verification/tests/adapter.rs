use dars::adapter::reasoning::strip_reasoning_span;
use dars::adapter::Adapter;
use dars::{
    fmt_type, Cause, Error, Instruction, JsonAdapter, Message, MessageContent, Model, Signature,
};
use schemars::Schema;
use serde_json::Value;

fn json(text: &str) -> Value {
    serde_json::from_str(text).unwrap()
}

fn schema(text: &str) -> Schema {
    Schema::try_from(json(text)).unwrap()
}

fn described(text: &str) -> String {
    let mut buf = String::new();
    fmt_type(&json(text), &mut buf);
    buf
}

fn question_answer() -> Signature {
    let input = Model::new(schema(
        r#"{"type":"object","properties":{"question":{"type":"string"}},"required":["question"]}"#,
    ))
    .with_field("question", None, Some(schema(r#"{"type":"string"}"#)))
    .unwrap();
    let output = Model::new(schema(
        r#"{"type":"object","properties":{"answer":{"type":"string"}},"required":["answer"]}"#,
    ))
    .with_field("answer", Some("the reply"), Some(schema(r#"{"type":"string"}"#)))
    .unwrap();
    Signature::new(input, output)
}

fn plan() -> Signature {
    let step = r##"{"type":"object","properties":{"id":{"description":"foobarbaz","type":"integer","format":"uint16","minimum":0,"maximum":65535},"dependencies":{"description":"The step dependencies","type":"array","items":{"type":"integer","format":"uint16"}}},"required":["id","dependencies"]}"##;
    let input = Model::new(schema(
        r#"{"type":"object","properties":{"question":{"type":"string"},"previous_steps":{"type":"array","items":{"type":"integer"}}},"required":["question","previous_steps"]}"#,
    ))
    .with_field("question", None, Some(schema(r#"{"type":"string"}"#)))
    .unwrap()
    .with_field(
        "previous_steps",
        None,
        Some(schema(r#"{"type":"array","items":{"type":"integer","format":"uint","minimum":0}}"#)),
    )
    .unwrap();
    let output = Model::new(schema(&format!(
        r##"{{"type":"object","properties":{{"steps":{{"type":"array","items":{{"$ref":"#/$defs/Step"}}}},"done":{{"type":"boolean"}}}},"required":["steps"],"$defs":{{"Step":{}}}}}"##,
        step
    )))
    .with_field(
        "steps",
        Some("Plan steps to answer the question"),
        Some(schema(&format!(
            r##"{{"type":"array","items":{{"$ref":"#/$defs/Step"}},"$defs":{{"Step":{}}}}}"##,
            step
        ))),
    )
    .unwrap()
    .with_field("done", None, None)
    .unwrap();
    Signature::new(input, output)
        .with_instruction(Instruction::parse(&["  This is my instruction  "]))
}

fn system_text(message: &Message) -> &str {
    match message {
        Message::System { instruction } => instruction,
        _ => panic!("the first message is the system message"),
    }
}

fn user_parts(message: &Message) -> &Vec<MessageContent> {
    match message {
        Message::User { content } => content,
        _ => panic!("the second message is the user message"),
    }
}

fn text(s: &str) -> MessageContent {
    MessageContent::Text {
        text: s.to_string(),
    }
}

fn image(s: &str) -> MessageContent {
    MessageContent::Image { url: s.to_string() }
}

#[test]
fn scalar_keywords_stand_for_themselves() {
    assert_eq!(described(r#"{"type":"null"}"#), "null");
    assert_eq!(described(r#"{"type":"boolean"}"#), "boolean");
    assert_eq!(described(r#"{"type":"string"}"#), "string");
    assert_eq!(described(r#"{"type":"integer","format":"int32"}"#), "integer");
    assert_eq!(described(r#"{"type":"number"}"#), "number");
}

#[test]
fn arrays_are_lists() {
    assert_eq!(described(r#"{"type":"array","items":{"type":"string"}}"#), "list[string]");
    assert_eq!(
        described(r#"{"type":"array","items":{"type":"array","items":{"type":"number"}}}"#),
        "list[list[number]]"
    );
    assert_eq!(described(r##"{"type":"array","items":{"$ref":"#/$defs/Step"}}"##), "list[Step]");
    assert_eq!(described(r#"{"type":"array"}"#), "list[]");
    assert_eq!(described(r#"{"type":"array","items":{}}"#), "list[]");
    assert_eq!(described(r#"{"type":"array","items":true}"#), "list[]");
}

#[test]
fn objects_list_their_properties() {
    assert_eq!(
        described(
            r#"{"type":"object","properties":{"a":{"type":"string"},"b":{"type":"array","items":{"type":"integer"}}}}"#
        ),
        "{a: string,b: list[integer]}"
    );
    assert_eq!(described(r#"{"type":"object","properties":{}}"#), "{}");
    assert_eq!(described(r#"{"type":"object"}"#), "{}");
    assert_eq!(described(r#"{"type":"object","properties":[1]}"#), "{}");
    assert_eq!(
        described(r##"{"type":"object","properties":{"s":{"$ref":"#/$defs/Step"},"t":{}}}"##),
        "{s: Step,t: }"
    );
}

#[test]
fn references_go_by_their_last_segment() {
    assert_eq!(described(r##"{"$ref":"#/$defs/Step"}"##), "Step");
    assert_eq!(described(r#"{"$ref":"Step"}"#), "Step");
    assert_eq!(described(r##"{"$ref":"#/$defs/"}"##), "");
    assert_eq!(described(r#"{"$ref":7}"#), "");
    assert_eq!(described(r##"{"type":"string","$ref":"#/$defs/Step"}"##), "string");
}

#[test]
fn other_schemas_are_empty() {
    assert_eq!(described(r#"{}"#), "");
    assert_eq!(described(r#"true"#), "");
    assert_eq!(described(r#""string""#), "");
    assert_eq!(described(r#"{"type":"tuple"}"#), "");
    assert_eq!(described(r#"{"type":["string","null"]}"#), "");
    assert_eq!(described(r#"{"anyOf":[{"type":"string"}]}"#), "");
}

#[test]
fn descriptor_is_appended() {
    let mut buf = String::from("x: ");
    fmt_type(&json(r#"{"type":"array","items":{"type":"boolean"}}"#), &mut buf);
    assert_eq!(buf, "x: list[boolean]");
}

#[test]
fn question_answer_prompt() {
    let adapter = JsonAdapter::new(question_answer());
    let (messages, schema) = adapter.format(&json(r#"{"question":"2+2?"}"#)).unwrap();
    assert_eq!(messages.len(), 2);
    let system = system_text(&messages[0]);
    assert!(system.contains("1. `question` (string):"));
    assert!(system.contains("Given the fields `question`, produce the fields `answer`."));
    assert_eq!(
        system,
        "Your input fields are:\n\
         1. `question` (string): \n\
         \n\
         Your output fields are:\n\
         1. `answer` (string): the reply\n\
         All interactions will be structured in the following way, with the appropriate values filled in.\n\
         \n\
         Inputs will have the following structure:\n\
         \n\
         [[ ## question ## ]]\n\
         {question}\n\
         \n\
         Outputs will be a JSON object with the following fields.\n\
         {\n\
         \t\"answer\": \"{answer} # note: value must adhere to JSON schema: {\"type\":\"string\"}\"\n\
         }\n\
         In adhering to this structure, your objective is:\n\
         Given the fields `question`, produce the fields `answer`."
    );
    assert_eq!(
        user_parts(&messages[1]),
        &vec![text("[[ ## question ## ]]\n\"2+2?\"")]
    );
    assert_eq!(schema, Some(adapter.signature().output_schema()));
}

#[test]
fn plan_prompt() {
    let adapter = JsonAdapter::new(plan());
    let message = adapter.format_system_message();
    let step = r##"{"type":"array","items":{"$ref":"#/$defs/Step"},"$defs":{"Step":{"type":"object","properties":{"dependencies":{"description":"The step dependencies","type":"array","items":{"type":"integer","format":"uint16"}},"id":{"description":"foobarbaz","type":"integer","format":"uint16","maximum":65535,"minimum":0}},"required":["id","dependencies"]}}}"##;
    assert_eq!(
        system_text(&message),
        format!(
            "Your input fields are:\n\
             1. `question` (string): \n\
             2. `previous_steps` (list[integer]): \n\
             \n\
             Your output fields are:\n\
             1. `steps` (list[Step]): Plan steps to answer the question\n\
             2. `done` (): \n\
             All interactions will be structured in the following way, with the appropriate values filled in.\n\
             \n\
             Inputs will have the following structure:\n\
             \n\
             [[ ## question ## ]]\n\
             {{question}}\n\
             \n\
             [[ ## previous_steps ## ]]\n\
             {{previous_steps}}\n\
             \n\
             Outputs will be a JSON object with the following fields.\n\
             {{\n\
             \t\"steps\": \"{{steps}} # note: value must adhere to JSON schema: {}\",\n\
             \t\"done\": \"{{done}}\"\n\
             }}\n\
             In adhering to this structure, your objective is:\n\
             This is my instruction",
            step
        )
    );
}

#[test]
fn fields_are_numbered_in_declared_order() {
    let mut input = Model::new(schema(r#"{"type":"object"}"#));
    let names = [
        "k", "j", "i", "h", "g", "f", "e", "d", "c", "b", "a", "z",
    ];
    for name in names {
        input = input
            .with_field(name, None, Some(schema(r#"{"type":"number"}"#)))
            .unwrap();
    }
    let sig = Signature::new(input, Model::new(schema(r#"{"type":"object"}"#)));
    let adapter = JsonAdapter::new(sig);
    let message = adapter.format_system_message();
    let system = system_text(&message);
    let mut expected = String::from("Your input fields are:\n");
    for (i, field) in adapter.signature().input_fields().iter().enumerate() {
        assert_eq!(field.name, names[i]);
        expected += &format!("{}. `{}` (number): \n", i + 1, field.name);
    }
    expected += "\nYour output fields are:\nAll interactions";
    assert!(system.starts_with(&expected));
    assert!(system.ends_with(
        "Given the fields `k`, `j`, `i`, `h`, `g`, `f`, `e`, `d`, `c`, `b`, `a`, `z`, produce the fields ."
    ));
}

#[test]
fn blank_instruction_yields_empty_objective() {
    let sig = question_answer();
    let adapter = JsonAdapter::new(sig.with_instruction(Instruction::parse(&[" \n "])));
    let message = adapter.format_system_message();
    assert!(system_text(&message)
        .ends_with("your objective is:\nGiven the fields `question`, produce the fields `answer`."));
}

#[test]
fn user_message_lists_declared_fields() {
    let adapter = JsonAdapter::new(plan());
    let message = adapter
        .format_input(&json(
            r#"{"previous_steps":[1,2,3],"question":"Hi how are you?","extra":true}"#,
        ))
        .unwrap();
    assert_eq!(
        user_parts(&message),
        &vec![text(
            "[[ ## question ## ]]\n\"Hi how are you?\"\n\n[[ ## previous_steps ## ]]\n[1,2,3]"
        )]
    );
}

#[test]
fn missing_input_leaves_the_header() {
    let adapter = JsonAdapter::new(plan());
    let message = adapter.format_input(&json(r#"{"previous_steps":null}"#)).unwrap();
    assert_eq!(
        user_parts(&message),
        &vec![text("[[ ## question ## ]]\n\n[[ ## previous_steps ## ]]\nnull")]
    );
}

#[test]
fn no_input_fields_give_one_empty_text() {
    let adapter = JsonAdapter::new(Signature::new(
        Model::new(schema(r#"{"type":"object"}"#)),
        Model::new(schema(r#"{"type":"object"}"#)),
    ));
    let message = adapter.format_input(&json(r#"{"a":1}"#)).unwrap();
    assert_eq!(user_parts(&message), &vec![text("")]);
}

#[test]
fn images_in_the_input_become_parts() {
    let input = Model::new(schema(r#"{"type":"object"}"#))
        .with_field("caption", None, Some(schema(r#"{"type":"string"}"#)))
        .unwrap()
        .with_field("photo", None, Some(schema(r#"{"type":"string"}"#)))
        .unwrap();
    let adapter = JsonAdapter::new(Signature::new(
        input,
        Model::new(schema(r#"{"type":"object"}"#)),
    ));
    let photo = dars::Image {
        url: "https://example.com/cat.png".to_string(),
    };
    let mut object = serde_json::Map::new();
    object.insert("caption".to_string(), Value::String("a cat".to_string()));
    object.insert("photo".to_string(), Value::String(photo.marker()));
    let message = adapter.format_input(&Value::Object(object)).unwrap();
    assert_eq!(
        user_parts(&message),
        &vec![
            text("[[ ## caption ## ]]\n\"a cat\"\n\n[[ ## photo ## ]]\n\""),
            image("https://example.com/cat.png"),
            text("\""),
        ]
    );
}

#[test]
fn input_that_is_no_object_is_a_format_error() {
    let adapter = JsonAdapter::new(question_answer());
    for input in ["null", "true", "3", "\"question\"", "[{\"question\":\"2+2?\"}]"] {
        assert!(matches!(
            adapter.format_input(&json(input)),
            Err(Error::Format(Cause::Shape))
        ));
        assert!(matches!(
            adapter.format(&json(input)),
            Err(Error::Format(Cause::Shape))
        ));
    }
}

#[test]
fn reasoning_span_is_stripped() {
    assert_eq!(strip_reasoning_span("<think>scratch</think>{\"answer\":\"ok\"}"), "{\"answer\":\"ok\"}");
    assert_eq!(strip_reasoning_span("a<think>b</think>c"), "ac");
    assert_eq!(strip_reasoning_span("<think></think>"), "");
    assert_eq!(strip_reasoning_span("a<think>b</think>c<think>d</think>e"), "ac<think>d</think>e");
    assert_eq!(strip_reasoning_span("a<think>b<think>c</think>d</think>e"), "ad</think>e");
}

#[test]
fn text_without_a_span_is_left_alone() {
    for text in [
        "",
        "{\"answer\":\"ok\"}",
        "<think>never closed",
        "never opened</think>",
        "</think>reversed<think>",
        "</think>a<think>b</think>",
        "<thinks>a</thinks>",
    ] {
        assert_eq!(strip_reasoning_span(text), text);
    }
}

#[test]
fn parse_strips_reasoning() {
    let adapter = JsonAdapter::new(question_answer());
    let out = adapter
        .parse("<think>scratch</think>{\"answer\":\"ok\"}".to_string())
        .unwrap();
    assert_eq!(out, json(r#"{"answer":"ok"}"#));
}

#[test]
fn parse_rejects_a_wrong_type() {
    let adapter = JsonAdapter::new(question_answer());
    let err = adapter.parse("{\"answer\": 5}".to_string()).unwrap_err();
    assert!(matches!(err, Error::Decode(Cause::Shape)));
}

#[test]
fn parse_rejects_a_missing_field() {
    let adapter = JsonAdapter::new(question_answer());
    let err = adapter.parse("{\"reply\": \"ok\"}".to_string()).unwrap_err();
    assert!(matches!(err, Error::Decode(Cause::Shape)));
}

#[test]
fn parse_rejects_what_is_no_json() {
    let adapter = JsonAdapter::new(question_answer());
    for reply in ["", "answer: ok", "{\"answer\":\"ok\"", "{\"answer\":\"ok\"} and more", "<think>{\"answer\":\"ok\"}</think>"] {
        match adapter.parse(reply.to_string()) {
            Err(Error::Decode(Cause::Json(report))) => assert!(!report.is_empty()),
            other => panic!("expected a decode error, got {:?}", other),
        }
    }
}

#[test]
fn parse_returns_what_was_serialized() {
    let adapter = JsonAdapter::new(plan());
    for text in [
        r#"{"steps":[]}"#,
        r#"{"done":true,"steps":[{"dependencies":[],"id":1},{"dependencies":[1],"id":2}]}"#,
        r#"{"note":"extra members stay","steps":[{"dependencies":[1,2],"id":3,"why":null}]}"#,
    ] {
        let value = json(text);
        let out = adapter.parse(value.to_string()).unwrap();
        assert_eq!(out, value);
        assert_eq!(out.to_string(), text);
    }
}

#[test]
fn parse_follows_references() {
    let adapter = JsonAdapter::new(plan());
    for reply in [
        r#"{"steps":[{"id":1}]}"#,
        r#"{"steps":[{"id":"1","dependencies":[]}]}"#,
        r#"{"steps":[{"id":1,"dependencies":[1.5]}]}"#,
        r#"{"steps":[{"id":1,"dependencies":[]},7]}"#,
        r#"{"steps":{"id":1,"dependencies":[]}}"#,
        r#"{"steps":[],"done":"yes"}"#,
        r#"[]"#,
    ] {
        let err = adapter.parse(reply.to_string()).unwrap_err();
        assert!(matches!(err, Error::Decode(Cause::Shape)));
    }
}

#[test]
fn check_takes_the_decoder_at_its_word() {
    let adapter = JsonAdapter::new(question_answer());
    let value = json(r#"{"answer":"ok"}"#);
    assert_eq!(adapter.check(Ok(value.clone())).unwrap(), value);
    assert!(matches!(
        adapter.check(Ok(json(r#"{"answer":null}"#))),
        Err(Error::Decode(Cause::Shape))
    ));
    match adapter.check(Err("expected value at line 1 column 1".to_string())) {
        Err(Error::Decode(Cause::Json(report))) => {
            assert_eq!(report, "expected value at line 1 column 1")
        }
        other => panic!("expected the report, got {:?}", other),
    }
}

#[test]
fn a_span_inside_a_value_is_stripped_too() {
    let adapter = JsonAdapter::new(question_answer());
    let value = json(r#"{"answer":"<think>x</think>"}"#);
    let out = adapter.parse(value.to_string()).unwrap();
    assert_eq!(out, json(r#"{"answer":""}"#));
    let reversed = json(r#"{"answer":"</think>x<think>"}"#);
    assert_eq!(adapter.parse(reversed.to_string()).unwrap(), reversed);
}

#[test]
fn parse_rejects_what_breaks_a_bound() {
    let output = Model::new(schema(
        r#"{"type":"object","properties":{"n":{"type":"integer","format":"uint","minimum":0}},"required":["n"]}"#,
    ))
    .with_field(
        "n",
        None,
        Some(schema(r#"{"type":"integer","format":"uint","minimum":0}"#)),
    )
    .unwrap();
    let adapter = JsonAdapter::new(Signature::new(
        Model::new(schema(r#"{"type":"object"}"#)),
        output,
    ));
    assert_eq!(adapter.parse("{\"n\": 1}".to_string()).unwrap(), json(r#"{"n":1}"#));
    assert!(matches!(
        adapter.parse("{\"n\": -1}".to_string()),
        Err(Error::Decode(Cause::Shape))
    ));
    assert!(matches!(
        adapter.check(Ok(json(r#"{"n":-1}"#))),
        Err(Error::Decode(Cause::Shape))
    ));
}

#[test]
fn parse_rejects_what_breaks_a_bound_behind_a_reference() {
    let adapter = JsonAdapter::new(plan());
    for reply in [
        r#"{"steps":[{"id":-1,"dependencies":[]}]}"#,
        r#"{"steps":[{"id":65536,"dependencies":[]}]}"#,
    ] {
        assert!(matches!(
            adapter.parse(reply.to_string()),
            Err(Error::Decode(Cause::Shape))
        ));
    }
    assert!(adapter
        .parse(r#"{"steps":[{"id":65535,"dependencies":[0]}]}"#.to_string())
        .is_ok());
}
