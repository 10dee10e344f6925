use dars::{Action, Cause, Error, Event, Message, Model, Module, Predict, Signature, LM};
use schemars::Schema;
use serde_json::Value;

struct FixedLM {
    resp: Value,
}

impl FixedLM {
    fn new(resp: Value) -> Self {
        Self { resp }
    }
}

impl LM for FixedLM {
    fn call(&self, _input: Vec<Message>, _schema: Option<&Schema>) -> Result<String, Error> {
        Ok(serde_json::to_string(&self.resp).unwrap())
    }
}

struct BrokenLM;

impl LM for BrokenLM {
    fn call(&self, _input: Vec<Message>, _schema: Option<&Schema>) -> Result<String, Error> {
        Err(Error::Backend("no route to host".to_string()))
    }
}

struct EchoLM;

impl LM for EchoLM {
    fn call(&self, input: Vec<Message>, schema: Option<&Schema>) -> Result<String, Error> {
        assert_eq!(input.len(), 2);
        assert!(schema.is_some());
        Ok(format!(
            "<think>{}</think>{{\"answer\":{},\"confidence\":{}}}",
            input[0].to_text().len(),
            serde_json::to_string(&input[1].to_text()).unwrap(),
            input.len()
        ))
    }
}

fn json(text: &str) -> Value {
    serde_json::from_str(text).unwrap()
}

fn schema(text: &str) -> Schema {
    Schema::try_from(json(text)).unwrap()
}

fn sig() -> Signature {
    let input = Model::new(schema(
        r#"{"type":"object","properties":{"question":{"description":"The question to answer","type":"string"}},"required":["question"]}"#,
    ))
    .with_field(
        "question",
        Some("The question to answer"),
        Some(schema(r#"{"type":"string"}"#)),
    )
    .unwrap();
    let output = Model::new(schema(
        r#"{"type":"object","properties":{"answer":{"description":"The answer to the question","type":"string"},"confidence":{"description":"The confidence in the answer","type":"number","format":"float"}},"required":["answer","confidence"]}"#,
    ))
    .with_field(
        "answer",
        Some("The answer to the question"),
        Some(schema(r#"{"type":"string"}"#)),
    )
    .unwrap()
    .with_field(
        "confidence",
        Some("The confidence in the answer"),
        Some(schema(r#"{"type":"number","format":"float"}"#)),
    )
    .unwrap();
    Signature::new(input, output)
}

fn input(question: &str) -> Value {
    let mut object = serde_json::Map::new();
    object.insert("question".to_string(), Value::String(question.to_string()));
    Value::Object(object)
}

fn by_steps<L: LM>(predict: &Predict<L>, input: Value) -> Result<Value, Error> {
    let reply = match predict.step(Event::Input(Ok(input))) {
        Action::Call { messages, schema } => predict.lm().call(messages, schema),
        Action::Return(result) => return result,
    };
    match predict.step(Event::Reply(reply)) {
        Action::Return(result) => result,
        Action::Call { .. } => panic!("a reply ends the call"),
    }
}

#[test]
fn test_predict_base() {
    let lm = FixedLM::new(json(r#"{"answer": "output value", "confidence": 0.95}"#));

    let predict = Predict::new(lm, sig());
    let output = predict.call(input("input value")).unwrap();
    assert_eq!(output["answer"], "output value");
    assert_eq!(output["confidence"], 0.95);
}

#[test]
fn test_predict_with_invalid_output() {
    let lm = FixedLM::new(json(r#"{"answer": "output value", "confidence": "foobar"}"#));

    let predict = Predict::new(lm, sig());
    let output = predict
        .call(input("input value"))
        .expect_err("should error");

    assert!(matches!(output, Error::Decode(_)));
}

#[test]
fn input_step_asks_for_a_call() {
    let predict = Predict::new(BrokenLM, sig());
    match predict.step(Event::Input(Ok(input("input value")))) {
        Action::Call { messages, schema } => {
            assert_eq!(messages.len(), 2);
            assert!(matches!(&messages[0], Message::System { instruction } if instruction.contains("1. `question` (string): The question to answer\n")));
            assert!(matches!(&messages[1], Message::User { content } if content.len() == 1));
            assert_eq!(
                messages[1].to_text(),
                "User:\n[[ ## question ## ]]\n\"input value\"\n"
            );
            let output = sig();
            assert_eq!(schema, Some(output.output_schema()));
        }
        Action::Return(_) => panic!("a fitting input asks for a call"),
    }
}

#[test]
fn format_error_ends_the_call() {
    let predict = Predict::new(BrokenLM, sig());
    match predict.step(Event::Input(Ok(json("[1,2]")))) {
        Action::Return(Err(Error::Format(Cause::Shape))) => {}
        _ => panic!("an input that is no object is a format error"),
    }
    match predict.step(Event::Input(Err("key must be a string".to_string()))) {
        Action::Return(Err(Error::Format(Cause::Json(report)))) => {
            assert_eq!(report, "key must be a string")
        }
        _ => panic!("an input without generic form is a format error"),
    }
}

#[test]
fn backend_error_is_handed_on() {
    let predict = Predict::new(BrokenLM, sig());
    match predict.step(Event::Reply(Err(Error::Backend("rate limit".to_string())))) {
        Action::Return(Err(Error::Backend(report))) => assert_eq!(report, "rate limit"),
        _ => panic!("a backend error ends the call as it is"),
    }
}

#[test]
fn decode_error_ends_the_call() {
    let predict = Predict::new(BrokenLM, sig());
    match predict.step(Event::Reply(Ok("not json".to_string()))) {
        Action::Return(Err(Error::Decode(Cause::Json(_)))) => {}
        _ => panic!("a reply that is no JSON is a decode error"),
    }
    match predict.step(Event::Reply(Ok("{\"answer\":\"a\"}".to_string()))) {
        Action::Return(Err(Error::Decode(Cause::Shape))) => {}
        _ => panic!("a reply of another shape is a decode error"),
    }
}

#[test]
fn reply_with_reasoning_is_decoded() {
    let predict = Predict::new(BrokenLM, sig());
    let reply = "<think>0.9 or 1?</think>\n{\"answer\":\"a\",\"confidence\":1}";
    match predict.step(Event::Reply(Ok(reply.to_string()))) {
        Action::Return(Ok(value)) => assert_eq!(value, json(r#"{"answer":"a","confidence":1}"#)),
        _ => panic!("the reply fits the output"),
    }
}

#[test]
fn set_lm_replaces_the_handle() {
    let mut predict = Predict::new(FixedLM::new(json(r#"{"answer":"one","confidence":1}"#)), sig());
    assert_eq!(predict.call(input("q")).unwrap()["answer"], "one");
    predict.set_lm(FixedLM::new(json(r#"{"answer":"two","confidence":2}"#)));
    assert_eq!(predict.lm().resp["answer"], "two");
    assert_eq!(predict.call(input("q")).unwrap()["answer"], "two");
    assert_eq!(predict.call(input("q")).unwrap()["confidence"], 2);
}

#[test]
fn call_goes_through_the_model_once() {
    let predict = Predict::new(EchoLM, sig());
    let output = predict.call(input("input value")).unwrap();
    assert_eq!(
        output["answer"],
        "User:\n[[ ## question ## ]]\n\"input value\"\n"
    );
    assert_eq!(output["confidence"], 2);
}

#[test]
fn call_and_steps_agree() {
    let predict = Predict::new(
        FixedLM::new(json(r#"{"answer": "output value", "confidence": 0.95}"#)),
        sig(),
    );
    assert_eq!(
        predict.call(input("input value")).unwrap(),
        by_steps(&predict, input("input value")).unwrap()
    );
    assert!(matches!(
        predict.call(json("7")),
        Err(Error::Format(Cause::Shape))
    ));
    assert!(matches!(
        by_steps(&predict, json("7")),
        Err(Error::Format(Cause::Shape))
    ));
}

#[test]
fn call_hands_on_the_failure_of_the_model() {
    let predict = Predict::new(BrokenLM, sig());
    match predict.call(input("input value")) {
        Err(Error::Backend(report)) => assert_eq!(report, "no route to host"),
        other => panic!("expected the failure of the model, got {:?}", other),
    }
}

#[test]
fn answer_decodes_the_reply_or_hands_on_the_failure() {
    let predict = Predict::new(BrokenLM, sig());
    assert_eq!(
        predict
            .answer(Ok("{\"answer\":\"a\",\"confidence\":0.5}".to_string()))
            .unwrap(),
        json(r#"{"answer":"a","confidence":0.5}"#)
    );
    assert!(matches!(
        predict.answer(Ok("{\"answer\":\"a\",\"confidence\":\"high\"}".to_string())),
        Err(Error::Decode(Cause::Shape))
    ));
    assert!(matches!(
        predict.answer(Ok("{".to_string())),
        Err(Error::Decode(Cause::Json(_)))
    ));
    match predict.answer(Err(Error::Backend("timeout".to_string()))) {
        Err(Error::Backend(report)) => assert_eq!(report, "timeout"),
        other => panic!("expected the failure of the model, got {:?}", other),
    }
    match predict.answer(Err(Error::Decode(Cause::Shape))) {
        Err(Error::Decode(Cause::Shape)) => {}
        other => panic!("expected the failure as it was, got {:?}", other),
    }
}
