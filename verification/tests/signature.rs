use dars::{Field, Instruction, Model, Signature};
use schemars::{Schema, SchemaGenerator};

fn schema(text: &str) -> Schema {
    Schema::try_from(serde_json::from_str::<serde_json::Value>(text).unwrap()).unwrap()
}

fn record() -> Schema {
    schema(r#"{"type":"object","properties":{}}"#)
}

fn empty_signature() -> Signature {
    Signature::new(Model::new(record()), Model::new(record()))
}

fn sig() -> Signature {
    let input = Model::new(schema(
        r#"{"type":"object","properties":{"input":{"type":"string"},"input_with_description":{"type":"array","items":{"type":"integer"}}},"required":["input","input_with_description"]}"#,
    ))
    .with_field(
        "input",
        None,
        Some(SchemaGenerator::default().into_root_schema_for::<String>()),
    )
    .unwrap()
    .with_field(
        "input_with_description",
        Some("Input description"),
        Some(SchemaGenerator::default().into_root_schema_for::<Vec<usize>>()),
    )
    .unwrap();
    let output = Model::new(schema(
        r#"{"type":"object","properties":{"output":{"type":"string"},"output_with_description":{"type":"array","items":{"type":"string"}}},"required":["output","output_with_description"]}"#,
    ))
    .with_field(
        "output",
        None,
        Some(SchemaGenerator::default().into_root_schema_for::<String>()),
    )
    .unwrap()
    .with_field(
        "output_with_description",
        Some("Output description"),
        Some(SchemaGenerator::default().into_root_schema_for::<Vec<String>>()),
    )
    .unwrap();
    Signature::new(input, output).with_instruction(Instruction::parse(&["Signature instruction"]))
}

#[test]
fn test_empty_signature() {
    let sig = empty_signature();
    assert_eq!(sig.instruction(), "");
    assert_eq!(sig.input_fields(), &[]);
    assert_eq!(sig.output_fields(), &[]);
}

#[test]
fn test_signature_with_instruction() {
    let sig = empty_signature().with_instruction(Instruction::parse(&[
        "You are a general purpose AI assistant.",
    ]));
    assert_eq!(sig.instruction(), "You are a general purpose AI assistant.");
    assert_eq!(sig.input_fields(), &[]);
    assert_eq!(sig.output_fields(), &[]);
}

#[test]
fn test_signature_with_input_and_output() {
    let sig = sig();
    assert_eq!(sig.instruction(), "Signature instruction");
    assert_eq!(
        sig.input_fields(),
        &[
            Field {
                name: "input",
                description: None
            },
            Field {
                name: "input_with_description",
                description: Some("Input description")
            }
        ]
    );
    assert_eq!(
        sig.output_fields(),
        &[
            Field {
                name: "output",
                description: None
            },
            Field {
                name: "output_with_description",
                description: Some("Output description")
            }
        ]
    );
}

#[test]
fn test_signature_fields() {
    let sig = sig();
    assert_eq!(
        sig.field("input"),
        Some(&SchemaGenerator::default().into_root_schema_for::<String>())
    );
    assert_eq!(
        sig.field("input_with_description"),
        Some(&SchemaGenerator::default().into_root_schema_for::<Vec<usize>>())
    );
    assert_eq!(
        sig.field("output"),
        Some(&SchemaGenerator::default().into_root_schema_for::<String>())
    );
    assert_eq!(
        sig.field("output_with_description"),
        Some(&SchemaGenerator::default().into_root_schema_for::<Vec<String>>())
    );
}

#[test]
fn test_signature_generates_input_output_models() {
    let sig = sig();
    assert_eq!(
        sig.input().fields(),
        &[
            Field {
                name: "input",
                description: None
            },
            Field {
                name: "input_with_description",
                description: Some("Input description")
            }
        ]
    );

    assert_eq!(
        sig.output().fields(),
        &[
            Field {
                name: "output",
                description: None
            },
            Field {
                name: "output_with_description",
                description: Some("Output description")
            }
        ]
    );
}

#[test]
fn unknown_field_has_no_schema() {
    let sig = sig();
    assert_eq!(sig.field("nowhere"), None);
    assert_eq!(empty_signature().field("input"), None);
}

#[test]
fn record_schemas_are_kept() {
    let input = schema(r#"{"type":"object","title":"In"}"#);
    let output = schema(r#"{"type":"object","title":"Out"}"#);
    let sig = Signature::new(Model::new(input.clone()), Model::new(output.clone()));
    assert_eq!(sig.input_schema(), &input);
    assert_eq!(sig.output_schema(), &output);
    assert_eq!(sig.input().schema(), &input);
    assert_eq!(sig.output().schema(), &output);
}

#[test]
fn instruction_lines_are_trimmed_and_joined() {
    let sig = empty_signature().with_instruction(Instruction::parse(&[
        "  Answer the question.  \n\n\n   Be brief. \r\n",
        "\tCite sources.",
    ]));
    assert_eq!(sig.instruction(), "Answer the question. Be brief. Cite sources.");
}

#[test]
fn blank_instruction_is_none() {
    let sig = sig().with_instruction(Instruction::parse(&["  \n\t\n", ""]));
    assert_eq!(sig.instruction(), "");
    let sig = sig.with_instruction(Instruction::parse(&[]));
    assert_eq!(sig.instruction(), "");
}
