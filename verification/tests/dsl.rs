use clux::ast::{LearningRate, ParseError, Precision};
use clux::parser::parse;
use clux::token::Token;

#[test]
fn test_dsl_parsing() {
    let dsl = r#"
        model CLUX_Tamil_SSM {
            dim: 256,
            state_dim: 32,
            layers: 4,
            precision: "int8",
        }

        training {
            lr: 0.0003,
            batch_size: 64,
            epochs: 5,
            checkpoint_interval: 250,
        }
        "#;

    let spec = parse(dsl).expect("Parsing must succeed");
    assert_eq!(spec.model.name, "CLUX_Tamil_SSM");
    assert_eq!(spec.model.d_model, 256);
    assert_eq!(spec.model.precision, Precision::INT8);
    assert!(spec.train.is_some());
    assert_eq!(spec.train.unwrap().epochs, 5);
}

#[test]
fn full_spec_fields() {
    let spec = parse(
        "model M { dim: 256, state_dim: 32, layers: 4, precision: \"int8\" }\n\
         training { lr: 0.0003, batch_size: 64, epochs: 5, checkpoint_interval: 250 }",
    )
    .unwrap();
    assert_eq!(spec.model.d_state, 32);
    assert_eq!(spec.model.num_layers, 4);
    let t = spec.train.unwrap();
    assert_eq!(t.lr, LearningRate::Decimal("0.0003".to_string()));
    assert_eq!(t.batch_size, 64);
    assert_eq!(t.checkpoint_interval, 250);
}

#[test]
fn model_defaults() {
    let spec = parse("model Tiny {}").unwrap();
    assert_eq!(spec.model.name, "Tiny");
    assert_eq!(spec.model.d_model, 512);
    assert_eq!(spec.model.d_state, 64);
    assert_eq!(spec.model.num_layers, 6);
    assert_eq!(spec.model.precision, Precision::FP16);
    assert!(spec.train.is_none());
}

#[test]
fn training_defaults() {
    let t = parse("model M {} training {}").unwrap().train.unwrap();
    assert_eq!(t.lr, LearningRate::Decimal("0.001".to_string()));
    assert_eq!(t.batch_size, 32);
    assert_eq!(t.epochs, 10);
    assert_eq!(t.checkpoint_interval, 500);
}

#[test]
fn precision_default_is_fp16() {
    assert_eq!(Precision::default(), Precision::FP16);
}

#[test]
fn precision_names_ignore_case() {
    let p = |s: &str| parse(&format!("model M {{ precision: \"{}\" }}", s)).unwrap().model.precision;
    assert_eq!(p("INT8"), Precision::INT8);
    assert_eq!(p("Bf16"), Precision::BF16);
    assert_eq!(p("fp32"), Precision::FP32);
    assert_eq!(p("FP16"), Precision::FP16);
}

#[test]
fn integer_learning_rate() {
    let t = parse("model M {} training { lr: 2 }").unwrap().train.unwrap();
    assert_eq!(t.lr, LearningRate::Integer(2));
}

#[test]
fn malformed_decimal_keeps_its_text() {
    let t = parse("model M {} training { lr: 1.2.3 }").unwrap().train.unwrap();
    assert_eq!(t.lr, LearningRate::Decimal("1.2.3".to_string()));
}

#[test]
fn comments_whitespace_and_stray_bytes_are_skipped() {
    let spec = parse("# a comment\n\tmodel M { # trailing\n dim: 8 @ }\r\n").unwrap();
    assert_eq!(spec.model.d_model, 8);
}

#[test]
fn commas_are_optional() {
    let spec = parse("model M { dim: 1 layers: 2 state_dim: 3 }").unwrap();
    assert_eq!((spec.model.d_model, spec.model.num_layers, spec.model.d_state), (1, 2, 3));
}

#[test]
fn value_of_the_wrong_kind_is_ignored() {
    let spec = parse("model M { dim: \"big\", layers: 3.5 }").unwrap();
    assert_eq!(spec.model.d_model, 512);
    assert_eq!(spec.model.num_layers, 6);
}

#[test]
fn integer_overflow_reads_as_zero() {
    let spec = parse("model M { dim: 99999999999999999999999 }").unwrap();
    assert_eq!(spec.model.d_model, 0);
}

#[test]
fn later_blocks_replace_earlier_ones() {
    let spec = parse("model A { dim: 1 } model B { dim: 7 } training { epochs: 1 } training { epochs: 2 }")
        .unwrap();
    assert_eq!(spec.model.name, "B");
    assert_eq!(spec.model.d_model, 7);
    assert_eq!(spec.train.unwrap().epochs, 2);
}

#[test]
fn error_unexpected_token() {
    assert_eq!(parse("dim: 3").unwrap_err(), ParseError::UnexpectedToken(Token::Ident("dim".to_string())));
    assert_eq!(parse("model M {} }").unwrap_err(), ParseError::UnexpectedToken(Token::BraceClose));
}

#[test]
fn error_missing_model() {
    assert_eq!(parse("").unwrap_err(), ParseError::MissingModel);
    assert_eq!(parse("training { epochs: 3 }").unwrap_err(), ParseError::MissingModel);
}

#[test]
fn error_model_ident() {
    assert_eq!(parse("model { }").unwrap_err(), ParseError::ExpectedModelIdent(Token::BraceOpen));
    assert_eq!(parse("model").unwrap_err(), ParseError::ExpectedModelIdent(Token::Eof));
}

#[test]
fn error_model_brace_open() {
    assert_eq!(parse("model M dim").unwrap_err(), ParseError::ExpectedModelBraceOpen);
}

#[test]
fn error_model_field_key() {
    assert_eq!(parse("model M { 5: 3 }").unwrap_err(), ParseError::ExpectedModelFieldKey(Token::NumberInt(5)));
}

#[test]
fn error_model_colon() {
    assert_eq!(parse("model M { dim 3 }").unwrap_err(), ParseError::ExpectedModelColon);
}

#[test]
fn error_unsupported_precision() {
    assert_eq!(
        parse("model M { precision: \"fp8\" }").unwrap_err(),
        ParseError::UnsupportedPrecision("fp8".to_string())
    );
}

#[test]
fn error_unknown_model_parameter() {
    assert_eq!(
        parse("model M { width: 3 }").unwrap_err(),
        ParseError::UnknownModelParameter("width".to_string())
    );
}

#[test]
fn error_model_brace_close() {
    assert_eq!(parse("model M { dim: 3").unwrap_err(), ParseError::ExpectedModelBraceClose);
    assert_eq!(parse("model M { precision: \"int8 }").unwrap_err(), ParseError::ExpectedModelBraceClose);
}

#[test]
fn error_training_brace_open() {
    assert_eq!(parse("model M {} training lr").unwrap_err(), ParseError::ExpectedTrainingBraceOpen);
}

#[test]
fn error_training_field_key() {
    assert_eq!(
        parse("model M {} training { \"lr\": 1 }").unwrap_err(),
        ParseError::ExpectedTrainingFieldKey(Token::StringLit("lr".to_string()))
    );
}

#[test]
fn error_training_colon() {
    assert_eq!(parse("model M {} training { lr 1 }").unwrap_err(), ParseError::ExpectedTrainingColon);
}

#[test]
fn error_invalid_lr() {
    assert_eq!(
        parse("model M {} training { lr: \"fast\" }").unwrap_err(),
        ParseError::InvalidLr(Token::StringLit("fast".to_string()))
    );
}

#[test]
fn error_unknown_training_parameter() {
    assert_eq!(
        parse("model M {} training { momentum: 1 }").unwrap_err(),
        ParseError::UnknownTrainingParameter("momentum".to_string())
    );
}

#[test]
fn error_training_brace_close() {
    assert_eq!(parse("model M {} training { epochs: 1").unwrap_err(), ParseError::ExpectedTrainingBraceClose);
}
