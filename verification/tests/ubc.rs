use clux::ubc::{UbcEngine, UbcToken};

#[test]
fn ascii_maps_to_itself() {
    assert_eq!(UbcEngine::encode_char('A'), UbcToken(65));
    assert_eq!(UbcEngine::encode_char('\0'), UbcToken(0));
    assert_eq!(UbcEngine::encode_char('\u{7F}'), UbcToken(0x7F));
}

#[test]
fn tamil_block_maps_to_its_band() {
    assert_eq!(UbcEngine::encode_char('\u{0B80}'), UbcToken(0x0100));
    assert_eq!(UbcEngine::encode_char('அ'), UbcToken(0x0105));
    assert_eq!(UbcEngine::encode_char('\u{0BFF}'), UbcToken(0x017F));
}

#[test]
fn other_code_points_fold_into_the_high_band() {
    assert_eq!(UbcEngine::encode_char('é'), UbcToken(0x02E9));
    assert_eq!(UbcEngine::encode_char('€'), UbcToken(0x028C));
    assert_eq!(UbcEngine::encode_char('\u{1F600}'), UbcToken(0x03F6));
    assert_eq!(UbcEngine::encode_char('\u{0B7F}'), UbcToken(0x0274));
    assert_eq!(UbcEngine::encode_char('\u{80}'), UbcToken(0x0280));
}

#[test]
fn strings_encode_char_by_char() {
    assert_eq!(
        UbcEngine::encode_str("Aஅ€"),
        vec![UbcToken(65), UbcToken(0x0105), UbcToken(0x028C)]
    );
    assert_eq!(UbcEngine::encode_str(""), vec![]);
}

#[test]
fn encoding_a_concatenation_concatenates_encodings() {
    let (a, b) = ("வேகம்", " CLUX");
    let mut both = UbcEngine::encode_str(a);
    both.extend(UbcEngine::encode_str(b));
    assert_eq!(UbcEngine::encode_str(&format!("{}{}", a, b)), both);
}
