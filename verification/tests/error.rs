use dagt_fonts::error::FontError;

#[test]
fn clone_keeps_the_error() {
    let errors = [
        FontError::Io(String::from("no such file")),
        FontError::OutOfBounds,
        FontError::MissingTable("glyf"),
        FontError::NoSupportedEncoding,
        FontError::UnsupportedCmapFormat(6),
        FontError::MissingNotdefGlyph,
    ];
    for error in &errors {
        assert_eq!(&error.clone(), error);
    }
}

#[test]
fn errors_differ_by_kind_and_payload() {
    assert_ne!(FontError::MissingTable("glyf"), FontError::MissingTable("head"));
    assert_ne!(FontError::UnsupportedCmapFormat(6), FontError::UnsupportedCmapFormat(2));
    assert_ne!(FontError::Io(String::from("a")), FontError::Io(String::from("b")));
    assert_ne!(FontError::OutOfBounds, FontError::MissingNotdefGlyph);
    assert_ne!(FontError::NoSupportedEncoding, FontError::OutOfBounds);
}
