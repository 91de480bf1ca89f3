use converter::args_parse::check_input_extension;

#[test]
fn image_extensions_are_accepted() {
    for extension in ["jpg", "jpeg", "png", "gif", "ico", "pnm", "farbfeld"] {
        assert!(check_input_extension(Some(extension)));
    }
}

#[test]
fn extensions_are_taken_in_lower_case() {
    assert!(check_input_extension(Some("PNG")));
    assert!(check_input_extension(Some("JpEg")));
    assert!(check_input_extension(Some("FARBFELD")));
}

#[test]
fn other_extensions_are_refused() {
    for extension in ["", "txt", "jpgx", "jp", "png ", "bmp", "tiff", "pñg", "ＰＮＧ"] {
        assert!(!check_input_extension(Some(extension)));
    }
}

#[test]
fn a_file_without_extension_is_refused() {
    assert!(!check_input_extension(None));
}
