use lbf::options::Options;

#[test]
fn options_default_to_character_output_and_no_files() {
    let options = Options::new();

    assert!(!options.output_number);
    assert!(options.input_files.is_empty());
}
