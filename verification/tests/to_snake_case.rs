use slvr_rust_lib::to_snake_case::ToSnakeCase;

#[test]
fn camel_case_words_are_split() {
    assert_eq!(String::from("ToSnakeCase").to_snake_case(), "to_snake_case");
    assert_eq!(String::from("TauriCommand").to_snake_case(), "tauri_command");
    assert_eq!(String::from("abC").to_snake_case(), "ab_c");
}

#[test]
fn acronym_at_the_beginning_is_split() {
    assert_eq!(String::from("ABc").to_snake_case(), "a_bc");
    assert_eq!(String::from("HTTPServer").to_snake_case(), "http_server");
}

#[test]
fn lower_case_input_is_unchanged() {
    assert_eq!(String::from("already_snake").to_snake_case(), "already_snake");
    assert_eq!(String::from("plain").to_snake_case(), "plain");
}

#[test]
fn short_inputs() {
    assert_eq!(String::from("").to_snake_case(), "");
    assert_eq!(String::from("A").to_snake_case(), "a");
    assert_eq!(String::from("aB").to_snake_case(), "a_b");
    assert_eq!(String::from("Ab").to_snake_case(), "ab");
}

#[test]
fn non_letters_pass_through() {
    assert_eq!(String::from("a1B").to_snake_case(), "a1b");
    // A digit is neither lowercase nor uppercase, so it opens no new word.
    assert_eq!(String::from("Version2Beta").to_snake_case(), "version2beta");
}
