use backlog_mdbook::book::{create, BookError};

#[test]
fn existing_directory_is_refused() {
    match create("out/book", "Handbook", true) {
        Err(BookError::DirectoryExists(dir)) => assert_eq!(dir, "out/book"),
        other => panic!("unexpected {:?}", other),
    }
}

#[test]
fn new_directory_gets_a_plan() {
    let plan = create("out/book", "Handbook", false).unwrap();
    assert_eq!(plan.dir, "out/book");
    assert_eq!(plan.title, "Handbook");
    assert!(plan.create_gitignore);
    assert!(plan.copy_theme);
}

#[test]
fn error_messages() {
    assert_eq!(BookError::DirectoryExists("out".to_string()).message(), " 'out' is already used");
    assert_eq!(BookError::Io { source: "denied".to_string() }.message(), "io error denied");
    assert_eq!(
        BookError::MdBookError { source: "no book.toml".to_string() }.message(),
        "mdbook error no book.toml"
    );
}
