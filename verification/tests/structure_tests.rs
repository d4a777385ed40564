use txml_processor::txml_structure::TxmlProcessorError;
use txml_processor::txml_structure::TxmlStructure;

const EXAMPLE: &str = r#"
            <?xml version="1.0" encoding="UTF-8" ?>

<Root xmlns:xsi="http://www.w3.org/2001/XMLSchema-instance"
      xsi:noNamespaceSchemaLocation="https://lebastudios.org/xml-schemas/txml_schema.xsd">
    <Directory name="crates" in_command="git init   ;      mkdir pepe">
        <File name="Hola" extension="rs">
            fn main()
            {
                println!("Hola, mundo!");
            }
        </File>
        <Directory name="crate">
            <File name="sin_titulo" extension="txt">
                Hola me llamo Juan
                Pepe
            </File>
        </Directory>
    </Directory>

    <File name="Cargo" extension="toml">
        [workspace]
        resolver = "2"
        members = []
    </File>
    <File name="rustfmt" extension="toml"/>
    <File name=".gitignore"/>
</Root>
            "#;

#[test]
fn lib_process_txml_test_from_str() {
    if let Err(e) = TxmlStructure::from_txml_str(EXAMPLE) {
        panic!("Error: {:?}", e);
    }
}

#[test]
fn txml_structure_process_txml_test_from_str() {
    if let Err(e) = TxmlStructure::from_txml_str(EXAMPLE) {
        panic!("Error: {:?}", e);
    }
}

#[test]
fn txml_variables_replacement_test() {
    let txml = r#"
<?xml version="1.0" encoding="UTF-8" ?>

<Root xmlns:xsi="http://www.w3.org/2001/XMLSchema-instance"
      xsi:noNamespaceSchemaLocation="https://lebastudios.org/xml-schemas/txml_schema.xsd">
    <Variable name="VAR1" value="folder1"/>
    <Variable name="VAR2" value="file1"/>
    <Directory name="${VAR1}" >
        <File name="${VAR2}" extension="txt" >
            ${VAR1} content
        </File>
    </Directory>
</Root>
        "#;

    let txml_variables = TxmlStructure::obtain_variables(txml).unwrap();

    assert_eq!(txml_variables.len(), 2);
    assert_eq!(txml_variables[0].get_name(), "VAR1");
    assert_eq!(txml_variables[0].get_value(), "folder1");
    assert_eq!(txml_variables[1].get_name(), "VAR2");
    assert_eq!(txml_variables[1].get_value(), "file1");
}

#[test]
fn parsed_example_has_expected_shape() {
    let s = TxmlStructure::from_txml_str(EXAMPLE).unwrap();
    assert_eq!(s.files().len(), 3);
    assert_eq!(s.directories().len(), 1);
    let crates = &s.directories()[0];
    assert_eq!(crates.name(), "crates");
    assert_eq!(crates.in_command(), "git init   ;      mkdir pepe");
    assert_eq!(crates.files().len(), 1);
    assert_eq!(crates.directories().len(), 1);
    assert_eq!(crates.files()[0].name(), "Hola");
    assert_eq!(crates.files()[0].extension(), "rs");
    assert_eq!(crates.directories()[0].name(), "crate");
    assert_eq!(s.files()[0].name(), "Cargo");
    assert_eq!(s.files()[1].name(), "rustfmt");
    assert_eq!(s.files()[2].name(), ".gitignore");
    assert!(s.renamable());
}

#[test]
fn variables_are_substituted_into_the_tree() {
    let txml = r#"
<Root>
    <Variable name="VAR1" value="folder1"/>
    <Variable name="VAR2" value="file1"/>
    <Directory name="${VAR1}">
        <File name="${VAR2}" extension="txt">
            ${VAR1} content
        </File>
    </Directory>
</Root>
        "#;
    let s = TxmlStructure::from_txml_str(txml).unwrap();
    assert_eq!(s.directories().len(), 1);
    let d = &s.directories()[0];
    assert_eq!(d.name(), "folder1");
    assert_eq!(d.files()[0].name(), "file1");
    assert!(d.files()[0].content().contains("folder1 content"));
}

#[test]
fn empty_valued_variable_takes_prompted_answer() {
    let txml = r#"
<Root>
    <Variable name="TARGET" value=""/>
    <File name="${TARGET}" extension="txt"/>
</Root>
        "#;
    let answers = vec!["  replied  ".to_string()];
    let s = TxmlStructure::from_txml_str_with_inputs(txml, &answers).unwrap();
    // The answer is trimmed before substitution, as the interactive path
    // trims the line it reads.
    assert_eq!(s.files()[0].name(), "replied");
}

#[test]
fn renamable_false_is_parsed() {
    let s = TxmlStructure::from_txml_str("<Root renamable=\"false\"><File name=\"a\"/></Root>")
        .unwrap();
    assert!(!s.renamable());
    // Any value other than the exact text `true` makes the flag false.
    let s = TxmlStructure::from_txml_str("<Root renamable=\"yes\"><File name=\"a\"/></Root>")
        .unwrap();
    assert!(!s.renamable());
}

#[test]
fn malformed_document_is_a_parse_error() {
    // An unterminated tag is a fatal reader error.
    assert!(matches!(
        TxmlStructure::from_txml_str("<Root><File name=\"a\""),
        Err(TxmlProcessorError::UnknownParseError)
    ));
    // A construct outside the dialect, such as a doctype, is fatal too.
    assert!(matches!(
        TxmlStructure::from_txml_str("<!DOCTYPE note><Root><File name=\"a\"/></Root>"),
        Err(TxmlProcessorError::UnknownParseError)
    ));
}

#[test]
fn unknown_elements_are_skipped_everywhere() {
    // The lenient policy: an element outside the five known kinds is
    // skipped without effect, in variable discovery and in tree building
    // alike, so the parse succeeds and yields the same structure.
    let with_unknown = TxmlStructure::from_txml_str(
        "<Root><Weird/><Variable name=\"V\" value=\"x\"/><File name=\"${V}\"/></Root>",
    )
    .unwrap();
    let without = TxmlStructure::from_txml_str(
        "<Root><Variable name=\"V\" value=\"x\"/><File name=\"${V}\"/></Root>",
    )
    .unwrap();
    assert_eq!(with_unknown.files().len(), 1);
    assert_eq!(with_unknown.files()[0].name(), "x");
    assert_eq!(without.files()[0].name(), "x");
    assert_eq!(with_unknown.directories().len(), 0);

    let vars = TxmlStructure::obtain_variables(
        "<Root><Weird/><Variable name=\"V\" value=\"x\"/></Root>",
    )
    .unwrap();
    assert_eq!(vars.len(), 1);
    assert_eq!(vars[0].get_name(), "V");
}

#[test]
fn validation_is_lexical_and_lenient_to_unknown_tags() {
    assert!(TxmlStructure::validate_txml_str(
        "<?xml version=\"1.0\" ?><Root><Directory name=\"d\"/></Root>"
    ));
    // An unknown element is recoverable: no fatal error occurs before Eof.
    assert!(TxmlStructure::validate_txml_str("<Root><Weird/></Root>"));
    // Malformed markup and constructs outside the dialect are fatal.
    assert!(!TxmlStructure::validate_txml_str("<Root><File name=\"a\""));
    assert!(!TxmlStructure::validate_txml_str("<!DOCTYPE note><Root/>"));
}

#[test]
fn unterminated_directory_is_dropped() {
    // The document ends while a Directory is still open: the builder
    // keeps the completed elements and drops the unterminated one.
    let s = TxmlStructure::from_txml_str(
        "<Root><File name=\"kept\"/><Directory name=\"open\"><File name=\"inner\"/>",
    )
    .unwrap();
    assert_eq!(s.files().len(), 1);
    assert_eq!(s.files()[0].name(), "kept");
    assert_eq!(s.directories().len(), 0);
}

#[test]
fn directory_and_file_close_tags_balance() {
    // Matched close tags attach each directory to its parent.
    let s = TxmlStructure::from_txml_str(
        "<Root><Directory name=\"a\"><Directory name=\"b\"><File name=\"f\"/></Directory></Directory></Root>",
    )
    .unwrap();
    assert_eq!(s.directories().len(), 1);
    let a = &s.directories()[0];
    assert_eq!(a.name(), "a");
    assert_eq!(a.directories()[0].name(), "b");
    assert_eq!(a.directories()[0].files()[0].name(), "f");
}

#[test]
fn text_after_file_body_overwrites_previous() {
    // The last text run inside a File element that is not purely
    // whitespace wins.
    let s = TxmlStructure::from_txml_str("<Root><File name=\"f\">first</File></Root>").unwrap();
    assert_eq!(s.files()[0].content(), "first");
}

#[test]
fn purely_whitespace_text_never_becomes_content() {
    // A newline-and-tab-only run is purely whitespace: the file's content
    // stays empty.
    let s = TxmlStructure::from_txml_str("<Root><File name=\"f\">\n\t  \n</File></Root>")
        .unwrap();
    assert_eq!(s.files()[0].content(), "");
}

#[test]
fn comments_and_declarations_are_ignored() {
    let s = TxmlStructure::from_txml_str(
        "<?xml version=\"1.0\" ?><Root><!-- a comment --><File name=\"f\"/></Root>",
    )
    .unwrap();
    assert_eq!(s.files().len(), 1);
}
