use txml_processor::txml_elements::Directory;
use txml_processor::txml_elements::File;
use txml_processor::txml_elements::TemplateMetadata;
use txml_processor::txml_structure::TxmlStructure;

fn directory(name: &str, in_command: &str, out_command: &str) -> Directory {
    let mut d = Directory::new();
    d.process_attribute("name", name);
    d.process_attribute("in_command", in_command);
    d.process_attribute("out_command", out_command);
    d
}

fn file(name: &str, extension: &str, command: &str, content: &str) -> File {
    let mut f = File::new();
    f.process_attribute("name", name);
    f.process_attribute("extension", extension);
    f.process_attribute("command", command);
    f.set_text(content.to_string());
    f
}

#[test]
fn dir_into_txml_format_test() {
    let dir = directory("pepe", "ls -l", "git init");

    let txml = dir.into_txml_element();

    assert_eq!(
        txml,
        "<Directory name=\"pepe\" in_command=\"ls -l\" out_command=\"git init\">\n</Directory>\n"
    );
}

#[test]
fn file_into_txml_format_test() {
    let file = file("pepe", "rs", "cargo build", "fn main() { println!(\"Hola, mundo!\"); }");

    let txml = file.into_txml_element();

    assert_eq!(
        txml,
        "<File name=\"pepe\" extension=\"rs\" command=\"cargo build\">\nfn main() { println!(&quot;Hola, mundo!&quot;); }\n</File>\n"
    );
}

#[test]
fn txml_structure_into_txml_format_test() {
    let mut txml_structure = TxmlStructure::new();

    let mut dir = directory("pepe", "ls -l", "git init");

    let f = file("pepe", "rs", "cargo build", "fn main() { println!(\"Hola, mundo!\"); }");

    dir.add_file(f);

    txml_structure.add_directory(dir);

    let f = file("pepa", "rs", "cargo build", "fn main() { println!(\"Hola, mundo!\"); }");

    txml_structure.add_file(f);

    let txml_string = txml_structure.into_txml_element();

    assert!(TxmlStructure::from_txml_str(txml_string.as_str()).is_ok());
}

#[test]
fn metadata_into_txml_format_test() {
    let expected = r#"
        <Metadata author="Borja Castellano" date="22/09/2024" version="1.0.0" description="Testing metadata info"/>
        "#;

    let metadata = TemplateMetadata {
        author: String::from("Borja Castellano"),
        date: String::from("22/09/2024"),
        version: String::from("1.0.0"),
        description: String::from("Testing metadata info"),
    }
    .into_txml_element();

    assert_eq!(expected.trim(), metadata.trim());
}

#[test]
fn txml_metadata_parser_test() {
    let txml = r#"
<?xml version="1.0" encoding="UTF-8" ?>

<Root xmlns:xsi="http://www.w3.org/2001/XMLSchema-instance"
      xsi:noNamespaceSchemaLocation="https://lebastudios.org/xml-schemas/txml_schema.xsd">
    <Metadata author="Borja Castellano" date="22/09/2024" version="1.0.0" description="Testing metadata info"/>
</Root>
        "#;

    let txml_structure = TxmlStructure::from_txml_str(txml).unwrap();

    assert_eq!(txml_structure.metadata().author, "Borja Castellano");
    assert_eq!(txml_structure.metadata().date, "22/09/2024");
    assert_eq!(txml_structure.metadata().version, "1.0.0");
    assert_eq!(txml_structure.metadata().description, "Testing metadata info");
}

#[test]
fn getters_reflect_attributes() {
    let f = file("main", "rs", "cargo check", "body");
    assert_eq!(f.name(), "main");
    assert_eq!(f.extension(), "rs");
    assert_eq!(f.command(), "cargo check");
    assert_eq!(f.content(), "body");

    let mut d = directory("src", "a", "b");
    assert_eq!(d.name(), "src");
    assert_eq!(d.in_command(), "a");
    assert_eq!(d.out_command(), "b");
    d.add_file(f);
    d.add_directory(directory("nested", "", ""));
    assert_eq!(d.files().len(), 1);
    assert_eq!(d.directories().len(), 1);
    assert_eq!(d.directories()[0].name(), "nested");
}
