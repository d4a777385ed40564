use txml_processor::reader::ElementState;
use txml_processor::reader::TxmlEvent;
use txml_processor::reader::TxmlReader;
use txml_processor::reader::TxmlReaderError;
use txml_processor::txml_elements::Directory;
use txml_processor::txml_elements::File;
use txml_processor::txml_structure::TxmlStructure;

fn file(name: &str, extension: &str, command: &str, content: &str) -> File {
    let mut f = File::new();
    f.process_attribute("name", name);
    f.process_attribute("extension", extension);
    f.process_attribute("command", command);
    f.set_text(content.to_string());
    f
}

#[test]
fn reader_classifies_the_event_stream() {
    let mut reader = TxmlReader::from_str(
        "<?xml version=\"1.0\" ?><Root><!-- c --><Metadata author=\"me\"/><Directory name=\"d\"></Directory></Root>",
    );
    assert!(matches!(reader.read_event(), Ok(TxmlEvent::Declaration)));
    assert!(matches!(reader.read_event(), Ok(TxmlEvent::Root(ElementState::Start(_)))));
    assert!(matches!(reader.read_event(), Ok(TxmlEvent::Comment)));
    match reader.read_event() {
        Ok(TxmlEvent::Metadata(ElementState::Empty(attrs))) => {
            assert_eq!(attrs.len(), 1);
            assert_eq!(attrs[0].0, "author");
            assert_eq!(attrs[0].1, "me");
        }
        _ => panic!("expected an empty Metadata element"),
    }
    assert!(matches!(reader.read_event(), Ok(TxmlEvent::Directory(ElementState::Start(_)))));
    assert!(matches!(reader.read_event(), Ok(TxmlEvent::Directory(ElementState::End))));
    assert!(matches!(reader.read_event(), Ok(TxmlEvent::Root(ElementState::End))));
    assert!(matches!(reader.read_event(), Ok(TxmlEvent::Eof)));
}

#[test]
fn reader_reports_unknown_elements_and_keeps_going() {
    let mut reader = TxmlReader::from_str("<Root><Weird/><File name=\"f\"/></Root>");
    assert!(matches!(reader.read_event(), Ok(TxmlEvent::Root(ElementState::Start(_)))));
    assert!(matches!(reader.read_event(), Err(TxmlReaderError::UnexpectedElement)));
    assert!(matches!(reader.read_event(), Ok(TxmlEvent::File(ElementState::Empty(_)))));
}

#[test]
fn reader_treats_malformed_markup_as_fatal() {
    let mut reader = TxmlReader::from_str("<Root><File name=");
    assert!(matches!(reader.read_event(), Ok(TxmlEvent::Root(ElementState::Start(_)))));
    assert!(matches!(reader.read_event(), Err(TxmlReaderError::UnknownError)));
    assert!(matches!(reader.read_event(), Ok(TxmlEvent::Eof)));
}

#[test]
fn quoted_angle_brackets_stay_inside_attribute_values() {
    let mut reader = TxmlReader::from_str("<File name=\"a>b\"/>");
    match reader.read_event() {
        Ok(TxmlEvent::File(ElementState::Empty(attrs))) => {
            assert_eq!(attrs[0].1, "a>b");
        }
        _ => panic!("expected an empty File element"),
    }
}

#[test]
fn serialized_tree_parses_back_to_the_same_names_and_commands() {
    let mut original = TxmlStructure::new();
    let mut dir = Directory::new();
    dir.process_attribute("name", "src");
    dir.process_attribute("in_command", "git init");
    dir.add_file(file("main", "rs", "cargo build", "fn main() {}\nmod lib;"));
    original.add_directory(dir);
    original.add_file(file("README", "md", "", "title\nbody"));

    let markup = {
        let mut copy = TxmlStructure::new();
        let mut dir = Directory::new();
        dir.process_attribute("name", "src");
        dir.process_attribute("in_command", "git init");
        dir.add_file(file("main", "rs", "cargo build", "fn main() {}\nmod lib;"));
        copy.add_directory(dir);
        copy.add_file(file("README", "md", "", "title\nbody"));
        copy.into_txml_element()
    };

    let reparsed = TxmlStructure::from_txml_str(&markup).unwrap();

    assert_eq!(reparsed.files().len(), 1);
    assert_eq!(reparsed.directories().len(), 1);
    assert_eq!(reparsed.files()[0].name(), "README");
    assert_eq!(reparsed.files()[0].extension(), "md");
    assert_eq!(reparsed.files()[0].command(), "");
    let d = &reparsed.directories()[0];
    assert_eq!(d.name(), "src");
    assert_eq!(d.in_command(), "git init");
    assert_eq!(d.out_command(), "");
    assert_eq!(d.files()[0].name(), "main");
    assert_eq!(d.files()[0].command(), "cargo build");

    // Content equality holds at the rendered level for bodies whose
    // indentation is uniform: what the reparsed file writes equals the raw
    // text the original held.
    assert_eq!(reparsed.files()[0].rendered_content(), "title\nbody");
    assert_eq!(d.files()[0].rendered_content(), "fn main() {}\nmod lib;");
}
