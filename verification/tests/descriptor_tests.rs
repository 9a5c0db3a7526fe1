use archi_view_importer::descriptor::DescriptorError;
use archi_view_importer::descriptor::FileDescriptor;
use archi_view_importer::descriptor::decode_document;
use archi_view_importer::descriptor::looks_like_xml;

#[test]
fn test_describe_plain_xml() {
    let d = FileDescriptor::describe("model.archimate".to_string(), true, &vec![]).unwrap();
    match d {
        FileDescriptor::PlainXml { path } => assert_eq!(path, "model.archimate"),
        _ => panic!("Expected PlainXml variant"),
    }
}

#[test]
fn test_describe_zipped_xml() {
    let entries = vec!["mimetype".to_string(), "model.xml".to_string()];
    let d = FileDescriptor::describe("model.zip".to_string(), false, &entries).unwrap();
    match d {
        FileDescriptor::ZippedXml { zip_path, xml_filename } => {
            assert_eq!(zip_path, "model.zip");
            assert_eq!(xml_filename, "model.xml");
        }
        _ => panic!("Expected ZippedXml variant"),
    }
}

#[test]
fn test_describe_unrecognized() {
    let entries = vec!["notes.txt".to_string()];
    let r = FileDescriptor::describe("other.bin".to_string(), false, &entries);
    assert_eq!(r, Err(DescriptorError::UnrecognizedFormat));
}

#[test]
fn test_looks_like_xml_finds_marker() {
    assert!(looks_like_xml(&b"<?xml version=\"1.0\"?><root></root>".to_vec()));
    assert!(looks_like_xml(&b"  \n <?xml version='1.0'?>".to_vec()));
    assert!(!looks_like_xml(&b"not an xml file".to_vec()));
    assert!(!looks_like_xml(&b"<?xm".to_vec()));
}

#[test]
fn test_looks_like_xml_survives_malformed_bytes() {
    let mut bytes = vec![0xffu8, 0xfe];
    bytes.extend_from_slice(b"<?xml version=\"1.0\"?>");
    assert!(looks_like_xml(&bytes));
}

#[test]
fn test_decode_document_replaces_malformed_sequences() {
    assert_eq!(decode_document(&b"plain ascii".to_vec()), "plain ascii");
    assert_eq!(decode_document(&vec![0x68, 0xc3, 0xa9, 0x21]), "h\u{e9}!");
    assert_eq!(decode_document(&vec![0xff]), "\u{fffd}");
}

#[test]
fn test_decode_document_strips_byte_order_mark() {
    let mut bytes = vec![0xefu8, 0xbb, 0xbf];
    bytes.extend_from_slice(b"<?xml?>");
    assert_eq!(decode_document(&bytes), "<?xml?>");
}
