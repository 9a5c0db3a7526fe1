use archi_view_importer::merge::MergeError;
use archi_view_importer::merge::copy_view;
use archi_view_importer::merge::extract_references;
use archi_view_importer::merge::insert_new_element;
use archi_view_importer::model::ArchiModel;
use archi_view_importer::model::FolderInfo;
use archi_view_importer::model::MissingElementInfo;
use archi_view_importer::model::find_missing_views;
use archi_view_importer::model::load_model;
use archi_view_importer::folders::find_or_create_folder;
use archi_view_importer::folders::recursive_find_or_create_folder_path;
use archi_view_importer::tree::Attr;
use archi_view_importer::tree::XmlNode;

fn convert(x: &xot::Xot, n: xot::Node) -> Option<XmlNode> {
    match x.value(n) {
        xot::Value::Element(el) => {
            let name = x.full_name(n, el.name()).unwrap();
            let mut attrs = Vec::new();
            for (name_id, value) in x.attributes(n).iter() {
                attrs.push(Attr { key: x.full_name(n, name_id).unwrap(), value: value.clone() });
            }
            let mut children = Vec::new();
            for c in x.children(n) {
                if let Some(node) = convert(x, c) {
                    children.push(node);
                }
            }
            Some(XmlNode::Element { name, attrs, children })
        }
        xot::Value::Text(t) => Some(XmlNode::Text { content: t.get().to_string() }),
        xot::Value::Comment(c) => Some(XmlNode::Comment { content: c.get().to_string() }),
        _ => None,
    }
}

fn model_of_xml(xml: &str) -> ArchiModel {
    let mut x = xot::Xot::new();
    let doc = x.parse(xml).unwrap();
    let root = x.document_element(doc).unwrap();
    load_model(convert(&x, root).unwrap()).unwrap()
}

const SOURCE_XML: &str = r#"<?xml version='1.0' encoding='UTF-8'?>
    <archimate:model xmlns:archimate='http://www.archimatetool.com/archimate' xmlns:xsi='http://www.w3.org/2001/XMLSchema-instance'>
        <folder type='business' name='Business' id='f-b'>
            <element xsi:type='archimate:BusinessActor' id='elem-A' name='Actor'/>
            <element xsi:type='archimate:BusinessRole' id='elem-B' name='Role'/>
            <element xsi:type='archimate:AssignmentRelationship' id='rel-1' name=''/>
        </folder>
        <folder type='diagrams' name='Views' id='f-v'>
            <element xsi:type='archimate:ArchimateDiagramModel' id='view-1' name='Default View'>
                <child archimateElement='elem-A'/>
                <child archimateElement='elem-B'/>
                <connection archimateRelationship='rel-1'/>
            </element>
        </folder>
    </archimate:model>"#;

const EMPTY_TARGET_XML: &str = r#"<?xml version='1.0' encoding='UTF-8'?>
    <archimate:model xmlns:archimate='http://www.archimatetool.com/archimate'/>"#;

fn missing_entry(id: &str, name: &str) -> MissingElementInfo {
    MissingElementInfo {
        id: id.to_string(),
        name: name.to_string(),
        folder_path: Vec::new(),
    }
}

#[test]
fn test_merge_copies_view_and_references() {
    let source = model_of_xml(SOURCE_XML);
    let mut target = model_of_xml(EMPTY_TARGET_XML);

    let missing = find_missing_views(&source, &target);
    assert_eq!(missing.len(), 1);
    assert_eq!(missing[0].id, "view-1");

    let counts = copy_view(&source, &mut target, &missing[0]).unwrap();
    assert_eq!(counts, (1, 2, 1));

    assert!(target.element_map.get("elem-A").is_some());
    assert!(target.element_map.get("elem-B").is_some());
    assert!(target.element_map.get("rel-1").is_some());
    assert!(target.view_map.get("view-1").is_some());

    let again = find_missing_views(&source, &target);
    assert_eq!(again.len(), 0);
}

#[test]
fn test_merge_single_view_with_one_element() {
    let source = model_of_xml(
        r#"<?xml version='1.0' encoding='UTF-8'?>
        <archimate:model xmlns:archimate='http://www.archimatetool.com/archimate' xmlns:xsi='http://www.w3.org/2001/XMLSchema-instance'>
            <folder type='diagrams' name='Views' id='f-v'>
                <element xsi:type='archimate:BusinessActor' id='elem-A' name='Actor'/>
                <element xsi:type='archimate:ArchimateDiagramModel' id='view-1' name='Default View'>
                    <child archimateElement='elem-A'/>
                </element>
            </folder>
        </archimate:model>"#,
    );
    let mut target = model_of_xml(EMPTY_TARGET_XML);

    let missing = find_missing_views(&source, &target);
    assert_eq!(missing.len(), 1);
    assert_eq!(missing[0].id, "view-1");
    assert_eq!(missing[0].name, "Default View");
    assert_eq!(missing[0].folder_path.len(), 1);
    assert_eq!(missing[0].folder_path[0].name, "Views");

    let counts = copy_view(&source, &mut target, &missing[0]).unwrap();
    assert_eq!(counts, (1, 1, 0));

    let views_folder = target.tree.node_at(&vec![0], 0).unwrap();
    assert!(views_folder.name_is("folder"));
    assert_eq!(views_folder.get_attr("name").as_deref(), Some("Views"));
    let elem = target.tree.node_at(&vec![0, 0], 0).unwrap();
    assert_eq!(elem.get_attr("id").as_deref(), Some("elem-A"));
    let view = target.tree.node_at(&vec![0, 1], 0).unwrap();
    assert_eq!(view.get_attr("id").as_deref(), Some("view-1"));
}

#[test]
fn test_remerge_counts_nothing_new() {
    let source = model_of_xml(SOURCE_XML);
    let mut target = model_of_xml(EMPTY_TARGET_XML);
    let missing = find_missing_views(&source, &target);

    let first = copy_view(&source, &mut target, &missing[0]).unwrap();
    assert_eq!(first, (1, 2, 1));

    let second = copy_view(&source, &mut target, &missing[0]).unwrap();
    assert_eq!(second, (1, 0, 0));
}

#[test]
fn test_merge_never_reinserts_present_elements() {
    let source = model_of_xml(SOURCE_XML);
    let mut target = model_of_xml(
        r#"<?xml version='1.0' encoding='UTF-8'?>
        <archimate:model xmlns:archimate='http://www.archimatetool.com/archimate' xmlns:xsi='http://www.w3.org/2001/XMLSchema-instance'>
            <folder type='business' name='Business' id='f-b'>
                <element xsi:type='archimate:BusinessActor' id='elem-A' name='Actor already here'/>
            </folder>
        </archimate:model>"#,
    );

    let missing = find_missing_views(&source, &target);
    let counts = copy_view(&source, &mut target, &missing[0]).unwrap();
    assert_eq!(counts, (1, 1, 1));

    let kept = target.element_map.get("elem-A").unwrap();
    assert_eq!(kept.name, "Actor already here");

    let business = match &target.tree {
        XmlNode::Element { children, .. } => children
            .iter()
            .find(|c| c.name_is("folder") && c.get_attr("name").as_deref() == Some("Business"))
            .expect("a Business folder"),
        _ => panic!("expected an element"),
    };
    match business {
        XmlNode::Element { children, .. } => {
            let copies = children
                .iter()
                .filter(|c| c.get_attr("id").as_deref() == Some("elem-A"))
                .count();
            assert_eq!(copies, 1);
        }
        _ => panic!("expected an element"),
    }
}

#[test]
fn test_merge_preserves_folder_paths() {
    let source = model_of_xml(
        r#"<?xml version='1.0' encoding='UTF-8'?>
        <archimate:model xmlns:archimate='http://www.archimatetool.com/archimate' xmlns:xsi='http://www.w3.org/2001/XMLSchema-instance'>
            <folder type='business' name='Business' id='f-b'>
                <folder name='Deep' id='f-d'>
                    <element xsi:type='archimate:BusinessActor' id='elem-A' name='Actor'/>
                </folder>
            </folder>
            <folder type='diagrams' name='Views' id='f-v'>
                <element xsi:type='archimate:ArchimateDiagramModel' id='view-1' name='Default View'>
                    <child archimateElement='elem-A'/>
                </element>
            </folder>
        </archimate:model>"#,
    );
    let mut target = model_of_xml(EMPTY_TARGET_XML);
    let missing = find_missing_views(&source, &target);
    copy_view(&source, &mut target, &missing[0]).unwrap();

    let outer = target.tree.node_at(&vec![0], 0).unwrap();
    assert_eq!(outer.get_attr("name").as_deref(), Some("Business"));
    let inner = target.tree.node_at(&vec![0, 0], 0).unwrap();
    assert_eq!(inner.get_attr("name").as_deref(), Some("Deep"));
    let elem = target.tree.node_at(&vec![0, 0, 0], 0).unwrap();
    assert_eq!(elem.get_attr("id").as_deref(), Some("elem-A"));

    let recorded = &target.element_map.get("elem-A").unwrap().folder_path;
    assert_eq!(recorded.len(), 2);
    assert_eq!(recorded[0].name, "Business");
    assert_eq!(recorded[1].name, "Deep");
}

#[test]
fn test_merge_unknown_view_id_fails() {
    let source = model_of_xml(SOURCE_XML);
    let mut target = model_of_xml(EMPTY_TARGET_XML);
    let before_len = target.view_map.len();

    let r = copy_view(&source, &mut target, &missing_entry("no-such-view", "Ghost"));
    assert_eq!(r, Err(MergeError::UnknownViewId));
    assert_eq!(target.view_map.len(), before_len);
}

#[test]
fn test_extract_references_collects_both_kinds_once() {
    let mut x = xot::Xot::new();
    let doc = x
        .parse(
            r#"<view><child archimateElement='elem-A'/><child archimateElement='elem-A'/>
               <nested><conn archimateRelationship='rel-1'/></nested></view>"#,
        )
        .unwrap();
    let root = x.document_element(doc).unwrap();
    let tree = convert(&x, root).unwrap();

    let mut elements = Vec::new();
    let mut relations = Vec::new();
    extract_references(&tree, &mut elements, &mut relations);
    assert_eq!(elements, vec!["elem-A".to_string()]);
    assert_eq!(relations, vec!["rel-1".to_string()]);
}

#[test]
fn test_find_or_create_folder_path_is_idempotent() {
    let mut model = model_of_xml(EMPTY_TARGET_XML);
    let path = vec![
        FolderInfo { id: "f-1".to_string(), name: "Level 1".to_string() },
        FolderInfo { id: "f-2".to_string(), name: "Level 2".to_string() },
    ];

    let first = recursive_find_or_create_folder_path(&mut model, &path);
    let children_after_first = match &model.tree {
        XmlNode::Element { children, .. } => children.len(),
        _ => panic!("expected an element"),
    };

    let second = recursive_find_or_create_folder_path(&mut model, &path);
    let children_after_second = match &model.tree {
        XmlNode::Element { children, .. } => children.len(),
        _ => panic!("expected an element"),
    };

    assert_eq!(first, second);
    assert_eq!(children_after_first, children_after_second);
}

#[test]
fn test_category_folder_created_once_with_fresh_id() {
    let mut model = model_of_xml(EMPTY_TARGET_XML);

    let idx = find_or_create_folder(&mut model, "diagrams");
    let folder = model.tree.node_at(&vec![idx], 0).unwrap();
    assert_eq!(folder.get_attr("type").as_deref(), Some("diagrams"));
    assert_eq!(folder.get_attr("name").as_deref(), Some("Views"));
    let id = folder.get_attr("id").unwrap();
    assert_eq!(id.len(), 39);
    assert!(id.starts_with("id-"));

    let idx_again = find_or_create_folder(&mut model, "diagrams");
    assert_eq!(idx, idx_again);

    let other = find_or_create_folder(&mut model, "relations");
    let other_folder = model.tree.node_at(&vec![other], 0).unwrap();
    assert_eq!(other_folder.get_attr("name").as_deref(), Some("Relations"));
    let other_id = other_folder.get_attr("id").unwrap();
    assert_ne!(id, other_id);
}

#[test]
fn test_merge_counts_but_skips_ids_absent_from_source() {
    // A reference the source itself cannot resolve is counted among the
    // new elements, yet nothing is copied for it.
    let source = model_of_xml(
        r#"<?xml version='1.0' encoding='UTF-8'?>
        <archimate:model xmlns:archimate='http://www.archimatetool.com/archimate' xmlns:xsi='http://www.w3.org/2001/XMLSchema-instance'>
            <folder type='diagrams' name='Views' id='f-v'>
                <element xsi:type='archimate:ArchimateDiagramModel' id='view-1' name='Default View'>
                    <child archimateElement='ghost-elem'/>
                </element>
            </folder>
        </archimate:model>"#,
    );
    let mut target = model_of_xml(EMPTY_TARGET_XML);
    let missing = find_missing_views(&source, &target);

    let counts = copy_view(&source, &mut target, &missing[0]).unwrap();
    assert_eq!(counts, (1, 1, 0));
    assert!(target.element_map.get("ghost-elem").is_none());
    assert!(target.view_map.get("view-1").is_some());
}

#[test]
fn test_insert_new_element_unknown_id_changes_nothing() {
    let source = model_of_xml(SOURCE_XML);
    let mut target = model_of_xml(EMPTY_TARGET_XML);

    insert_new_element(&source, &mut target, &"missing-everywhere".to_string());
    assert_eq!(target.element_map.len(), 0);
}
