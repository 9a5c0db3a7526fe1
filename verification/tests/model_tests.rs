use archi_view_importer::model::ArchiModel;
use archi_view_importer::model::FolderInfo;
use archi_view_importer::model::ModelError;
use archi_view_importer::model::find_missing_views;
use archi_view_importer::model::joined_path;
use archi_view_importer::model::load_model;
use archi_view_importer::folders::recursive_find_or_create_folder_path;
use archi_view_importer::tree::Attr;
use archi_view_importer::tree::XmlNode;

fn convert(x: &xot::Xot, n: xot::Node) -> Option<XmlNode> {
    match x.value(n) {
        xot::Value::Element(el) => {
            let name = x.full_name(n, el.name()).unwrap();
            let mut attrs = Vec::new();
            for (name_id, value) in x.attributes(n).iter() {
                attrs.push(Attr { key: x.full_name(n, name_id).unwrap(), value: value.clone() });
            }
            let mut children = Vec::new();
            for c in x.children(n) {
                if let Some(node) = convert(x, c) {
                    children.push(node);
                }
            }
            Some(XmlNode::Element { name, attrs, children })
        }
        xot::Value::Text(t) => Some(XmlNode::Text { content: t.get().to_string() }),
        xot::Value::Comment(c) => Some(XmlNode::Comment { content: c.get().to_string() }),
        _ => None,
    }
}

fn tree_of_xml(xml: &str) -> XmlNode {
    let mut x = xot::Xot::new();
    let doc = x.parse(xml).unwrap();
    let root = x.document_element(doc).unwrap();
    convert(&x, root).unwrap()
}

fn model_of_xml(xml: &str) -> ArchiModel {
    load_model(tree_of_xml(xml)).unwrap()
}

#[test]
fn test_folder_info_borrow() {
    let folder = FolderInfo { id: "id-1".to_string(), name: "Test Folder".to_string() };
    let borrowed: &str = folder.borrow();
    assert_eq!(borrowed, "Test Folder");
    let borrowed2: &str = (&folder).borrow();
    assert_eq!(borrowed2, "Test Folder");
}

#[test]
fn test_load_model() {
    let xml = r#"<?xml version='1.0' encoding='UTF-8'?>
        <archimate:model xmlns:archimate='http://www.archimatetool.com/archimate'>
            <folder type='diagrams' name='Views' id='folder-1'/>
        </archimate:model>"#;

    let model = model_of_xml(xml);

    assert!(model.view_map.len() == 0);
}

#[test]
fn test_find_missing_views() {
    let source = model_of_xml(
        r#"<?xml version='1.0' encoding='UTF-8'?>
        <archimate:model xmlns:archimate='http://www.archimatetool.com/archimate' xmlns:xsi='http://www.w3.org/2001/XMLSchema-instance'>
            <folder type='diagrams' name='Views' id='folder-1'>
                <element xsi:type='archimate:ArchimateDiagramModel'
                        id='view-1' name='Test View'/>
            </folder>
        </archimate:model>"#,
    );

    let target = model_of_xml(
        r#"<?xml version='1.0' encoding='UTF-8'?>
        <archimate:model xmlns:archimate='http://www.archimatetool.com/archimate'>
            <folder type='diagrams' name='Views' id='folder-1'/>
        </archimate:model>"#,
    );

    let missing = find_missing_views(&source, &target);
    assert_eq!(missing.len(), 1);
    assert_eq!(missing[0].id, "view-1");
    assert_eq!(missing[0].name, "Test View");
}

#[test]
fn test_recursive_find_or_create_folder_path() {
    let mut model = model_of_xml(
        r#"<?xml version='1.0' encoding='UTF-8'?>
        <archimate:model xmlns:archimate='http://www.archimatetool.com/archimate'>
            <folder type='diagrams' name='Views' id='folder-1'/>
        </archimate:model>"#,
    );

    let folder_path = vec![
        FolderInfo { id: "folder-1".to_string(), name: "Level 1".to_string() },
        FolderInfo { id: "folder-2".to_string(), name: "Level 2".to_string() },
    ];

    let folder = recursive_find_or_create_folder_path(&mut model, &folder_path);
    let node = model.tree.node_at(&folder, 0).unwrap();
    let folder_name = node.get_attr("name");
    assert_eq!(folder_name.as_deref(), Some("Level 2"));
}

#[test]
fn test_load_model_classifies_elements_and_views() {
    let model = model_of_xml(
        r#"<?xml version='1.0' encoding='UTF-8'?>
        <archimate:model xmlns:archimate='http://www.archimatetool.com/archimate' xmlns:xsi='http://www.w3.org/2001/XMLSchema-instance'>
            <folder type='business' name='Business' id='f-b'>
                <element xsi:type='archimate:BusinessActor' id='elem-A' name='Actor'/>
                <folder name='Inner' id='f-i'>
                    <element xsi:type='archimate:BusinessRole' id='elem-B' name='Role'/>
                </folder>
                <element id='untyped' name='ignored'/>
            </folder>
            <folder type='diagrams' name='Views' id='f-v'>
                <element xsi:type='archimate:ArchimateDiagramModel' id='view-1' name='Default View'/>
            </folder>
        </archimate:model>"#,
    );

    assert_eq!(model.element_map.len(), 2);
    assert_eq!(model.view_map.len(), 1);
    assert!(model.element_map.get("elem-A").is_some());
    assert!(model.element_map.get("untyped").is_none());
    assert!(model.view_map.get("view-1").is_some());

    let b = model.element_map.get("elem-B").unwrap();
    assert_eq!(b.name, "Role");
    assert_eq!(b.folder_path.len(), 2);
    assert_eq!(b.folder_path[0].name, "Business");
    assert_eq!(b.folder_path[1].name, "Inner");
}

#[test]
fn test_load_model_missing_id_is_rejected() {
    let tree = tree_of_xml(
        r#"<?xml version='1.0' encoding='UTF-8'?>
        <archimate:model xmlns:archimate='http://www.archimatetool.com/archimate' xmlns:xsi='http://www.w3.org/2001/XMLSchema-instance'>
            <folder type='business' name='Business' id='f-b'>
                <element xsi:type='archimate:BusinessActor' name='Actor without id'/>
            </folder>
        </archimate:model>"#,
    );

    assert!(matches!(load_model(tree), Err(ModelError::MissingAttribute)));
}

#[test]
fn test_load_model_folder_without_name_is_rejected() {
    let tree = tree_of_xml(
        r#"<?xml version='1.0' encoding='UTF-8'?>
        <archimate:model xmlns:archimate='http://www.archimatetool.com/archimate'>
            <folder type='business' id='f-b'/>
        </archimate:model>"#,
    );

    assert!(matches!(load_model(tree), Err(ModelError::MissingAttribute)));
}

#[test]
fn test_find_missing_views_is_exact_and_stable() {
    let source_xml = r#"<?xml version='1.0' encoding='UTF-8'?>
        <archimate:model xmlns:archimate='http://www.archimatetool.com/archimate' xmlns:xsi='http://www.w3.org/2001/XMLSchema-instance'>
            <folder type='diagrams' name='Views' id='f-v'>
                <element xsi:type='archimate:ArchimateDiagramModel' id='view-1' name='One'/>
                <element xsi:type='archimate:ArchimateDiagramModel' id='view-2' name='Two'/>
                <element xsi:type='archimate:ArchimateDiagramModel' id='view-3' name='Three'/>
            </folder>
        </archimate:model>"#;
    let target_xml = r#"<?xml version='1.0' encoding='UTF-8'?>
        <archimate:model xmlns:archimate='http://www.archimatetool.com/archimate' xmlns:xsi='http://www.w3.org/2001/XMLSchema-instance'>
            <folder type='diagrams' name='Views' id='f-v'>
                <element xsi:type='archimate:ArchimateDiagramModel' id='view-2' name='Two'/>
            </folder>
        </archimate:model>"#;
    let source = model_of_xml(source_xml);
    let target = model_of_xml(target_xml);

    let missing = find_missing_views(&source, &target);
    let ids: Vec<&str> = missing.iter().map(|m| m.id.as_str()).collect();
    assert_eq!(ids, vec!["view-1", "view-3"]);

    let again = find_missing_views(&model_of_xml(source_xml), &model_of_xml(target_xml));
    let ids_again: Vec<&str> = again.iter().map(|m| m.id.as_str()).collect();
    assert_eq!(ids, ids_again);
}

#[test]
fn test_joined_path_separates_labels() {
    let path = vec![
        FolderInfo { id: "a".to_string(), name: "Views".to_string() },
        FolderInfo { id: "b".to_string(), name: "Archive".to_string() },
    ];
    assert_eq!(joined_path(&path), "Views > Archive");
    assert_eq!(joined_path(&vec![]), "");
}
