use trie_element::Element;

fn leaf(label: &str) -> Element<()> {
    Element::Value { label: label.into(), value: (), children: vec![] }
}

fn get_test_example() -> Element<()> {
    Element::Base {
        label: "in".into(),
        children: vec![Element::Node {
            label: "d".into(),
            children: vec![
                leaf("ustry"),
                Element::Node {
                    label: "ustri".into(),
                    children: vec![Element::Value {
                        label: "al".into(),
                        value: (),
                        children: vec![leaf("ization")],
                    }],
                },
                Element::Value { label: "ia".into(), value: (), children: vec![leaf("n")] },
            ],
        }],
    }
}

#[test]
fn test_collect_all_child_values() {
    let test_example = get_test_example();
    let res = test_example
        .collect_all_child_values()
        .into_iter()
        .map(|(label, _)| label)
        .collect::<Vec<_>>();
    let expected = vec!["industry", "india", "industrial", "indian", "industrialization"]
        .into_iter()
        .map(String::from)
        .collect::<Vec<_>>();
    assert_eq!(res, expected)
}

#[test]
fn collect_on_empty_base_is_empty() {
    let root: Element<u32> = Element::Base { label: "root".into(), children: vec![] };
    assert!(root.collect_all_child_values().is_empty());
    let bare: Element<u32> = Element::Base { label: String::new(), children: vec![] };
    assert!(bare.collect_all_child_values().is_empty());
}

#[test]
fn collect_includes_receiver_value_and_values() {
    let root = Element::Value {
        label: "a".to_string(),
        value: 1u32,
        children: vec![
            Element::Node {
                label: "b".to_string(),
                children: vec![Element::Value { label: "c".to_string(), value: 3, children: vec![] }],
            },
            Element::Value { label: "d".to_string(), value: 4, children: vec![] },
        ],
    };
    let res = root.collect_all_child_values();
    let got: Vec<(String, u32)> = res.into_iter().map(|(k, v)| (k, *v)).collect();
    assert_eq!(got, vec![("a".to_string(), 1), ("ad".to_string(), 4), ("abc".to_string(), 3)]);
}

#[test]
fn collect_on_a_subtree_starts_at_its_label() {
    let root = get_test_example();
    let d = &root.children()[0];
    let keys: Vec<String> = d.collect_all_child_values().into_iter().map(|(k, _)| k).collect();
    assert_eq!(keys, vec!["dustry", "dia", "dustrial", "dian", "dustrialization"]);
}

#[test]
fn label_prefix_round_trip() {
    let mut e: Element<u8> = Element::Node { label: "ustry".into(), children: vec![leaf_u8("x")] };
    for p in ["", "ind", "é€", "日本"] {
        e.add_label_prefix(p);
        assert_eq!(e.label(), format!("{}ustry", p));
        e.remove_label_prefix(p.len());
        assert_eq!(e.label(), "ustry");
        assert!(e.is_node());
        assert_eq!(e.children().len(), 1);
    }
}

fn leaf_u8(label: &str) -> Element<u8> {
    Element::Value { label: label.into(), value: 0, children: vec![] }
}

#[test]
fn remove_label_prefix_cuts_bytes() {
    let mut e = leaf_u8("industry");
    e.remove_label_prefix(3);
    assert_eq!(e.label(), "ustry");
    e.remove_label_prefix(0);
    assert_eq!(e.label(), "ustry");
    e.remove_label_prefix(5);
    assert_eq!(e.label(), "");
    let mut m = leaf_u8("éa");
    m.remove_label_prefix(2);
    assert_eq!(m.label(), "a");
    assert_eq!(m.value(), Some(&0));
}

#[test]
fn add_label_prefix_prepends() {
    let mut e = leaf_u8("an");
    e.add_label_prefix("indi");
    assert_eq!(e.label(), "indian");
    e.add_label_prefix("");
    assert_eq!(e.label(), "indian");
}

#[test]
fn node_to_value_promotes_in_place() {
    let mut root: Element<u8> = Element::Base {
        label: "in".into(),
        children: vec![
            leaf_u8("a"),
            Element::Node { label: "d".into(), children: vec![leaf_u8("x"), leaf_u8("y"), leaf_u8("z")] },
            leaf_u8("b"),
        ],
    };
    let node = &mut root.children_mut()[1];
    assert!(node.is_node());
    assert_eq!(node.value(), None);
    Element::node_to_value(node, 7);
    assert!(!node.is_node());
    assert_eq!(node.label(), "d");
    assert_eq!(node.value(), Some(&7));
    let labels: Vec<&str> = node.children().iter().map(|c| c.label()).collect();
    assert_eq!(labels, vec!["x", "y", "z"]);
    let siblings: Vec<&str> = root.children().iter().map(|c| c.label()).collect();
    assert_eq!(siblings, vec!["a", "d", "b"]);
    let keys: Vec<String> = root.collect_all_child_values().into_iter().map(|(k, _)| k).collect();
    assert_eq!(keys, vec!["ina", "ind", "inb", "indx", "indy", "indz"]);
}

#[test]
fn is_node_only_for_node() {
    let b: Element<u8> = Element::Base { label: "r".into(), children: vec![] };
    let n: Element<u8> = Element::Node { label: "r".into(), children: vec![] };
    assert!(!b.is_node());
    assert!(n.is_node());
    assert!(!leaf_u8("r").is_node());
}

#[test]
fn value_accessors() {
    let mut v = Element::Value { label: "k".to_string(), value: 10u32, children: vec![] };
    assert_eq!(v.value(), Some(&10));
    if let Some(x) = v.value_mut() {
        *x += 5;
    }
    assert_eq!(v.value(), Some(&15));
    let mut n: Element<u32> = Element::Node { label: "k".into(), children: vec![] };
    assert!(n.value_mut().is_none());
    assert!(n.value().is_none());
}

#[test]
fn children_mut_edits_children() {
    let mut n: Element<u8> = Element::Node { label: "p".into(), children: vec![leaf_u8("a")] };
    n.children_mut().push(leaf_u8("b"));
    n.children_mut().remove(0);
    let labels: Vec<&str> = n.children().iter().map(|c| c.label()).collect();
    assert_eq!(labels, vec!["b"]);
    assert_eq!(n.label(), "p");
}

#[test]
fn unpack_returns_parts() {
    let v = Element::Value { label: "k".to_string(), value: 3u8, children: vec![leaf_u8("c")] };
    let (label, value, children) = v.unpack();
    assert_eq!(label, "k");
    assert_eq!(value, Some(3));
    assert_eq!(children.len(), 1);
    let b: Element<u8> = Element::Base { label: "r".into(), children: vec![] };
    let (label, value, children) = b.unpack();
    assert_eq!(label, "r");
    assert_eq!(value, None);
    assert!(children.is_empty());
}
