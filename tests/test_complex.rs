use enumrs::{tagged_derive, Accessor, Value, VariantDecl};

fn decl(tokens: &[&str]) -> Vec<String> {
    tokens.iter().map(|t| t.to_string()).collect()
}

fn variant(name: &str, height: &str) -> VariantDecl {
    VariantDecl {
        name: name.to_string(),
        decls: vec![
            decl(&["padding", ",", "10"]),
            decl(&["height", ",", height]),
            decl(&["width", ",", "800"]),
            decl(&["full_height", ",", "height", "+", "(padding * 2)"]),
            decl(&["full_width", ",", "width", "+", "(padding * 2)"]),
        ],
    }
}

fn styles() -> Vec<Accessor> {
    let variants = vec![
        variant("Heading", "100"),
        variant("Content", "900"),
        variant("Footer", "200"),
    ];
    tagged_derive(&variants).expect("styles resolve")
}

fn get(accs: &[Accessor], fact: &str, variant: &str) -> Option<i64> {
    let acc = accs.iter().find(|a| a.name == fact).expect("accessor exists");
    match acc.lookup(&variant.to_string()) {
        Some(Value::Integer(i)) => Some(i),
        None => None,
        other => panic!("unexpected value {:?}", other),
    }
}

#[test]
fn test_heading_simple_attributes() {
    let accs = styles();
    assert_eq!(get(&accs, "padding", "Heading"), Some(10));
    assert_eq!(get(&accs, "height", "Heading"), Some(100));
    assert_eq!(get(&accs, "width", "Heading"), Some(800));
}

#[test]
fn test_heading_complex_attributes() {
    let accs = styles();
    assert_eq!(get(&accs, "full_height", "Heading"), Some(120));
    assert_eq!(get(&accs, "full_width", "Heading"), Some(820));
}

#[test]
fn test_content_complex_attributes() {
    let accs = styles();
    assert_eq!(get(&accs, "full_height", "Content"), Some(920));
    assert_eq!(get(&accs, "full_width", "Content"), Some(820));
}
