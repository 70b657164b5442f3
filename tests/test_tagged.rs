use enumrs::{tagged_derive, Accessor, Value, VariantDecl};

fn decl(tokens: &[&str]) -> Vec<String> {
    tokens.iter().map(|t| t.to_string()).collect()
}

fn quoted(s: &str) -> String {
    format!("\"{}\"", s)
}

fn country(code: &str, value: &str, name: &str, uuid: &str, description: &str) -> VariantDecl {
    let (name, uuid, description) = (quoted(name), quoted(uuid), quoted(description));
    VariantDecl {
        name: code.to_string(),
        decls: vec![
            decl(&["value", ",", value]),
            decl(&["name", ",", &name]),
            decl(&["uuid", ",", &uuid]),
            decl(&["description", ",", &description]),
        ],
    }
}

fn countries() -> Vec<Accessor> {
    let variants = vec![
        country("AFG", "1", "Afghanistan", "c4448930-5269-11df-8e0a-080069138b88", "Afghanistan (AFG)"),
        country("ALB", "2", "Albania", "c44598ca-5269-11df-b8ba-080069138b88", "Albania (ALB)"),
        country("DZA", "3", "Algeria", "c446ab48-5269-11df-aec1-080069138b88", "Algeria (DZA)"),
        country(
            "UMI",
            "281",
            "United States Minor Outlying Islands",
            "64d78320-495e-4602-83e9-c07e6ba55de5",
            "United States Minor Outlying Islands (UMI)",
        ),
        country(
            "PSE",
            "282",
            "Palestine, State of",
            "c1efc87a-ea2b-4aa4-8f1b-405245c83a42",
            "Palestine, State of (PSE)",
        ),
    ];
    tagged_derive(&variants).expect("countries resolve")
}

fn get(accs: &[Accessor], fact: &str, variant: &str) -> Option<Value> {
    let acc = accs.iter().find(|a| a.name == fact).expect("accessor exists");
    acc.lookup(&variant.to_string())
}

fn text(s: &str) -> Option<Value> {
    Some(Value::String(s.to_string()))
}

#[test]
fn test_value_attribute() {
    let accs = countries();
    assert_eq!(get(&accs, "value", "PSE"), Some(Value::Integer(282)));
    assert_eq!(get(&accs, "value", "UMI"), Some(Value::Integer(281)));
}

#[test]
fn test_name_attribute() {
    let accs = countries();
    assert_eq!(get(&accs, "name", "PSE"), text("Palestine, State of"));
    assert_eq!(
        get(&accs, "name", "UMI"),
        text("United States Minor Outlying Islands")
    );
}

#[test]
fn test_uuid_attribute() {
    let accs = countries();
    assert_eq!(
        get(&accs, "uuid", "PSE"),
        text("c1efc87a-ea2b-4aa4-8f1b-405245c83a42")
    );
    assert_eq!(
        get(&accs, "uuid", "UMI"),
        text("64d78320-495e-4602-83e9-c07e6ba55de5")
    );
}

#[test]
fn test_description_attribute() {
    let accs = countries();
    assert_eq!(
        get(&accs, "description", "PSE"),
        text("Palestine, State of (PSE)")
    );
    assert_eq!(
        get(&accs, "description", "UMI"),
        text("United States Minor Outlying Islands (UMI)")
    );
}
