use enumrs::{tagged_derive, Category, Kind, TagError, VariantDecl};

fn decl(tokens: &[&str]) -> Vec<String> {
    tokens.iter().map(|t| t.to_string()).collect()
}

fn variant(name: &str, decls: Vec<Vec<String>>) -> VariantDecl {
    VariantDecl { name: name.to_string(), decls }
}

fn run_err(variants: Vec<VariantDecl>) -> TagError {
    match tagged_derive(&variants) {
        Ok(_) => panic!("the run should fail"),
        Err(e) => e,
    }
}

#[test]
fn test_bad_name() {
    let e = run_err(vec![variant("Variant", vec![decl(&["1padding"])])]);
    assert_eq!(e.category, Category::InvalidFactName);
    assert_eq!(e.fact, "1padding");
    assert_eq!(e.variant, "Variant");
}

#[test]
fn test_missing_variable() {
    let e = run_err(vec![variant(
        "Variant",
        vec![decl(&["value", ",", "other", "+", "7"])],
    )]);
    assert_eq!(e.category, Category::UnresolvableExpression);
    assert_eq!(e.fact, "value");
}

#[test]
fn test_missing_name() {
    let e = run_err(vec![variant("Variant", vec![decl(&[])])]);
    assert_eq!(e.category, Category::InvalidFactName);
    assert_eq!(e.fact, "");
}

#[test]
fn test_duplicate_tags() {
    let e = run_err(vec![variant(
        "Variant",
        vec![decl(&["tagname"]), decl(&["tagname"])],
    )]);
    assert_eq!(e.category, Category::DuplicateFact);
    assert_eq!(e.fact, "tagname");
}

#[test]
fn test_mismatched_types() {
    let e = run_err(vec![
        variant("Variant1", vec![decl(&["tagname"])]),
        variant("Variant2", vec![decl(&["tagname", ",", "3.5"])]),
    ]);
    assert_eq!(
        e.category,
        Category::TypeMismatch { expected: Kind::Boolean, found: Kind::Float }
    );
    assert_eq!(e.fact, "tagname");
    assert_eq!(e.variant, "Variant2");
}

#[test]
fn test_malformed_tag() {
    let e = run_err(vec![variant("Variant", vec![decl(&["name", "10"])])]);
    assert_eq!(e.category, Category::MalformedDeclaration);
    assert_eq!(e.fact, "name");
}
