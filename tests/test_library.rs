use enumrs::{render_impl, tagged_derive, Accessor, Category, Kind, Tag, Tags, Value, VariantDecl};

fn decl(tokens: &[&str]) -> Vec<String> {
    tokens.iter().map(|t| t.to_string()).collect()
}

fn variant(name: &str, decls: Vec<Vec<String>>) -> VariantDecl {
    VariantDecl { name: name.to_string(), decls }
}

fn find<'a>(accs: &'a [Accessor], fact: &str) -> &'a Accessor {
    accs.iter().find(|a| a.name == fact).expect("accessor exists")
}

fn at(accs: &[Accessor], fact: &str, v: &str) -> Option<Value> {
    find(accs, fact).lookup(&v.to_string())
}

#[test]
fn chained_dependency_resolves_in_any_order() {
    let variants = vec![variant(
        "AFG",
        vec![
            decl(&["index", ",", "id", "-", "1"]),
            decl(&["name", ",", "\"Afghanistan\""]),
            decl(&["id", ",", "1"]),
        ],
    )];
    let accs = tagged_derive(&variants).unwrap();
    assert_eq!(at(&accs, "id", "AFG"), Some(Value::Integer(1)));
    assert_eq!(at(&accs, "index", "AFG"), Some(Value::Integer(0)));
    assert_eq!(at(&accs, "name", "AFG"), Some(Value::String("Afghanistan".to_string())));
}

#[test]
fn integer_and_float_of_one_fact_mismatch() {
    let variants = vec![
        variant("V1", vec![decl(&["x", ",", "1"])]),
        variant("V2", vec![decl(&["x", ",", "3.5"])]),
    ];
    let e = tagged_derive(&variants).unwrap_err();
    assert_eq!(e.category, Category::TypeMismatch { expected: Kind::Integer, found: Kind::Float });
    assert_eq!(e.fact, "x");
    assert_eq!(e.variant, "V2");
}

#[test]
fn duplicate_with_expressions_fails() {
    let variants = vec![variant(
        "V",
        vec![decl(&["name", ",", "1"]), decl(&["other", ",", "2"]), decl(&["name", ",", "3"])],
    )];
    let e = tagged_derive(&variants).unwrap_err();
    assert_eq!(e.category, Category::DuplicateFact);
    assert_eq!(e.fact, "name");
    assert_eq!(e.variant, "V");
}

#[test]
fn partial_coverage_falls_back_to_no_value() {
    let variants = vec![
        variant("V1", vec![decl(&["extra", ",", "5"])]),
        variant("V2", vec![]),
    ];
    let accs = tagged_derive(&variants).unwrap();
    assert_eq!(accs.len(), 1);
    assert!(accs[0].fallback);
    assert_eq!(at(&accs, "extra", "V1"), Some(Value::Integer(5)));
    assert_eq!(at(&accs, "extra", "V2"), None);
}

#[test]
fn full_coverage_has_no_fallback() {
    let variants = vec![
        variant("A", vec![decl(&["n", ",", "2", "*", "3"])]),
        variant("B", vec![decl(&["k", ",", "4"]), decl(&["n", ",", "k", "+", "1"])]),
    ];
    let accs = tagged_derive(&variants).unwrap();
    let n = find(&accs, "n");
    assert!(!n.fallback);
    assert_eq!(n.lookup(&"A".to_string()), Some(Value::Integer(6)));
    assert_eq!(n.lookup(&"B".to_string()), Some(Value::Integer(5)));
    assert!(find(&accs, "k").fallback);
}

#[test]
fn other_variant_facts_are_not_in_scope() {
    let variants = vec![
        variant("V1", vec![decl(&["other", ",", "10"])]),
        variant("V2", vec![decl(&["value", ",", "other", "+", "7"])]),
    ];
    let e = tagged_derive(&variants).unwrap_err();
    assert_eq!(e.category, Category::UnresolvableExpression);
    assert_eq!(e.fact, "value");
    assert_eq!(e.variant, "V2");
}

#[test]
fn circular_dependency_is_unresolvable() {
    let variants = vec![variant(
        "V",
        vec![decl(&["a", ",", "b", "+", "1"]), decl(&["b", ",", "a", "+", "1"])],
    )];
    let e = tagged_derive(&variants).unwrap_err();
    assert_eq!(e.category, Category::UnresolvableExpression);
    assert_eq!(e.fact, "a");
}

#[test]
fn self_reference_is_unresolvable() {
    let variants = vec![variant("V", vec![decl(&["a", ",", "a", "+", "1"])])];
    let e = tagged_derive(&variants).unwrap_err();
    assert_eq!(e.category, Category::UnresolvableExpression);
}

#[test]
fn tuple_value_is_unsupported() {
    let variants = vec![variant("V", vec![decl(&["t", ",", "(1, 2)"])])];
    let e = tagged_derive(&variants).unwrap_err();
    assert_eq!(e.category, Category::UnsupportedValueKind);
    assert_eq!(e.fact, "t");
}

#[test]
fn empty_expression_defaults_to_true() {
    let variants = vec![variant("V", vec![decl(&["flag"]), decl(&["other", ","])])];
    let accs = tagged_derive(&variants).unwrap();
    assert_eq!(at(&accs, "flag", "V"), Some(Value::Boolean(true)));
    assert_eq!(at(&accs, "other", "V"), Some(Value::Boolean(true)));
}

#[test]
fn accessors_come_in_name_order() {
    let variants = vec![
        variant("V1", vec![decl(&["b", ",", "1"]), decl(&["c", ",", "2"])]),
        variant("V2", vec![decl(&["a", ",", "3"]), decl(&["b", ",", "4"])]),
    ];
    let accs = tagged_derive(&variants).unwrap();
    let names: Vec<&str> = accs.iter().map(|a| a.name.as_str()).collect();
    assert_eq!(names, vec!["a", "b", "c"]);
    let b = find(&accs, "b");
    assert_eq!(b.arms.len(), 2);
    assert_eq!(b.arms[0].0, "V1");
    assert_eq!(b.arms[1].0, "V2");
}

#[test]
fn first_failing_variant_decides_the_error() {
    let variants = vec![
        variant("V1", vec![decl(&["x", "y"])]),
        variant("V2", vec![decl(&["9x"])]),
    ];
    let e = tagged_derive(&variants).unwrap_err();
    assert_eq!(e.category, Category::MalformedDeclaration);
    assert_eq!(e.variant, "V1");
}

#[test]
fn two_runs_give_the_same_code() {
    let variants = vec![
        variant("V1", vec![decl(&["extra", ",", "5"]), decl(&["s", ",", "\"a\""])]),
        variant("V2", vec![decl(&["s", ",", "\"b\""])]),
    ];
    let a = tagged_derive(&variants).unwrap();
    let b = tagged_derive(&variants).unwrap();
    assert_eq!(a, b);
    let name = "E".to_string();
    assert_eq!(render_impl(&name, &a), render_impl(&name, &b));
}

#[test]
fn rendered_code_is_exact() {
    let variants = vec![
        variant("V1", vec![decl(&["extra", ",", "5"])]),
        variant("V2", vec![]),
    ];
    let accs = tagged_derive(&variants).unwrap();
    assert_eq!(
        accs[0].render().unwrap(),
        "pub fn extra(&self) -> Option<i64> { match self { Self::V1 => Some(5i64), _ => None, } } "
    );
    assert_eq!(
        render_impl(&"E".to_string(), &accs).unwrap(),
        "impl E { pub fn extra(&self) -> Option<i64> { match self { Self::V1 => Some(5i64), _ => None, } } }"
    );
}

#[test]
fn rendered_code_without_fallback() {
    let variants = vec![
        variant("A", vec![decl(&["s", ",", "\"x\""])]),
        variant("B", vec![decl(&["s", ",", "\"y\""])]),
    ];
    let accs = tagged_derive(&variants).unwrap();
    assert_eq!(
        accs[0].render().unwrap(),
        "pub fn s(&self) -> Option<&'static str> { match self { Self::A => Some(\"x\"), Self::B => Some(\"y\"), } } "
    );
}

#[test]
fn infinite_float_has_no_literal() {
    let variants = vec![variant("V", vec![decl(&["f", ",", "1.0", "/", "0.0"])])];
    let accs = tagged_derive(&variants).unwrap();
    assert_eq!(at(&accs, "f", "V"), Some(Value::Float(f64::INFINITY.to_bits())));
    assert_eq!(accs[0].render(), None);
    assert_eq!(render_impl(&"E".to_string(), &accs), None);
}

#[test]
fn literals_of_each_kind() {
    assert_eq!(Value::String("a\"b".to_string()).value_tokens(), Some("\"a\\\"b\"".to_string()));
    assert_eq!(Value::Float(3.5f64.to_bits()).value_tokens(), Some("3.5f64".to_string()));
    assert_eq!(Value::Integer(-3).value_tokens(), Some("-3i64".to_string()));
    assert_eq!(Value::Integer(120).value_tokens(), Some("120i64".to_string()));
    assert_eq!(Value::Boolean(false).value_tokens(), Some("false".to_string()));
    assert_eq!(Value::Unsupported.value_tokens(), None);
    assert_eq!(Value::Float(f64::NAN.to_bits()).value_tokens(), None);
}

#[test]
fn return_types_of_each_kind() {
    assert_eq!(Value::String(String::new()).return_type_string(), "&'static str");
    assert_eq!(Value::Float(0).return_type_string(), "f64");
    assert_eq!(Value::Integer(0).return_type_string(), "i64");
    assert_eq!(Value::Boolean(true).return_type_string(), "bool");
    assert_eq!(Kind::Unsupported.rust_type(), None);
}

#[test]
fn float_facts_evaluate() {
    let variants = vec![variant("V", vec![decl(&["h", ",", "1.5", "*", "3"])])];
    let accs = tagged_derive(&variants).unwrap();
    assert_eq!(at(&accs, "h", "V"), Some(Value::Float(4.5f64.to_bits())));
    assert_eq!(accs[0].kind, Kind::Float);
}

#[test]
fn declaration_text_is_joined_and_trimmed() {
    let t = Tag::parse(&"V".to_string(), &decl(&["n", ",", " 1", "+", "2 "])).unwrap();
    assert_eq!(t.name, "n");
    assert_eq!(t.variant, "V");
    assert_eq!(t.expression, "1+2");
    assert!(!t.is_evaluated());
    let t = Tag::parse(&"V".to_string(), &decl(&["n", ",", "   "])).unwrap();
    assert_eq!(t.expression, "true");
}

#[test]
fn keyword_is_not_a_fact_name() {
    let e = Tag::parse(&"V".to_string(), &decl(&["fn", ",", "1"])).unwrap_err();
    assert_eq!(e.category, Category::InvalidFactName);
    assert_eq!(e.fact, "fn");
}

#[test]
fn tags_of_one_variant_resolve() {
    let decls = vec![decl(&["b", ",", "a", "*", "2"]), decl(&["a", ",", "21"])];
    let tags = Tags::parse(&"V".to_string(), &decls).unwrap();
    assert_eq!(tags.0.len(), 2);
    assert_eq!(tags.0[0].name, "b");
    assert_eq!(tags.0[0].value, Some(Value::Integer(42)));
    assert_eq!(tags.0[1].value, Some(Value::Integer(21)));
    assert!(tags.0[0].is_evaluated());
    assert!(tags.0[0].is_type(&tags.0[1]));
    let s = Tags::parse(&"W".to_string(), &vec![decl(&["c", ",", "\"z\""])]).unwrap();
    assert!(!tags.0[0].is_type(&s.0[0]));
}

#[test]
fn tag_evaluates_in_its_scope() {
    let mut t = Tag::parse(&"V".to_string(), &decl(&["n", ",", "k", "*", "2"])).unwrap();
    let mut scope = enumrs::Scope::new();
    assert_eq!(t.evaluate(&scope), None);
    assert!(!t.is_evaluated());
    assert!(scope.define(&"k".to_string(), &Value::Integer(4)));
    assert!(!scope.define(&"k".to_string(), &Value::Boolean(true)));
    assert_eq!(t.evaluate(&scope), Some(Value::Integer(8)));
    assert!(t.is_evaluated());
    let empty = enumrs::Scope::new();
    assert_eq!(t.evaluate(&empty), Some(Value::Integer(8)));
}

#[test]
fn power_operator_is_not_evaluated() {
    let variants = vec![variant("V", vec![decl(&["p", ",", "2", "^", "3"])])];
    let e = tagged_derive(&variants).unwrap_err();
    assert_eq!(e.category, Category::UnresolvableExpression);
    assert_eq!(e.fact, "p");
}

#[test]
fn builtin_functions_are_not_available() {
    let variants = vec![variant("V", vec![decl(&["a", ",", "math::abs(-3)"])])];
    let e = tagged_derive(&variants).unwrap_err();
    assert_eq!(e.category, Category::UnresolvableExpression);
    let variants = vec![variant("V", vec![decl(&["s", ",", "str::substring(\"é\", 1)"])])];
    let e = tagged_derive(&variants).unwrap_err();
    assert_eq!(e.category, Category::UnresolvableExpression);
}

#[test]
fn integer_overflow_is_unresolvable() {
    let variants = vec![variant(
        "V",
        vec![decl(&["a", ",", "9223372036854775807", "+", "1"])],
    )];
    let e = tagged_derive(&variants).unwrap_err();
    assert_eq!(e.category, Category::UnresolvableExpression);
}

#[test]
fn declaration_order_does_not_change_values() {
    let a = vec![variant(
        "V",
        vec![decl(&["index", ",", "id", "-", "1"]), decl(&["id", ",", "1"])],
    )];
    let b = vec![variant(
        "V",
        vec![decl(&["id", ",", "1"]), decl(&["index", ",", "id", "-", "1"])],
    )];
    let (ra, rb) = (tagged_derive(&a).unwrap(), tagged_derive(&b).unwrap());
    assert_eq!(ra, rb);
    assert_eq!(at(&ra, "index", "V"), Some(Value::Integer(0)));
    assert_eq!(at(&ra, "id", "V"), Some(Value::Integer(1)));
}

#[test]
fn unresolved_fact_is_reported_before_unsupported_value() {
    let variants = vec![variant(
        "V",
        vec![decl(&["t", ",", "(1, 2)"]), decl(&["u", ",", "t"])],
    )];
    let e = tagged_derive(&variants).unwrap_err();
    assert_eq!(e.category, Category::UnresolvableExpression);
    assert_eq!(e.fact, "u");
}

#[test]
fn caret_inside_string_literal_is_evaluated() {
    let variants = vec![variant(
        "V",
        vec![decl(&["s", ",", "\"a^b\""]), decl(&["t", ",", "\"x\\\"^\"", "+", "s"])],
    )];
    let accs = tagged_derive(&variants).unwrap();
    assert_eq!(at(&accs, "s", "V"), Some(Value::String("a^b".to_string())));
    assert_eq!(at(&accs, "t", "V"), Some(Value::String("x\"^a^b".to_string())));
}

#[test]
fn caret_inside_comment_is_not_an_operator() {
    let variants = vec![variant("V", vec![decl(&["n", ",", "1", "+", "2", "/* ^ */"])])];
    let accs = tagged_derive(&variants).unwrap();
    assert_eq!(at(&accs, "n", "V"), Some(Value::Integer(3)));
}

#[test]
fn nan_results_have_one_bit_pattern() {
    let variants = vec![variant(
        "V",
        vec![decl(&["a", ",", "0.0", "/", "0.0"]), decl(&["b", ",", "-", "(0.0 / 0.0)"])],
    )];
    let accs = tagged_derive(&variants).unwrap();
    assert_eq!(at(&accs, "a", "V"), Some(Value::Float(0x7ff8000000000000)));
    assert_eq!(at(&accs, "b", "V"), Some(Value::Float(0x7ff8000000000000)));
}

#[test]
fn plain_string_literal_is_quoted_as_is() {
    assert_eq!(
        Value::String("Palestine, State of (PSE)".to_string()).value_tokens(),
        Some("\"Palestine, State of (PSE)\"".to_string())
    );
}
