use virtual_view_dom::{
    int_to_string, to_json_string, usize_to_string, view_id, Prop, Props, RawView, ToHtmlString,
};

fn div_with_props(props: Props, children: Vec<RawView>) -> RawView {
    RawView::Data { kind: String::from("div"), key: None, props, children }
}

#[test]
fn test_to_html_string() {
    let mut style = Props::new();
    style.set(String::from("color"), Prop::Str(String::from("#F00")));
    style.set(String::from("font-size"), Prop::Str(String::from("32px")));
    let mut props = Props::new();
    props.set(
        String::from("array"),
        Prop::Array(vec![Prop::Number(0), Prop::Number(1), Prop::Number(2)]),
    );
    props.set(String::from("class"), Prop::Str(String::from("Root")));
    props.set(String::from("style"), Prop::Object(style));
    let view = div_with_props(props, vec![RawView::Text(String::from("Hello, world!"))]);
    assert_eq!(
        view.to_html_string(),
        "<div array=\"0,1,2,\" class=\"Root\" style=\"color:#F00;font-size:32px;\"><span>Hello, world!</span></div>"
    );
}

#[test]
fn html_of_text_leaf() {
    let view = RawView::Text(String::from("hi"));
    assert_eq!(view.to_html_string(), "<span>hi</span>");
}

#[test]
fn html_of_empty_element() {
    let view = div_with_props(Props::new(), vec![]);
    assert_eq!(view.to_html_string(), "<div></div>");
}

#[test]
fn html_of_scalar_props() {
    let mut props = Props::new();
    props.set(String::from("a"), Prop::Null);
    props.set(String::from("b"), Prop::Boolean(true));
    props.set(String::from("c"), Prop::Number(-7));
    let view = div_with_props(props, vec![]);
    assert_eq!(view.to_html_string(), "<div a=\"null\" b=\"true\" c=\"-7\"></div>");
}

#[test]
fn decimal_renders_zero_and_large() {
    assert_eq!(usize_to_string(0), "0");
    assert_eq!(usize_to_string(12345), "12345");
    assert_eq!(usize_to_string(1000), "1000");
}

#[test]
fn int_renders_signed_extremes() {
    assert_eq!(int_to_string(-42), "-42");
    assert_eq!(int_to_string(0), "0");
    assert_eq!(int_to_string(i64::MIN), "-9223372036854775808");
    assert_eq!(int_to_string(i64::MAX), "9223372036854775807");
}

#[test]
fn json_of_scalars() {
    assert_eq!(to_json_string(&Prop::Null), "null");
    assert_eq!(to_json_string(&Prop::Boolean(false)), "false");
    assert_eq!(to_json_string(&Prop::Number(12)), "12");
    assert_eq!(to_json_string(&Prop::Str(String::from("Root"))), "\"Root\"");
}

#[test]
fn json_escapes_string_bodies() {
    let s = String::from("a\"b\\c\nd\t\u{1f}");
    assert_eq!(to_json_string(&Prop::Str(s)), "\"a\\\"b\\\\c\\nd\\t\\u001f\"");
}

#[test]
fn json_of_arrays_and_objects() {
    let arr = Prop::Array(vec![Prop::Number(1), Prop::Str(String::from("x")), Prop::Null]);
    assert_eq!(to_json_string(&arr), "[1,\"x\",null]");
    let mut o = Props::new();
    o.set(String::from("k"), Prop::Number(3));
    o.set(String::from("m"), Prop::Boolean(true));
    assert_eq!(to_json_string(&Prop::Object(o)), "{\"k\":3,\"m\":true}");
}

#[test]
fn view_id_uses_key_or_position() {
    assert_eq!(view_id(&String::from("0"), None, 3), "0.3");
    let key = String::from("K");
    assert_eq!(view_id(&String::from("0"), Some(&key), 3), "0.K");
    assert_eq!(view_id(&String::from("0.K"), None, 10), "0.K.10");
}

#[test]
fn props_keep_insertion_order_and_replace_in_place() {
    let mut props = Props::new();
    props.set(String::from("b"), Prop::Number(1));
    props.set(String::from("a"), Prop::Number(2));
    props.set(String::from("b"), Prop::Number(3));
    assert_eq!(props.len(), 2);
    assert_eq!(props.key_at(0), "b");
    assert_eq!(props.key_at(1), "a");
    match props.get(&String::from("b")) {
        Some(Prop::Number(n)) => assert_eq!(*n, 3),
        _ => panic!("expected the replaced number"),
    }
    props.remove(&String::from("b"));
    assert_eq!(props.len(), 1);
    assert!(props.get(&String::from("b")).is_none());
}
