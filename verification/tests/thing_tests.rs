use fdl::thing::{Prop, PropMap, PropValue, Thing, ThingMap};

fn float_of(value: &PropValue) -> f32 {
    match value {
        PropValue::Float(literal) => literal.parse::<f32>().unwrap(),
        other => panic!("not a float: {:?}", other),
    }
}

#[test]
fn prop_can_parse_int() {
    let prop = Prop::int_from_literal("name", "12");
    assert!(matches!(prop.value, PropValue::Int(12)));
}

#[test]
fn prop_can_parse_float() {
    let prop = Prop::float_from_literal("name", "12.1");
    assert_eq!(float_of(&prop.value), 12.1);
}

#[test]
fn prop_can_parse_bool() {
    let prop = Prop::bool_from_literal("name", "true");
    assert_eq!(prop.value, PropValue::Bool(true));
}

#[test]
fn prop_can_parse_string() {
    let prop = Prop::string_from_literal("name", "\"hello world\"");
    assert_eq!(prop.value, PropValue::String("hello world".to_string()));
}

#[test]
fn prop_recover_from_parse_errors_and_produce_err_props() {
    let int_prop = Prop::int_from_literal("name", "hello world");
    let float_prop = Prop::float_from_literal("name", "hello world");
    let bool_prop = Prop::bool_from_literal("name", "hello world");
    assert_eq!(int_prop.value, PropValue::Error);
    assert_eq!(float_prop.value, PropValue::Error);
    assert_eq!(bool_prop.value, PropValue::Error);
}

#[test]
fn things_have_names() {
    let thing = Thing::new("thing");
    assert_eq!(thing.name, "thing");
}

#[test]
fn props_can_be_added_to_things() {
    let mut thing = Thing::new("thing");
    thing.add_prop(Prop::string_from_literal("name", "hello world"));
    assert_eq!(thing.props.len(), 1);
    assert_eq!(
        thing.props.get("name").unwrap().value,
        PropValue::String("hello world".to_string())
    );
}

#[test]
fn things_can_be_added_as_children_to_things() {
    let mut thing = Thing::new("thing");
    thing.add_thing(Thing::new("thing2"));
    assert_eq!(thing.num_things(), 1);
    assert_eq!(thing.get_thing("thing2").unwrap().name, "thing2");
}

#[test]
fn string_prop_keeps_unquoted_text_as_it_is() {
    let prop = Prop::string_from_literal("name", "hello");
    assert_eq!(prop.name, "name");
    assert_eq!(prop.value, PropValue::String("hello".to_string()));
    let again = Prop::string_from_literal("name", "\"\"twice\"\"");
    assert_eq!(again.value, PropValue::String("\"twice\"".to_string()));
}

#[test]
fn new_err_has_no_value() {
    let prop = Prop::new_err("broken");
    assert_eq!(prop.name, "broken");
    assert_eq!(prop.value, PropValue::Error);
}

#[test]
fn int_prop_takes_the_whole_range_and_nothing_beyond() {
    assert_eq!(
        Prop::int_from_literal("n", "2147483647").value,
        PropValue::Int(i32::MAX)
    );
    assert_eq!(
        Prop::int_from_literal("n", "-2147483648").value,
        PropValue::Int(i32::MIN)
    );
    assert_eq!(
        Prop::int_from_literal("n", "2147483648").value,
        PropValue::Error
    );
    assert_eq!(
        Prop::int_from_literal("n", "-2147483649").value,
        PropValue::Error
    );
    assert_eq!(Prop::int_from_literal("n", "+7").value, PropValue::Int(7));
    assert_eq!(Prop::int_from_literal("n", "-0").value, PropValue::Int(0));
    assert_eq!(Prop::int_from_literal("n", "007").value, PropValue::Int(7));
    assert_eq!(Prop::int_from_literal("n", "").value, PropValue::Error);
    assert_eq!(Prop::int_from_literal("n", "-").value, PropValue::Error);
    assert_eq!(Prop::int_from_literal("n", " 1").value, PropValue::Error);
    assert_eq!(Prop::int_from_literal("n", "1.0").value, PropValue::Error);
    assert_eq!(Prop::int_from_literal("n", "true").value, PropValue::Error);
}

#[test]
fn bool_prop_takes_the_two_literals_only() {
    assert_eq!(
        Prop::bool_from_literal("b", "false").value,
        PropValue::Bool(false)
    );
    assert_eq!(Prop::bool_from_literal("b", "True").value, PropValue::Error);
    assert_eq!(Prop::bool_from_literal("b", "1").value, PropValue::Error);
    assert_eq!(Prop::bool_from_literal("b", "").value, PropValue::Error);
    assert_eq!(Prop::bool_from_literal("b", "true ").value, PropValue::Error);
}

#[test]
fn float_prop_keeps_the_literal() {
    assert_eq!(
        Prop::float_from_literal("f", "1.50").value,
        PropValue::Float("1.50".to_string())
    );
    assert_eq!(float_of(&Prop::float_from_literal("f", "-2.5e3").value), -2500.0);
    assert!(float_of(&Prop::float_from_literal("f", "inf").value).is_infinite());
    assert!(float_of(&Prop::float_from_literal("f", "NaN").value).is_nan());
    assert_eq!(Prop::float_from_literal("f", "12.1.3").value, PropValue::Error);
    assert_eq!(Prop::float_from_literal("f", "\"1.5\"").value, PropValue::Error);
}

#[test]
fn values_are_written_as_text() {
    assert_eq!(PropValue::Int(12).to_string(), "12");
    assert_eq!(PropValue::Int(-7).to_string(), "-7");
    assert_eq!(PropValue::Int(0).to_string(), "0");
    assert_eq!(PropValue::Int(i32::MIN).to_string(), "-2147483648");
    assert_eq!(PropValue::Int(i32::MAX).to_string(), "2147483647");
    assert_eq!(PropValue::Float("12.1".to_string()).to_string(), "12.1");
    assert_eq!(PropValue::Bool(true).to_string(), "true");
    assert_eq!(PropValue::Bool(false).to_string(), "false");
    assert_eq!(PropValue::String("a b".to_string()).to_string(), "a b");
    assert_eq!(PropValue::Error.to_string(), "Err");
}

#[test]
fn second_prop_of_a_name_replaces_the_first() {
    let mut thing = Thing::new("thing");
    thing.add_prop(Prop::int_from_literal("a", "1"));
    thing.add_prop(Prop::int_from_literal("b", "2"));
    assert_eq!(thing.props.len(), 2);
    thing.add_prop(Prop::bool_from_literal("a", "true"));
    assert_eq!(thing.props.len(), 2);
    assert_eq!(thing.props.get("a").unwrap().value, PropValue::Bool(true));
    assert_eq!(thing.props.get("b").unwrap().value, PropValue::Int(2));
    assert!(thing.props.get("c").is_none());
    let (key, prop) = thing.props.entry(0).unwrap();
    assert_eq!(key.as_str(), "a");
    assert_eq!(prop.value, PropValue::Bool(true));
    assert_eq!(thing.props.entry(1).unwrap().0.as_str(), "b");
    assert!(thing.props.entry(2).is_none());
}

#[test]
fn second_thing_of_a_name_replaces_the_first() {
    let mut thing = Thing::new("root");
    assert!(thing.add_thing(Thing::new("a")).is_none());
    assert!(thing.add_thing(Thing::new("b")).is_none());
    let newer = Thing::build("a").thing(Thing::new("below")).finish();
    let older = thing.add_thing(newer).unwrap();
    assert_eq!(older.name, "a");
    assert_eq!(older.num_things(), 0);
    assert_eq!(thing.num_things(), 2);
    assert_eq!(thing.get_thing("a").unwrap().num_things(), 1);
    assert!(thing.get_thing("c").is_none());
}

#[test]
fn things_below_can_be_changed_in_place() {
    let mut thing = Thing::build("root").thing(Thing::new("a")).finish();
    thing
        .get_thing_mut("a")
        .unwrap()
        .add_prop(Prop::int_from_literal("x", "1"));
    assert!(thing.get_thing_mut("b").is_none());
    assert_eq!(thing.get_thing("a").unwrap().props.len(), 1);
    thing.get_thing_mut("a").unwrap().name = "renamed".to_string();
    assert_eq!(thing.get_thing("a").unwrap().name, "renamed");
    assert!(thing.get_thing("renamed").is_none());
    assert_eq!(thing.num_things(), 1);
}

#[test]
fn builder_puts_props_and_things_in_order() {
    let thing = Thing::build("root")
        .prop(Prop::int_from_literal("x", "1"))
        .things(vec![Thing::new("a"), Thing::new("b"), Thing::new("a")])
        .thing(Thing::new("c"))
        .finish();
    assert_eq!(thing.name, "root");
    assert_eq!(thing.props.len(), 1);
    assert_eq!(thing.num_things(), 3);
    let mut names = Vec::new();
    thing.foreach(|below, _, depth| {
        if depth == 1 {
            names.push(below.name.clone());
        }
    });
    assert_eq!(names, vec!["a", "b", "c"]);
}

#[test]
fn maps_start_empty_and_keep_one_entry_for_each_name() {
    let mut props = PropMap::new();
    assert_eq!(props.len(), 0);
    assert!(props.insert("k".to_string(), Prop::new_err("k")).is_none());
    let before = props
        .insert("k".to_string(), Prop::int_from_literal("k", "3"))
        .unwrap();
    assert_eq!(before.value, PropValue::Error);
    assert_eq!(props.len(), 1);
    assert_eq!(props.get("k").unwrap().value, PropValue::Int(3));

    let mut things = ThingMap::new();
    assert_eq!(things.len(), 0);
    assert!(things.insert("k".to_string(), Thing::new("one")).is_none());
    assert!(things.insert("l".to_string(), Thing::new("two")).is_none());
    assert_eq!(
        things.insert("k".to_string(), Thing::new("three")).unwrap().name,
        "one"
    );
    assert_eq!(things.len(), 2);
    assert_eq!(things.get("k").unwrap().name, "three");
    assert_eq!(things.entry(0).unwrap().0.as_str(), "k");
    assert_eq!(things.entry(1).unwrap().1.name, "two");
    assert!(things.entry(2).is_none());
    things.get_mut("l").unwrap().add_thing(Thing::new("below"));
    assert_eq!(things.get("l").unwrap().num_things(), 1);
    assert!(things.get_mut("m").is_none());
}
