use fdl::thing::Thing;
use fdl::lexer::Lexer;
use fdl::parser::Parser;
use fdl::walk::{foreach_thing, foreach_thing_ctrl, ForeachCtrl};

#[test]
fn foreach_thing_traverses_thing_trees() {
    let thing = Thing::build("Hello")
        .things(vec![
            Thing::build("World").thing(Thing::new("Inner")).finish(),
            Thing::new("Bye"),
        ])
        .finish();

    let mut vec = Vec::<String>::new();
    thing.foreach(|thing, parent, depth| {
        let parent_name = match parent {
            Some(thing) => thing.name.clone(),
            None => "".to_string(),
        };
        vec.push(format!("{}-{}-{}", thing.name, parent_name, depth));
    });

    assert!(vec.contains(&"Hello--0".to_string()));
    assert!(vec.contains(&"World-Hello-1".to_string()));
    assert!(vec.contains(&"Inner-World-2".to_string()));
    assert!(vec.contains(&"Bye-Hello-1".to_string()));
    assert_eq!(vec.len(), 4);
}

#[test]
fn foreach_ctrl_breaksubtree_exits_traversal() {
    let thing = Thing::build("Hello")
        .things(vec![
            Thing::build("World").thing(Thing::new("Inner")).finish(),
            Thing::new("Bye"),
        ])
        .finish();

    let mut vec = Vec::<String>::new();
    thing.foreach_ctrl(|thing, _, _| {
        vec.push(thing.name.clone());

        if thing.name == "World" {
            return ForeachCtrl::BreakSubtree;
        }
        return ForeachCtrl::Continue;
    });

    assert!(vec.contains(&"Hello".to_string()));
    assert!(vec.contains(&"World".to_string()));
    assert!(vec.contains(&"Bye".to_string()));
    assert_eq!(vec.len(), 3);
}

#[test]
fn foreach_ctrl_break_exits_traversal() {
    let thing = Thing::build("Hello")
        .things(vec![
            Thing::build("World").thing(Thing::new("Inner")).finish(),
            Thing::new("Bye"),
        ])
        .finish();

    let mut vec = Vec::<String>::new();
    thing.foreach_ctrl(|thing, _, _| {
        vec.push(thing.name.clone());

        if thing.name == "World" {
            return ForeachCtrl::Break;
        }
        return ForeachCtrl::Continue;
    });

    assert!(vec.contains(&"Hello".to_string()));
    assert!(vec.contains(&"World".to_string()));
    assert!(vec.len() >= 2); // >= because traverse order is not guaranteed
}

fn sample() -> Thing {
    Thing::build("A")
        .things(vec![
            Thing::build("B")
                .thing(Thing::build("Inner").thing(Thing::new("Deep")).finish())
                .finish(),
            Thing::build("C").thing(Thing::new("Last")).finish(),
        ])
        .finish()
}

fn visits(thing: &Thing) -> Vec<String> {
    let mut seen = Vec::new();
    thing.foreach(|thing, parent, depth| {
        let above = match parent {
            Some(parent) => parent.name.as_str(),
            None => "",
        };
        seen.push(format!("{}<{}@{}", thing.name, above, depth));
    });
    seen
}

fn controlled(thing: &Thing, stop: &str, answer: ForeachCtrl) -> Vec<String> {
    let mut seen = Vec::new();
    thing.foreach_ctrl(|thing, parent, depth| {
        let above = match parent {
            Some(parent) => parent.name.as_str(),
            None => "",
        };
        seen.push(format!("{}<{}@{}", thing.name, above, depth));
        if thing.name == stop {
            answer
        } else {
            ForeachCtrl::Continue
        }
    });
    seen
}

#[test]
fn walk_visits_each_thing_before_the_things_below_it() {
    assert_eq!(
        visits(&sample()),
        vec!["A<@0", "B<A@1", "Inner<B@2", "Deep<Inner@3", "C<A@1", "Last<C@2"]
    );
    assert_eq!(visits(&Thing::new("alone")), vec!["alone<@0"]);
}

#[test]
fn controlled_walk_that_always_continues_is_the_whole_walk() {
    assert_eq!(
        controlled(&sample(), "", ForeachCtrl::Continue),
        visits(&sample())
    );
}

#[test]
fn break_subtree_leaves_out_what_stands_below() {
    assert_eq!(
        controlled(&sample(), "B", ForeachCtrl::BreakSubtree),
        vec!["A<@0", "B<A@1", "C<A@1", "Last<C@2"]
    );
    assert_eq!(
        controlled(&sample(), "A", ForeachCtrl::BreakSubtree),
        vec!["A<@0"]
    );
    assert_eq!(
        controlled(&sample(), "Last", ForeachCtrl::BreakSubtree),
        visits(&sample())
    );
}

#[test]
fn break_ends_the_walk_at_once() {
    assert_eq!(
        controlled(&sample(), "B", ForeachCtrl::Break),
        vec!["A<@0", "B<A@1"]
    );
    assert_eq!(
        controlled(&sample(), "Deep", ForeachCtrl::Break),
        vec!["A<@0", "B<A@1", "Inner<B@2", "Deep<Inner@3"]
    );
    assert_eq!(controlled(&sample(), "A", ForeachCtrl::Break), vec!["A<@0"]);
}

fn forest() -> Vec<Thing> {
    vec![
        sample(),
        Thing::new("Second"),
        Thing::build("Third").thing(Thing::new("Below")).finish(),
    ]
}

fn forest_visits(things: &Vec<Thing>, stop: &str, answer: ForeachCtrl) -> Vec<String> {
    let mut seen = Vec::new();
    foreach_thing_ctrl(things, |thing, parent, depth| {
        let above = match parent {
            Some(parent) => parent.name.as_str(),
            None => "",
        };
        seen.push(format!("{}<{}@{}", thing.name, above, depth));
        if thing.name == stop {
            answer
        } else {
            ForeachCtrl::Continue
        }
    });
    seen
}

#[test]
fn forest_walk_goes_through_the_roots_in_order() {
    let mut seen = Vec::new();
    foreach_thing(&forest(), |thing, parent, depth| {
        seen.push((thing.name.clone(), parent.is_some(), depth));
    });
    let names: Vec<&str> = seen.iter().map(|visit| visit.0.as_str()).collect();
    assert_eq!(
        names,
        vec!["A", "B", "Inner", "Deep", "C", "Last", "Second", "Third", "Below"]
    );
    for (name, below, depth) in &seen {
        let root = name == "A" || name == "Second" || name == "Third";
        assert_eq!(*depth == 0, root);
        assert_eq!(*below, !root);
    }
    let mut count = 0;
    foreach_thing(&Vec::new(), |_, _, _| count += 1);
    assert_eq!(count, 0);
}

#[test]
fn break_ends_the_walk_through_the_whole_forest() {
    assert_eq!(
        forest_visits(&forest(), "B", ForeachCtrl::Break),
        vec!["A<@0", "B<A@1"]
    );
    assert_eq!(
        forest_visits(&forest(), "Second", ForeachCtrl::Break),
        vec!["A<@0", "B<A@1", "Inner<B@2", "Deep<Inner@3", "C<A@1", "Last<C@2", "Second<@0"]
    );
}

#[test]
fn break_subtree_in_a_forest_goes_on_with_the_next_root() {
    assert_eq!(
        forest_visits(&forest(), "A", ForeachCtrl::BreakSubtree),
        vec!["A<@0", "Second<@0", "Third<@0", "Below<Third@1"]
    );
    assert_eq!(
        forest_visits(&forest(), "Third", ForeachCtrl::BreakSubtree),
        vec!["A<@0", "B<A@1", "Inner<B@2", "Deep<Inner@3", "C<A@1", "Last<C@2", "Second<@0", "Third<@0"]
    );
}

#[test]
fn parsed_forest_is_walked_in_the_order_of_the_source() {
    let source = "thing \"Z\" { thing \"b\" {} thing \"a\" {} } thing \"M\" {}";
    let parser = Parser::from_tokens(Lexer::new(source)).unwrap();
    let mut seen = Vec::new();
    foreach_thing(parser.things.values(), |thing, _, depth| {
        seen.push(format!("{}@{}", thing.name, depth));
    });
    assert_eq!(seen, vec!["Z@0", "b@1", "a@1", "M@0"]);
    assert_eq!(parser.things.into_values().len(), 2);
}
