//! The tree: things, their props, and the maps that hold them.

use crate::assoc::{
    distinct_keys, has_key, lemma_absent, lemma_put_distinct, lemma_slot_is, lookup, put, slot,
};
use crate::literal::{
    bool_literal, float_literal, i32_literal, is_float_literal, parse_bool, parse_i32,
    signed_decimal_string, signed_decimal_text,
};
use crate::string_utils::{strip_quotes, unquoted};
use vstd::prelude::*;

verus! {

/// What a prop value is: the model of [`PropValue`].
pub enum PropValueView {
    Int(i32),
    /// A float, as the literal that writes it.
    Float(Seq<char>),
    Bool(bool),
    String(Seq<char>),
    /// The literal did not fit the declared type.
    Error,
}

/// The value of a prop.
///
/// A float is kept as the literal that writes it, which is a float literal by
/// [`float_literal`]; turning it into a machine float is left to the caller.
#[derive(PartialEq, Debug)]
pub enum PropValue {
    Int(i32),
    Float(String),
    Bool(bool),
    String(String),
    Error,
}

/// What a prop is: the model of [`Prop`].
pub struct PropView {
    pub name: Seq<char>,
    pub value: PropValueView,
}

/// A named, typed value attached to a thing.
#[derive(Debug)]
pub struct Prop {
    pub name: String,
    pub value: PropValue,
}

/// The value of an `int` literal.
pub open spec fn int_value(literal: Seq<char>) -> PropValueView {
    match i32_literal(literal) {
        Some(v) => PropValueView::Int(v),
        None => PropValueView::Error,
    }
}

/// The value of a `float` literal.
pub open spec fn float_value(literal: Seq<char>) -> PropValueView {
    if float_literal(literal) {
        PropValueView::Float(literal)
    } else {
        PropValueView::Error
    }
}

/// The value of a `bool` literal.
pub open spec fn bool_value(literal: Seq<char>) -> PropValueView {
    match bool_literal(literal) {
        Some(b) => PropValueView::Bool(b),
        None => PropValueView::Error,
    }
}

/// The value of a `string` literal: the text between its quotes.
pub open spec fn string_value(literal: Seq<char>) -> PropValueView {
    PropValueView::String(unquoted(literal))
}

/// A prop value as text.
pub open spec fn value_text(value: PropValueView) -> Seq<char> {
    match value {
        PropValueView::Int(v) => signed_decimal_text(v as int),
        PropValueView::Float(literal) => literal,
        PropValueView::Bool(b) => if b {
            "true"@
        } else {
            "false"@
        },
        PropValueView::String(s) => s,
        PropValueView::Error => "Err"@,
    }
}

impl PropValue {
    /// The value with its text as a sequence of characters.
    pub open spec fn view(&self) -> PropValueView {
        match self {
            PropValue::Int(v) => PropValueView::Int(*v),
            PropValue::Float(literal) => PropValueView::Float(literal@),
            PropValue::Bool(b) => PropValueView::Bool(*b),
            PropValue::String(s) => PropValueView::String(s@),
            PropValue::Error => PropValueView::Error,
        }
    }

    /// The value as text: an integer in base ten, a float as its literal, a
    /// boolean as `true` or `false`, a string as it is, and `Err` for no value.
    pub fn to_string(&self) -> (s: String)
        ensures
            s@ == value_text(self@),
    {
        match self {
            PropValue::Int(v) => signed_decimal_string(*v),
            PropValue::Float(literal) => literal.clone(),
            PropValue::Bool(b) => if *b {
                String::from_str("true")
            } else {
                String::from_str("false")
            },
            PropValue::String(s) => s.clone(),
            PropValue::Error => String::from_str("Err"),
        }
    }
}

impl Prop {
    /// The prop with its texts as sequences of characters.
    pub open spec fn view(&self) -> PropView {
        PropView { name: self.name@, value: self.value@ }
    }

    /// A prop without a value.
    pub fn new_err(name: &str) -> (prop: Prop)
        ensures
            prop@ == (PropView { name: name@, value: PropValueView::Error }),
    {
        Prop { name: String::from_str(name), value: PropValue::Error }
    }

    /// An `int` prop: the literal read as a 32-bit signed integer in base ten,
    /// or no value where it is none.
    pub fn int_from_literal(name: &str, literal: &str) -> (prop: Prop)
        ensures
            prop@ == (PropView { name: name@, value: int_value(literal@) }),
    {
        match parse_i32(literal) {
            Some(v) => Prop { name: String::from_str(name), value: PropValue::Int(v) },
            None => Prop::new_err(name),
        }
    }

    /// A `float` prop: the literal itself where it is a float literal, or no
    /// value where it is none.
    pub fn float_from_literal(name: &str, literal: &str) -> (prop: Prop)
        ensures
            prop@ == (PropView { name: name@, value: float_value(literal@) }),
    {
        if is_float_literal(literal) {
            Prop { name: String::from_str(name), value: PropValue::Float(String::from_str(literal)) }
        } else {
            Prop::new_err(name)
        }
    }

    /// A `bool` prop: `true` or `false`, or no value for any other literal.
    pub fn bool_from_literal(name: &str, literal: &str) -> (prop: Prop)
        ensures
            prop@ == (PropView { name: name@, value: bool_value(literal@) }),
    {
        match parse_bool(literal) {
            Some(b) => Prop { name: String::from_str(name), value: PropValue::Bool(b) },
            None => Prop::new_err(name),
        }
    }

    /// A `string` prop: the literal without its quotes.
    pub fn string_from_literal(name: &str, literal: &str) -> (prop: Prop)
        ensures
            prop@ == (PropView { name: name@, value: string_value(literal@) }),
    {
        Prop {
            name: String::from_str(name),
            value: PropValue::String(String::from_str(strip_quotes(literal))),
        }
    }
}

/// The place of `key` among `keys`, if it is there.
fn find_key(keys: &Vec<String>, key: &str) -> (r: Option<usize>)
    ensures
        match r {
            Some(i) => i < keys@.len() && keys@[i as int]@ == key@,
            None => forall|j: int| 0 <= j < keys@.len() ==> (#[trigger] keys@[j])@ != key@,
        },
{
    let wanted = String::from_str(key);
    let mut i: usize = 0;
    while i < keys.len()
        invariant
            0 <= i <= keys@.len(),
            wanted@ == key@,
            forall|j: int| 0 <= j < i ==> (#[trigger] keys@[j])@ != key@,
        decreases keys@.len() - i,
    {
        if keys[i] == wanted {
            return Some(i);
        }
        i += 1;
    }
    None
}

/// The props of a thing, by name.
///
/// No name occurs twice. The entries keep the order in which their names were
/// put in first.
#[derive(Debug)]
pub struct PropMap {
    pub(crate) keys: Vec<String>,
    pub(crate) values: Vec<Prop>,
}

impl PropMap {
    /// Each name has its value, and no name occurs twice.
    #[verifier::type_invariant]
    pub open(crate) spec fn inv(&self) -> bool {
        &&& self.keys@.len() == self.values@.len()
        &&& forall|i: int, j: int|
            0 <= i < j < self.keys@.len() ==> (#[trigger] self.keys@[i])@ != (
            #[trigger] self.keys@[j])@
    }

    /// The entries, each a name and the prop under it, in order.
    pub open(crate) spec fn view(&self) -> Seq<(Seq<char>, PropView)> {
        Seq::new(self.values@.len(), |i: int| (self.keys@[i]@, self.values@[i]@))
    }

    /// The props themselves, in order.
    pub open(crate) spec fn props(&self) -> Seq<Prop> {
        self.values@
    }

    /// A map without entries.
    pub fn new() -> (map: PropMap)
        ensures
            map@ == Seq::<(Seq<char>, PropView)>::empty(),
    {
        PropMap { keys: Vec::new(), values: Vec::new() }
    }

    /// The number of entries.
    pub fn len(&self) -> (n: usize)
        ensures
            n == self@.len(),
            n == self.props().len(),
            distinct_keys(self@),
    {
        proof {
            use_type_invariant(self);
        }
        self.values.len()
    }

    /// The prop under `key`.
    pub fn get(&self, key: &str) -> (r: Option<&Prop>)
        ensures
            match r {
                Some(prop) => has_key(self@, key@) && lookup(self@, key@) == Some(prop@) && *prop
                    == self.props()[slot(self@, key@)],
                None => !has_key(self@, key@),
            },
    {
        proof {
            use_type_invariant(self);
        }
        match find_key(&self.keys, key) {
            Some(i) => {
                proof {
                    lemma_slot_is(self@, key@, i as int);
                }
                Some(&self.values[i])
            },
            None => {
                proof {
                    lemma_absent(self@, key@);
                }
                None
            },
        }
    }

    /// The entry at `index`, counted in the order of the entries.
    pub fn entry(&self, index: usize) -> (r: Option<(&String, &Prop)>)
        ensures
            match r {
                Some((key, prop)) => index < self@.len() && self@[index as int] == (key@, prop@)
                    && *prop == self.props()[index as int],
                None => index >= self@.len(),
            },
    {
        proof {
            use_type_invariant(self);
        }
        if index < self.values.len() {
            Some((&self.keys[index], &self.values[index]))
        } else {
            None
        }
    }

    /// Puts `value` under `key`. Where the name is taken, the entry keeps its
    /// place, the new value replaces the old one, and the old one is returned.
    pub fn insert(&mut self, key: String, value: Prop) -> (previous: Option<Prop>)
        ensures
            final(self)@ == put(old(self)@, key@, value@),
            match previous {
                Some(prop) => lookup(old(self)@, key@) == Some(prop@),
                None => !has_key(old(self)@, key@),
            },
    {
        proof {
            use_type_invariant(&*self);
        }
        match find_key(&self.keys, key.as_str()) {
            Some(i) => {
                proof {
                    lemma_slot_is(self@, key@, i as int);
                }
                let mut value = value;
                core::mem::swap(&mut self.values[i], &mut value);
                assert(self@ =~= put(old(self)@, key@, self.values@[i as int]@));
                Some(value)
            },
            None => {
                proof {
                    lemma_absent(self@, key@);
                }
                let mut taken = PropMap::new();
                core::mem::swap(self, &mut taken);
                let PropMap { mut keys, mut values } = taken;
                keys.push(key);
                values.push(value);
                *self = PropMap { keys, values };
                assert(self@ =~= put(old(self)@, key@, value@));
                None
            },
        }
    }
}

/// What a thing is: the model of [`Thing`].
///
/// The props and the things below are sequences of entries, each a name and
/// what stands under it, in the order in which the names came in first.
pub struct ThingView {
    pub name: Seq<char>,
    pub props: Seq<(Seq<char>, PropView)>,
    pub things: Seq<(Seq<char>, ThingView)>,
}

impl ThingView {
    /// A thing without props and without things below it.
    pub open spec fn new(name: Seq<char>) -> ThingView {
        ThingView { name, props: Seq::empty(), things: Seq::empty() }
    }

    /// The thing after `prop` has been put under its name.
    pub open spec fn with_prop(self, prop: PropView) -> ThingView {
        ThingView { props: put(self.props, prop.name, prop), ..self }
    }

    /// The thing after `thing` has been put below it, under its name.
    pub open spec fn with_thing(self, thing: ThingView) -> ThingView {
        ThingView { things: put(self.things, thing.name, thing), ..self }
    }

    /// The thing after each of `things` has been put below it, first to last.
    pub open spec fn with_things(self, things: Seq<ThingView>) -> ThingView
        decreases things.len(),
    {
        if things.len() == 0 {
            self
        } else {
            self.with_things(things.drop_last()).with_thing(things.last())
        }
    }
}

/// Whether things by name are well formed: no name occurs twice, each thing
/// stands under its own name, and each is well formed itself.
pub open spec fn well_formed_things(things: Seq<(Seq<char>, ThingView)>) -> bool
    decreases things,
{
    &&& distinct_keys(things)
    &&& forall|i: int|
        0 <= i < things.len() ==> (#[trigger] things[i]).0 == things[i].1.name
            && things[i].1.well_formed()
}

/// Whether props by name are well formed: no name occurs twice, and each prop
/// stands under its own name.
pub open spec fn well_formed_props(props: Seq<(Seq<char>, PropView)>) -> bool {
    &&& distinct_keys(props)
    &&& forall|i: int| 0 <= i < props.len() ==> (#[trigger] props[i]).0 == props[i].1.name
}

impl ThingView {
    /// Whether the thing is well formed: its props and the things below it
    /// are, all the way down.
    pub open spec fn well_formed(self) -> bool
        decreases self,
    {
        well_formed_props(self.props) && well_formed_things(self.things)
    }

    /// A new thing is well formed.
    pub proof fn lemma_new_well_formed(name: Seq<char>)
        ensures
            ThingView::new(name).well_formed(),
    {
    }

    /// Putting a prop on a well-formed thing leaves it well formed.
    pub proof fn lemma_with_prop_well_formed(self, prop: PropView)
        requires
            self.well_formed(),
        ensures
            self.with_prop(prop).well_formed(),
    {
        lemma_put_distinct(self.props, prop.name, prop);
        let after = put(self.props, prop.name, prop);
        assert forall|i: int| 0 <= i < after.len() implies (#[trigger] after[i]).0
            == after[i].1.name by {
            if has_key(self.props, prop.name) {
                let k = slot(self.props, prop.name);
                if i != k {
                    assert(after[i] == self.props[i]);
                }
            } else {
                if i < self.props.len() {
                    assert(after[i] == self.props[i]);
                }
            }
        }
    }

    /// Putting a well-formed thing below a well-formed thing leaves that one
    /// well formed.
    pub proof fn lemma_with_thing_well_formed(self, thing: ThingView)
        requires
            self.well_formed(),
            thing.well_formed(),
        ensures
            self.with_thing(thing).well_formed(),
    {
        lemma_put_well_formed(self.things, thing);
    }
}

/// Whether every prop of these things, and of the things below them, has a
/// value.
pub open spec fn valued_things(things: Seq<(Seq<char>, ThingView)>) -> bool
    decreases things,
{
    forall|i: int| 0 <= i < things.len() ==> (#[trigger] things[i]).1.valued()
}

impl ThingView {
    /// Whether every prop of the thing, and of the things below it, has a
    /// value.
    pub open spec fn valued(self) -> bool
        decreases self,
    {
        &&& forall|i: int|
            0 <= i < self.props.len() ==> !((#[trigger] self.props[i]).1.value is Error)
        &&& valued_things(self.things)
    }

    /// Putting a prop that has a value on a thing whose props all have one
    /// leaves it so.
    pub proof fn lemma_with_prop_valued(self, prop: PropView)
        requires
            self.valued(),
            !(prop.value is Error),
        ensures
            self.with_prop(prop).valued(),
    {
        let after = put(self.props, prop.name, prop);
        assert forall|i: int| 0 <= i < after.len() implies !((
        #[trigger] after[i]).1.value is Error) by {
            if has_key(self.props, prop.name) {
                let k = slot(self.props, prop.name);
                if i != k {
                    assert(after[i] == self.props[i]);
                }
            } else {
                if i < self.props.len() {
                    assert(after[i] == self.props[i]);
                }
            }
        }
    }
}

/// Putting a thing whose props all have values among such things leaves them
/// so.
pub proof fn lemma_put_valued(things: Seq<(Seq<char>, ThingView)>, thing: ThingView)
    requires
        valued_things(things),
        thing.valued(),
    ensures
        valued_things(put(things, thing.name, thing)),
{
    let after = put(things, thing.name, thing);
    assert forall|i: int| 0 <= i < after.len() implies (#[trigger] after[i]).1.valued() by {
        if has_key(things, thing.name) {
            let k = slot(things, thing.name);
            if i != k {
                assert(after[i] == things[i]);
            }
        } else {
            if i < things.len() {
                assert(after[i] == things[i]);
            }
        }
    }
}

/// Putting a well-formed thing under its name among well-formed things leaves
/// them well formed.
pub proof fn lemma_put_well_formed(things: Seq<(Seq<char>, ThingView)>, thing: ThingView)
    requires
        well_formed_things(things),
        thing.well_formed(),
    ensures
        well_formed_things(put(things, thing.name, thing)),
{
    lemma_put_distinct(things, thing.name, thing);
    let after = put(things, thing.name, thing);
    assert forall|i: int| 0 <= i < after.len() implies (#[trigger] after[i]).0 == after[i].1.name
        && after[i].1.well_formed() by {
        if has_key(things, thing.name) {
            let k = slot(things, thing.name);
            if i != k {
                assert(after[i] == things[i]);
            }
        } else {
            if i < things.len() {
                assert(after[i] == things[i]);
            }
        }
    }
}

/// Things by name: the things below a thing, or the roots of a forest.
///
/// No name occurs twice. The entries keep the order in which their names were
/// put in first.
#[derive(Debug)]
pub struct ThingMap {
    pub(crate) keys: Vec<String>,
    pub(crate) values: Vec<Thing>,
}

/// A named node of the tree. It owns its props and the things below it.
#[derive(Debug)]
pub struct Thing {
    pub name: String,
    pub props: PropMap,
    pub(crate) things: ThingMap,
}

impl ThingMap {
    /// Each name has its value, and no name occurs twice.
    #[verifier::type_invariant]
    pub open(crate) spec fn inv(&self) -> bool {
        &&& self.keys@.len() == self.values@.len()
        &&& forall|i: int, j: int|
            0 <= i < j < self.keys@.len() ==> (#[trigger] self.keys@[i])@ != (
            #[trigger] self.keys@[j])@
    }

    /// The entries, each a name and the thing under it, in order.
    pub open(crate) spec fn view(&self) -> Seq<(Seq<char>, ThingView)>
        decreases self,
    {
        Seq::new(
            self.values@.len(),
            |i: int|
                if 0 <= i < self.values@.len() {
                    (self.keys@[i]@, self.values@[i].view())
                } else {
                    arbitrary()
                },
        )
    }

    /// The things themselves, in order.
    pub open(crate) spec fn things(&self) -> Seq<Thing> {
        self.values@
    }

    /// A map without entries.
    pub fn new() -> (map: ThingMap)
        ensures
            map@ == Seq::<(Seq<char>, ThingView)>::empty(),
            map.things() == Seq::<Thing>::empty(),
    {
        let map = ThingMap { keys: Vec::new(), values: Vec::new() };
        assert(map@ =~= Seq::<(Seq<char>, ThingView)>::empty());
        map
    }

    /// The number of entries. Each entry of the view is the view of the thing
    /// at its place.
    pub fn len(&self) -> (n: usize)
        ensures
            n == self@.len(),
            n == self.things().len(),
            distinct_keys(self@),
            forall|i: int| 0 <= i < n ==> (#[trigger] self@[i]).1 == self.things()[i]@,
    {
        proof {
            use_type_invariant(self);
        }
        self.values.len()
    }

    /// The thing under `key`.
    pub fn get(&self, key: &str) -> (r: Option<&Thing>)
        ensures
            match r {
                Some(thing) => has_key(self@, key@) && lookup(self@, key@) == Some(thing@)
                    && *thing == self.things()[slot(self@, key@)],
                None => !has_key(self@, key@),
            },
    {
        proof {
            use_type_invariant(self);
        }
        match find_key(&self.keys, key) {
            Some(i) => {
                proof {
                    lemma_slot_is(self@, key@, i as int);
                }
                Some(&self.values[i])
            },
            None => {
                proof {
                    lemma_absent(self@, key@);
                }
                None
            },
        }
    }

    /// The thing under `key`, to be changed in place. The name it stands under
    /// stays as it is, whatever becomes of the thing.
    pub fn get_mut(&mut self, key: &str) -> (r: Option<&mut Thing>)
        ensures
            match r {
                Some(thing) => has_key(old(self)@, key@) && *thing == old(self).things()[slot(
                    old(self)@,
                    key@,
                )] && final(self)@ == old(self)@.update(
                    slot(old(self)@, key@),
                    (key@, (*final(thing))@),
                ) && final(self).things() == old(self).things().update(
                    slot(old(self)@, key@),
                    *final(thing),
                ),
                None => !has_key(old(self)@, key@) && *final(self) == *old(self),
            },
    {
        proof {
            use_type_invariant(&*self);
        }
        match find_key(&self.keys, key) {
            Some(i) => {
                proof {
                    lemma_slot_is(self@, key@, i as int);
                }
                let thing = &mut self.values[i];
                Some(thing)
            },
            None => {
                proof {
                    lemma_absent(self@, key@);
                }
                None
            },
        }
    }

    /// The entry at `index`, counted in the order of the entries.
    pub fn entry(&self, index: usize) -> (r: Option<(&String, &Thing)>)
        ensures
            match r {
                Some((key, thing)) => index < self@.len() && self@[index as int] == (
                    key@,
                    thing@,
                ) && *thing == self.things()[index as int],
                None => index >= self@.len(),
            },
    {
        proof {
            use_type_invariant(self);
        }
        if index < self.values.len() {
            Some((&self.keys[index], &self.values[index]))
        } else {
            None
        }
    }

    /// The things, in the order of the entries.
    pub fn values(&self) -> (things: &Vec<Thing>)
        ensures
            things@ == self.things(),
    {
        &self.values
    }

    /// The things without their names, in the order of the entries.
    pub fn into_values(self) -> (things: Vec<Thing>)
        ensures
            things@ == self.things(),
    {
        let ThingMap { keys, values } = self;
        values
    }

    /// Puts `value` under `key`. Where the name is taken, the entry keeps its
    /// place, the new thing replaces the old one, and the old one is returned.
    pub fn insert(&mut self, key: String, value: Thing) -> (previous: Option<Thing>)
        ensures
            final(self)@ == put(old(self)@, key@, value@),
            match previous {
                Some(thing) => has_key(old(self)@, key@) && lookup(old(self)@, key@) == Some(
                    thing@,
                ) && thing == old(self).things()[slot(old(self)@, key@)] && final(self).things()
                    == old(self).things().update(slot(old(self)@, key@), value),
                None => !has_key(old(self)@, key@) && final(self).things() == old(
                    self,
                ).things().push(value),
            },
    {
        proof {
            use_type_invariant(&*self);
        }
        match find_key(&self.keys, key.as_str()) {
            Some(i) => {
                proof {
                    lemma_slot_is(self@, key@, i as int);
                }
                let mut value = value;
                core::mem::swap(&mut self.values[i], &mut value);
                assert(self@ =~= put(old(self)@, key@, self.values@[i as int]@));
                Some(value)
            },
            None => {
                proof {
                    lemma_absent(self@, key@);
                }
                let mut taken = ThingMap::new();
                core::mem::swap(self, &mut taken);
                let ThingMap { mut keys, mut values } = taken;
                keys.push(key);
                values.push(value);
                *self = ThingMap { keys, values };
                assert(self@ =~= put(old(self)@, key@, value@));
                None
            },
        }
    }
}

impl Thing {
    /// The thing with its props and the things below it, all the way down.
    pub open(crate) spec fn view(&self) -> ThingView
        decreases self,
    {
        ThingView { name: self.name@, props: self.props@, things: self.things.view() }
    }

    /// The things directly below, in order.
    pub open(crate) spec fn children(&self) -> Seq<Thing> {
        self.things.values@
    }

    /// A thing without props and without things below it.
    pub fn new(name: &str) -> (thing: Thing)
        ensures
            thing@ == ThingView::new(name@),
            thing.children().len() == 0,
    {
        Thing { name: String::from_str(name), props: PropMap::new(), things: ThingMap::new() }
    }

    /// The name of the thing.
    pub fn name(&self) -> (name: &String)
        ensures
            name@ == self@.name,
    {
        &self.name
    }

    /// The props of the thing, by name.
    pub fn props(&self) -> (props: &PropMap)
        ensures
            props@ == self@.props,
    {
        &self.props
    }

    /// Starts a builder on a new thing.
    pub fn build(name: &str) -> (builder: ThingBuilder)
        ensures
            builder@ == ThingView::new(name@),
    {
        ThingBuilder { thing: Thing::new(name) }
    }

    /// Puts `prop` under its name, in the place of a prop of that name if there
    /// is one.
    pub fn add_prop(&mut self, prop: Prop)
        ensures
            final(self)@ == old(self)@.with_prop(prop@),
            final(self).children() == old(self).children(),
    {
        let key = prop.name.clone();
        self.props.insert(key, prop);
    }

    /// The number of things directly below. Each thing below, as the view has
    /// it, is the view of the thing at its place.
    pub fn num_things(&self) -> (n: usize)
        ensures
            n == self@.things.len(),
            n == self.children().len(),
            distinct_keys(self@.things),
            forall|i: int| 0 <= i < n ==> (#[trigger] self@.things[i]).1 == self.children()[i]@,
    {
        self.things.len()
    }

    /// Puts `thing` below, under its name. Where a thing of that name is there
    /// already, the new one takes its place and the old one is returned.
    pub fn add_thing(&mut self, thing: Thing) -> (previous: Option<Thing>)
        ensures
            final(self)@ == old(self)@.with_thing(thing@),
            match previous {
                Some(before) => {
                    &&& lookup(old(self)@.things, thing@.name) == Some(before@)
                    &&& before == old(self).children()[slot(old(self)@.things, thing@.name)]
                    &&& final(self).children() == old(self).children().update(
                        slot(old(self)@.things, thing@.name),
                        thing,
                    )
                },
                None => {
                    &&& !has_key(old(self)@.things, thing@.name)
                    &&& final(self).children() == old(self).children().push(thing)
                },
            },
    {
        let key = thing.name.clone();
        self.things.insert(key, thing)
    }

    /// The thing below under `key`.
    pub fn get_thing(&self, key: &str) -> (r: Option<&Thing>)
        ensures
            match r {
                Some(thing) => lookup(self@.things, key@) == Some(thing@) && self.children().contains(
                    *thing,
                ),
                None => !has_key(self@.things, key@),
            },
    {
        let r = self.things.get(key);
        proof {
            use_type_invariant(&self.things);
            if let Some(thing) = r {
                assert(self.children()[slot(self@.things, key@)] == *thing);
            }
        }
        r
    }

    /// The thing below under `key`, to be changed in place.
    pub fn get_thing_mut(&mut self, key: &str) -> (r: Option<&mut Thing>)
        ensures
            match r {
                Some(thing) => lookup(old(self)@.things, key@) == Some((*thing)@) && final(self)@
                    == (ThingView {
                    things: old(self)@.things.update(
                        slot(old(self)@.things, key@),
                        (key@, (*final(thing))@),
                    ),
                    ..old(self)@
                }) && final(self).children() == old(self).children().update(
                    slot(old(self)@.things, key@),
                    *final(thing),
                ),
                None => !has_key(old(self)@.things, key@) && *final(self) == *old(self),
            },
    {
        self.things.get_mut(key)
    }
}

/// Builds a thing step by step.
pub struct ThingBuilder {
    thing: Thing,
}

impl ThingBuilder {
    /// The thing as built so far.
    pub closed spec fn view(&self) -> ThingView {
        self.thing@
    }

    /// Puts `thing` below the thing that is being built.
    pub fn thing(self, thing: Thing) -> (builder: ThingBuilder)
        ensures
            builder@ == self@.with_thing(thing@),
    {
        let mut builder = self;
        builder.thing.add_thing(thing);
        builder
    }

    /// Puts each of `things` below the thing that is being built, first to
    /// last.
    pub fn things(self, things: Vec<Thing>) -> (builder: ThingBuilder)
        ensures
            builder@ == self@.with_things(things@.map_values(|thing: Thing| thing@)),
    {
        let mut builder = self;
        let ghost views = things@.map_values(|thing: Thing| thing@);
        for thing in it: things
            invariant
                it.seq() == things@,
                views == things@.map_values(|thing: Thing| thing@),
                builder@ == self@.with_things(views.take(it.index() as int)),
        {
            proof {
                let n = it.index() as int;
                assert(views.take(n + 1).drop_last() =~= views.take(n));
                assert(views.take(n + 1).last() == thing@);
            }
            builder.thing.add_thing(thing);
        }
        assert(views.take(things@.len() as int) =~= views);
        builder
    }

    /// Puts `prop` on the thing that is being built.
    pub fn prop(self, prop: Prop) -> (builder: ThingBuilder)
        ensures
            builder@ == self@.with_prop(prop@),
    {
        let mut builder = self;
        builder.thing.add_prop(prop);
        builder
    }

    /// The thing that was built.
    pub fn finish(self) -> (thing: Thing)
        ensures
            thing@ == self@,
    {
        self.thing
    }
}

} // verus!
