//! The schema: which attributes and classes exist, which entries they admit,
//! and the normal form in which entries are stored.
use vstd::prelude::*;
use crate::be::lower_names;
use crate::entry::{lemma_add_wf, lemma_views_push, views, AvaView, Entry, EntryView};
use crate::error::SchemaError;
use crate::filter::Filter;
use crate::text::{is_lower, lemma_lower, lower, to_lower};
use crate::value::{Value, ValueView};

verus! {

/// The kind of value that an attribute takes.
#[derive(Clone, Copy, Debug, PartialEq, Eq)]
pub enum SyntaxType {
    Utf8String,
    Uuid,
    Session,
    Oauth2Session,
}

impl SyntaxType {
    /// Whether a value is of this kind.
    pub open spec fn takes(self, v: ValueView) -> bool {
        match self {
            SyntaxType::Utf8String => v is Utf8,
            SyntaxType::Uuid => v is Uuid,
            SyntaxType::Session => v is Session,
            SyntaxType::Oauth2Session => v is Oauth2Session,
        }
    }

    /// Whether `v` is of this kind.
    pub fn check(&self, v: &Value) -> (r: bool)
        ensures
            r == self.takes(v@),
    {
        match (self, v) {
            (SyntaxType::Utf8String, Value::Utf8(_)) => true,
            (SyntaxType::Uuid, Value::Uuid(_)) => true,
            (SyntaxType::Session, Value::Session(_, _)) => true,
            (SyntaxType::Oauth2Session, Value::Oauth2Session(_, _)) => true,
            _ => false,
        }
    }
}

/// The definition of an attribute.
#[derive(Debug)]
pub struct SchemaAttribute {
    pub name: String,
    pub syntax: SyntaxType,
}

/// The definition of a class: the attributes that an entry of the class
/// must hold, and those that it may hold.
#[derive(Debug)]
pub struct SchemaClass {
    pub name: String,
    pub must: Vec<String>,
    pub may: Vec<String>,
}

/// The definition of an attribute as contracts see it.
pub ghost struct SchemaAttributeView {
    pub name: Seq<char>,
    pub syntax: SyntaxType,
}

/// The definition of a class as contracts see it.
pub ghost struct SchemaClassView {
    pub name: Seq<char>,
    pub must: Seq<Seq<char>>,
    pub may: Seq<Seq<char>>,
}

impl View for SchemaAttribute {
    type V = SchemaAttributeView;

    open spec fn view(&self) -> SchemaAttributeView {
        SchemaAttributeView { name: self.name@, syntax: self.syntax }
    }
}

impl View for SchemaClass {
    type V = SchemaClassView;

    open spec fn view(&self) -> SchemaClassView {
        SchemaClassView { name: self.name@, must: views(self.must@), may: views(self.may@) }
    }
}

impl SchemaClassView {
    /// Whether an entry of this class may hold attribute `name`.
    pub open spec fn permits(self, name: Seq<char>) -> bool {
        self.must.contains(name) || self.may.contains(name)
    }
}

fn copy_names(names: &Vec<String>) -> (r: Vec<String>)
    ensures
        views(r@) == views(names@),
{
    let mut out: Vec<String> = Vec::new();
    let mut i: usize = 0;
    while i < names.len()
        invariant
            i <= names.len(),
            out.len() == i,
            forall|k: int| 0 <= k < i ==> (#[trigger] out[k])@ == names[k]@,
        decreases names.len() - i,
    {
        out.push(names[i].clone());
        i += 1;
    }
    proof {
        assert(views(out@) =~= views(names@));
    }
    out
}

fn holds_text(names: &Vec<String>, name: &String) -> (r: bool)
    ensures
        r == views(names@).contains(name@),
{
    let mut i: usize = 0;
    while i < names.len()
        invariant
            i <= names.len(),
            forall|k: int| 0 <= k < i ==> (#[trigger] views(names@)[k]) != name@,
        decreases names.len() - i,
    {
        if names[i] == *name {
            assert(views(names@)[i as int] == name@);
            return true;
        }
        i += 1;
    }
    false
}

impl Clone for SchemaAttribute {
    fn clone(&self) -> (r: SchemaAttribute)
        ensures
            r@ == self@,
    {
        SchemaAttribute { name: self.name.clone(), syntax: self.syntax }
    }
}

impl Clone for SchemaClass {
    fn clone(&self) -> (r: SchemaClass)
        ensures
            r@ == self@,
    {
        SchemaClass {
            name: self.name.clone(),
            must: copy_names(&self.must),
            may: copy_names(&self.may),
        }
    }
}

impl SchemaAttribute {
    /// The definition of attribute `name` with syntax `syntax`.
    pub fn new(name: &str, syntax: SyntaxType) -> (r: SchemaAttribute)
        ensures
            r@ == (SchemaAttributeView { name: name@, syntax }),
    {
        SchemaAttribute { name: name.to_owned(), syntax }
    }
}

impl SchemaClass {
    /// The definition of class `name`, whose entries must hold the attributes
    /// `must` and may hold the attributes `may`.
    pub fn new(name: &str, must: Vec<String>, may: Vec<String>) -> (r: SchemaClass)
        ensures
            r@ == (SchemaClassView { name: name@, must: views(must@), may: views(may@) }),
    {
        SchemaClass { name: name.to_owned(), must, may }
    }

    /// Whether an entry of this class may hold attribute `name`.
    pub fn permits(&self, name: &String) -> (r: bool)
        ensures
            r == self@.permits(name@),
    {
        holds_text(&self.must, name) || holds_text(&self.may, name)
    }
}

/// The schema as contracts see it.
pub ghost struct SchemaView {
    pub attributes: Seq<SchemaAttributeView>,
    pub classes: Seq<SchemaClassView>,
}

/// The name of the attribute that holds the classes of an entry.
pub open spec fn class_attr() -> Seq<char> {
    "class"@
}

/// Whether `a` says that its entry is of class `class`.
pub open spec fn names_class(a: AvaView, class: Seq<char>) -> bool {
    a.name == class_attr() && a.value == ValueView::Utf8(class)
}

impl SchemaView {
    /// Whether the schema defines class `name`.
    pub open spec fn has_class(self, name: Seq<char>) -> bool {
        exists|i: int| 0 <= i < self.classes.len() && (#[trigger] self.classes[i]).name == name
    }

    /// Whether the schema defines attribute `name`.
    pub open spec fn knows(self, name: Seq<char>) -> bool {
        exists|i: int|
            0 <= i < self.attributes.len() && (#[trigger] self.attributes[i]).name == name
    }

    /// Whether the schema defines attribute `name` with a syntax that takes
    /// value `v`.
    pub open spec fn admits(self, name: Seq<char>, v: ValueView) -> bool {
        exists|i: int|
            0 <= i < self.attributes.len() && (#[trigger] self.attributes[i]).name == name
                && self.attributes[i].syntax.takes(v)
    }

    /// Whether an entry that holds `a` may hold attribute `name` on that
    /// account: `a` names a class whose definition permits the attribute.
    pub open spec fn permits_by(self, a: AvaView, name: Seq<char>) -> bool {
        exists|i: int|
            0 <= i < self.classes.len() && names_class(a, (#[trigger] self.classes[i]).name)
                && self.classes[i].permits(name)
    }

    /// Whether entry `e` may hold attribute `name`: it is the class
    /// attribute, or one of the classes of the entry permits it.
    pub open spec fn allows(self, e: EntryView, name: Seq<char>) -> bool {
        name == class_attr() || exists|j: int|
            0 <= j < e.avas.len() && self.permits_by(#[trigger] e.avas[j], name)
    }

    /// Whether `e` names a class, and only classes that the schema defines.
    pub open spec fn classes_ok(self, e: EntryView) -> bool {
        &&& e.has_attr(class_attr())
        &&& forall|i: int|
            0 <= i < e.avas.len() && (#[trigger] e.avas[i]).name == class_attr() ==> {
                &&& e.avas[i].value is Utf8
                &&& self.has_class(e.avas[i].value->Utf8_0)
            }
    }

    /// Whether the schema defines every attribute of `e` and the classes of
    /// `e` permit it.
    pub open spec fn attributes_ok(self, e: EntryView) -> bool {
        forall|i: int|
            0 <= i < e.avas.len() ==> self.knows((#[trigger] e.avas[i]).name) && self.allows(
                e,
                e.avas[i].name,
            )
    }

    /// Whether every value of `e` is of the kind that its attribute takes.
    pub open spec fn syntax_ok(self, e: EntryView) -> bool {
        forall|i: int|
            0 <= i < e.avas.len() ==> self.admits((#[trigger] e.avas[i]).name, e.avas[i].value)
    }

    /// What class definition `c` asks of `e`: if `e` is of that class, it
    /// holds every attribute that the class requires.
    pub open spec fn class_met(self, e: EntryView, c: SchemaClassView) -> bool {
        (exists|j: int| 0 <= j < e.avas.len() && names_class(#[trigger] e.avas[j], c.name))
            ==> forall|m: int| 0 <= m < c.must.len() ==> e.has_attr(#[trigger] c.must[m])
    }

    /// Whether `e` holds every attribute that its classes require.
    pub open spec fn musts_ok(self, e: EntryView) -> bool {
        forall|i: int| 0 <= i < self.classes.len() ==> self.class_met(e, #[trigger] self.classes[i])
    }

    /// What is wrong with an entry in normal form, if anything: the first of
    /// the four checks that it fails.
    pub open spec fn fault(self, e: EntryView) -> Option<SchemaError> {
        if !self.classes_ok(e) {
            Some(SchemaError::InvalidClass)
        } else if !self.attributes_ok(e) {
            Some(SchemaError::InvalidAttribute)
        } else if !self.syntax_ok(e) {
            Some(SchemaError::InvalidAttributeSyntax)
        } else if !self.musts_ok(e) {
            Some(SchemaError::MissingMustAttribute)
        } else {
            None
        }
    }

    /// What is wrong with entry `e`, if anything. An entry whose normal
    /// form loses a value, because two of its attribute names differ in
    /// case only, holds an invalid attribute; any other entry is judged by
    /// its normal form.
    pub open spec fn entry_fault(self, e: EntryView) -> Option<SchemaError> {
        if normalised(e).avas.len() != e.avas.len() {
            Some(SchemaError::InvalidAttribute)
        } else {
            self.fault(normalised(e))
        }
    }

    /// Whether the schema admits entry `e`.
    pub open spec fn valid_entry(self, e: EntryView) -> bool {
        self.entry_fault(e) is None
    }

    /// The schema with `a` in place of each definition of its name, or
    /// behind the others where there was none.
    pub open spec fn with_attribute(self, a: SchemaAttributeView) -> SchemaView {
        if self.knows(a.name) {
            SchemaView {
                attributes: Seq::new(
                    self.attributes.len(),
                    |i: int| if self.attributes[i].name == a.name { a } else { self.attributes[i] },
                ),
                classes: self.classes,
            }
        } else {
            SchemaView { attributes: self.attributes.push(a), classes: self.classes }
        }
    }

    /// The schema with `c` in place of each definition of its name, or
    /// behind the others where there was none.
    pub open spec fn with_class(self, c: SchemaClassView) -> SchemaView {
        if self.has_class(c.name) {
            SchemaView {
                attributes: self.attributes,
                classes: Seq::new(
                    self.classes.len(),
                    |i: int| if self.classes[i].name == c.name { c } else { self.classes[i] },
                ),
            }
        } else {
            SchemaView { attributes: self.attributes, classes: self.classes.push(c) }
        }
    }

    /// Whether the schema defines every attribute that `f` refers to.
    pub open spec fn valid_filter(self, f: &Filter) -> bool {
        forall|name: Seq<char>| f.mentions(name) ==> self.knows(name)
    }
}

/// The normal form of an entry: the same values in the same order under
/// lower-case attribute names, without those that repeat an earlier one.
pub open spec fn normalised(e: EntryView) -> EntryView
    decreases e.avas.len(),
{
    if e.avas.len() == 0 {
        e
    } else {
        let front = normalised(EntryView { id: e.id, avas: e.avas.drop_last() });
        front.add(lower(e.avas.last().name), e.avas.last().value)
    }
}

/// The values `avas` under lower-case attribute names.
pub open spec fn renamed(avas: Seq<AvaView>) -> Seq<AvaView> {
    Seq::new(avas.len(), |i: int| AvaView { name: lower(avas[i].name), value: avas[i].value })
}

/// The normal form holds no more values than the entry, and where it holds
/// as many it holds the same values in the same order, under lower-case
/// names.
pub proof fn lemma_normalised_renames(e: EntryView)
    ensures
        normalised(e).avas.len() <= e.avas.len(),
        normalised(e).avas.len() == e.avas.len() ==> normalised(e).avas == renamed(e.avas),
    decreases e.avas.len(),
{
    if e.avas.len() > 0 {
        let rest = EntryView { id: e.id, avas: e.avas.drop_last() };
        lemma_normalised_renames(rest);
        if normalised(e).avas.len() == e.avas.len() {
            assert(normalised(e).avas =~= renamed(e.avas));
        }
    } else {
        assert(normalised(e).avas =~= renamed(e.avas));
    }
}

/// Every value of the normal form is a value of the entry, under the
/// lower-case form of its attribute name.
pub proof fn lemma_normalised_from(e: EntryView, i: int)
    requires
        0 <= i < normalised(e).avas.len(),
    ensures
        exists|k: int|
            0 <= k < e.avas.len() && normalised(e).avas[i] == (AvaView {
                name: lower((#[trigger] e.avas[k]).name),
                value: e.avas[k].value,
            }),
    decreases e.avas.len(),
{
    if e.avas.len() > 0 {
        let rest = EntryView { id: e.id, avas: e.avas.drop_last() };
        let front = normalised(rest);
        if i < front.avas.len() {
            lemma_normalised_from(rest, i);
            let k = choose|k: int|
                0 <= k < rest.avas.len() && front.avas[i] == (AvaView {
                    name: lower((#[trigger] rest.avas[k]).name),
                    value: rest.avas[k].value,
                });
            assert(rest.avas[k] == e.avas[k]);
            assert(normalised(e).avas[i] == front.avas[i]);
        } else {
            let k = e.avas.len() - 1;
            assert(normalised(e).avas[i] == (AvaView {
                name: lower(e.avas[k].name),
                value: e.avas[k].value,
            }));
        }
    }
}

/// The normal form keeps the identifier, repeats no value and has
/// lower-case names.
pub proof fn lemma_normalised_wf(e: EntryView)
    ensures
        normalised(e).wf(),
        normalised(e).id == e.id,
        lower_names(normalised(e)),
    decreases e.avas.len(),
{
    if e.avas.len() > 0 {
        let rest = EntryView { id: e.id, avas: e.avas.drop_last() };
        lemma_normalised_wf(rest);
        let front = normalised(rest);
        let a = e.avas.last();
        lemma_add_wf(front, lower(a.name), a.value);
        lemma_lower(a.name);
        let out = front.add(lower(a.name), a.value);
        assert forall|i: int| 0 <= i < out.avas.len() implies is_lower(
            (#[trigger] out.avas[i]).name,
        ) by {
            if i < front.avas.len() {
                assert(out.avas[i] == front.avas[i]);
            }
        }
    }
}

/// An entry that repeats no value and has lower-case names is its own
/// normal form.
pub proof fn lemma_normalised_fixpoint(e: EntryView)
    requires
        e.wf(),
        lower_names(e),
    ensures
        normalised(e) == e,
    decreases e.avas.len(),
{
    if e.avas.len() > 0 {
        let rest = EntryView { id: e.id, avas: e.avas.drop_last() };
        assert forall|i: int, j: int| 0 <= i < j < rest.avas.len() implies !(
        #[trigger] rest.avas[i]).is_at(
            (#[trigger] rest.avas[j]).name,
            rest.avas[j].value.identity(),
        ) by {
            assert(rest.avas[i] == e.avas[i] && rest.avas[j] == e.avas[j]);
        }
        assert forall|i: int| 0 <= i < rest.avas.len() implies is_lower(
            (#[trigger] rest.avas[i]).name,
        ) by {
            assert(rest.avas[i] == e.avas[i]);
        }
        lemma_normalised_fixpoint(rest);
        let a = e.avas.last();
        assert(is_lower(e.avas[e.avas.len() - 1].name));
        lemma_lower(a.name);
        if rest.has(a.name, a.value.identity()) {
            let i = choose|i: int|
                0 <= i < rest.avas.len() && (#[trigger] rest.avas[i]).is_at(
                    a.name,
                    a.value.identity(),
                );
            assert(rest.avas[i] == e.avas[i]);
            assert(e.avas[e.avas.len() - 1] == a);
            assert(false);
        }
        assert(rest.avas.push(a) =~= e.avas);
    }
}


/// A set of attribute and class definitions.
#[derive(Debug)]
pub struct SchemaInner {
    attributes: Vec<SchemaAttribute>,
    classes: Vec<SchemaClass>,
}

impl View for SchemaInner {
    type V = SchemaView;

    closed spec fn view(&self) -> SchemaView {
        SchemaView { attributes: views(self.attributes@), classes: views(self.classes@) }
    }
}

impl Clone for SchemaInner {
    fn clone(&self) -> (r: SchemaInner)
        ensures
            r@ == self@,
    {
        let mut attributes: Vec<SchemaAttribute> = Vec::new();
        let mut i: usize = 0;
        while i < self.attributes.len()
            invariant
                i <= self.attributes.len(),
                attributes.len() == i,
                forall|k: int| 0 <= k < i ==> (#[trigger] attributes[k])@ == self.attributes[k]@,
            decreases self.attributes.len() - i,
        {
            attributes.push(self.attributes[i].clone());
            i += 1;
        }
        let mut classes: Vec<SchemaClass> = Vec::new();
        let mut j: usize = 0;
        while j < self.classes.len()
            invariant
                j <= self.classes.len(),
                classes.len() == j,
                forall|k: int| 0 <= k < j ==> (#[trigger] classes[k])@ == self.classes[k]@,
            decreases self.classes.len() - j,
        {
            classes.push(self.classes[j].clone());
            j += 1;
        }
        proof {
            assert(views(attributes@) =~= views(self.attributes@));
            assert(views(classes@) =~= views(self.classes@));
        }
        SchemaInner { attributes, classes }
    }
}

impl SchemaInner {
    /// Definitions of nothing.
    pub fn new() -> (r: SchemaInner)
        ensures
            r@ == (SchemaView { attributes: Seq::empty(), classes: Seq::empty() }),
    {
        let attributes: Vec<SchemaAttribute> = Vec::new();
        let classes: Vec<SchemaClass> = Vec::new();
        proof {
            assert(views(attributes@) =~= Seq::<SchemaAttributeView>::empty());
            assert(views(classes@) =~= Seq::<SchemaClassView>::empty());
        }
        SchemaInner { attributes, classes }
    }

    /// Whether the schema defines class `name`.
    pub fn has_class(&self, name: &String) -> (r: bool)
        ensures
            r == self@.has_class(name@),
    {
        let mut i: usize = 0;
        while i < self.classes.len()
            invariant
                i <= self.classes.len(),
                forall|k: int| 0 <= k < i ==> (#[trigger] self@.classes[k]).name != name@,
            decreases self.classes.len() - i,
        {
            if self.classes[i].name == *name {
                assert(self@.classes[i as int].name == name@);
                return true;
            }
            i += 1;
        }
        false
    }

    /// Whether the schema defines attribute `name`.
    pub fn knows(&self, name: &String) -> (r: bool)
        ensures
            r == self@.knows(name@),
    {
        let mut i: usize = 0;
        while i < self.attributes.len()
            invariant
                i <= self.attributes.len(),
                forall|k: int| 0 <= k < i ==> (#[trigger] self@.attributes[k]).name != name@,
            decreases self.attributes.len() - i,
        {
            if self.attributes[i].name == *name {
                assert(self@.attributes[i as int].name == name@);
                return true;
            }
            i += 1;
        }
        false
    }

    /// Whether the schema defines attribute `name` with a syntax that takes
    /// `v`.
    pub fn admits(&self, name: &String, v: &Value) -> (r: bool)
        ensures
            r == self@.admits(name@, v@),
    {
        let mut i: usize = 0;
        while i < self.attributes.len()
            invariant
                i <= self.attributes.len(),
                forall|k: int|
                    0 <= k < i ==> !((#[trigger] self@.attributes[k]).name == name@
                        && self@.attributes[k].syntax.takes(v@)),
            decreases self.attributes.len() - i,
        {
            if self.attributes[i].name == *name && self.attributes[i].syntax.check(v) {
                assert(self@.attributes[i as int].name == name@);
                return true;
            }
            i += 1;
        }
        false
    }

    /// Whether the value `value` of attribute `attr` names a class that
    /// permits attribute `name`.
    fn permits_by(&self, attr: &String, value: &Value, name: &String) -> (r: bool)
        ensures
            r == self@.permits_by(AvaView { name: attr@, value: value@ }, name@),
    {
        let ghost a = AvaView { name: attr@, value: value@ };
        let class = match value {
            Value::Utf8(c) => c,
            _ => {
                return false;
            },
        };
        if *attr != "class".to_owned() {
            return false;
        }
        let mut i: usize = 0;
        while i < self.classes.len()
            invariant
                i <= self.classes.len(),
                a == (AvaView { name: attr@, value: value@ }),
                value@ == ValueView::Utf8(class@),
                attr@ == class_attr(),
                forall|k: int|
                    0 <= k < i ==> !(names_class(a, (#[trigger] self@.classes[k]).name)
                        && self@.classes[k].permits(name@)),
            decreases self.classes.len() - i,
        {
            if self.classes[i].name == *class && self.classes[i].permits(name) {
                assert(self@.classes[i as int] == self.classes[i as int]@);
                return true;
            }
            i += 1;
        }
        false
    }

    /// Whether entry `e` may hold attribute `name`.
    fn allows(&self, e: &Entry, name: &String) -> (r: bool)
        ensures
            r == self@.allows(e@, name@),
    {
        if *name == "class".to_owned() {
            return true;
        }
        let mut j: usize = 0;
        while j < e.len()
            invariant
                j <= e@.avas.len(),
                name@ != class_attr(),
                forall|k: int| 0 <= k < j ==> !self@.permits_by(#[trigger] e@.avas[k], name@),
            decreases e@.avas.len() - j,
        {
            if self.permits_by(e.name_at(j), e.value_at(j), name) {
                return true;
            }
            j += 1;
        }
        false
    }
}


impl SchemaInner {
    fn classes_ok(&self, e: &Entry) -> (r: bool)
        ensures
            r == self@.classes_ok(e@),
    {
        if !e.attribute_pres("class") {
            return false;
        }
        let class_name = "class".to_owned();
        let mut i: usize = 0;
        while i < e.len()
            invariant
                i <= e@.avas.len(),
                class_name@ == class_attr(),
                e@.has_attr(class_attr()),
                forall|k: int|
                    0 <= k < i && (#[trigger] e@.avas[k]).name == class_attr() ==> {
                        &&& e@.avas[k].value is Utf8
                        &&& self@.has_class(e@.avas[k].value->Utf8_0)
                    },
            decreases e@.avas.len() - i,
        {
            if *e.name_at(i) == class_name {
                match e.value_at(i) {
                    Value::Utf8(c) => {
                        if !self.has_class(c) {
                            return false;
                        }
                    },
                    _ => {
                        return false;
                    },
                }
            }
            i += 1;
        }
        true
    }

    fn attributes_ok(&self, e: &Entry) -> (r: bool)
        ensures
            r == self@.attributes_ok(e@),
    {
        let mut i: usize = 0;
        while i < e.len()
            invariant
                i <= e@.avas.len(),
                forall|k: int|
                    0 <= k < i ==> self@.knows((#[trigger] e@.avas[k]).name) && self@.allows(
                        e@,
                        e@.avas[k].name,
                    ),
            decreases e@.avas.len() - i,
        {
            if !self.knows(e.name_at(i)) || !self.allows(e, e.name_at(i)) {
                return false;
            }
            i += 1;
        }
        true
    }

    fn syntax_ok(&self, e: &Entry) -> (r: bool)
        ensures
            r == self@.syntax_ok(e@),
    {
        let mut i: usize = 0;
        while i < e.len()
            invariant
                i <= e@.avas.len(),
                forall|k: int|
                    0 <= k < i ==> self@.admits((#[trigger] e@.avas[k]).name, e@.avas[k].value),
            decreases e@.avas.len() - i,
        {
            if !self.admits(e.name_at(i), e.value_at(i)) {
                return false;
            }
            i += 1;
        }
        true
    }

    /// Whether `e` is of class `class`.
    fn is_of_class(e: &Entry, class: &String) -> (r: bool)
        ensures
            r == exists|j: int| 0 <= j < e@.avas.len() && names_class(#[trigger] e@.avas[j], class@),
    {
        let class_name = "class".to_owned();
        let mut j: usize = 0;
        while j < e.len()
            invariant
                j <= e@.avas.len(),
                class_name@ == class_attr(),
                forall|k: int| 0 <= k < j ==> !names_class(#[trigger] e@.avas[k], class@),
            decreases e@.avas.len() - j,
        {
            if *e.name_at(j) == class_name {
                match e.value_at(j) {
                    Value::Utf8(c) => {
                        if *c == *class {
                            return true;
                        }
                    },
                    _ => {},
                }
            }
            j += 1;
        }
        false
    }

    fn class_met(&self, e: &Entry, c: &SchemaClass) -> (r: bool)
        ensures
            r == self@.class_met(e@, c@),
    {
        if !Self::is_of_class(e, &c.name) {
            return true;
        }
        let mut m: usize = 0;
        while m < c.must.len()
            invariant
                m <= c.must.len(),
                exists|j: int| 0 <= j < e@.avas.len() && names_class(#[trigger] e@.avas[j], c@.name),
                forall|k: int| 0 <= k < m ==> e@.has_attr(#[trigger] c@.must[k]),
            decreases c.must.len() - m,
        {
            if !e.attribute_pres(c.must[m].as_str()) {
                assert(c@.must[m as int] == c.must[m as int]@);
                return false;
            }
            assert(c@.must[m as int] == c.must[m as int]@);
            m += 1;
        }
        true
    }

    fn musts_ok(&self, e: &Entry) -> (r: bool)
        ensures
            r == self@.musts_ok(e@),
    {
        let mut i: usize = 0;
        while i < self.classes.len()
            invariant
                i <= self.classes.len(),
                forall|k: int| 0 <= k < i ==> self@.class_met(e@, #[trigger] self@.classes[k]),
            decreases self.classes.len() - i,
        {
            if !self.class_met(e, &self.classes[i]) {
                assert(self@.classes[i as int] == self.classes[i as int]@);
                return false;
            }
            assert(self@.classes[i as int] == self.classes[i as int]@);
            i += 1;
        }
        true
    }

    /// The normal form of `e`.
    pub fn normalise_entry(&self, e: &Entry) -> (r: Entry)
        ensures
            r@ == normalised(e@),
    {
        let mut out = Entry::new().with_id(e.get_id());
        let mut i: usize = 0;
        proof {
            assert(e@.avas.take(0) =~= Seq::<AvaView>::empty());
        }
        while i < e.len()
            invariant
                i <= e@.avas.len(),
                out@ == normalised(EntryView { id: e@.id, avas: e@.avas.take(i as int) }),
            decreases e@.avas.len() - i,
        {
            proof {
                assert(e@.avas.take(i + 1).drop_last() =~= e@.avas.take(i as int));
            }
            let name = to_lower(e.name_at(i).as_str());
            out.add_ava(name.as_str(), e.value_at(i).clone());
            i += 1;
        }
        proof {
            assert(e@.avas.take(e@.avas.len() as int) =~= e@.avas);
        }
        out
    }

    /// Checks `e` against the schema: its normal form must hold every value
    /// of `e`, name defined classes only, hold defined and permitted
    /// attributes only, hold values of the right kind, and hold what its
    /// classes require. The error is that of the first of these checks that
    /// fails.
    pub fn validate_entry(&self, e: &Entry) -> (r: Result<(), SchemaError>)
        ensures
            r == match self@.entry_fault(e@) {
                None => Ok::<(), SchemaError>(()),
                Some(err) => Err(err),
            },
            r is Ok <==> self@.valid_entry(e@),
    {
        let n = self.normalise_entry(e);
        if n.len() != e.len() {
            Err(SchemaError::InvalidAttribute)
        } else if !self.classes_ok(&n) {
            Err(SchemaError::InvalidClass)
        } else if !self.attributes_ok(&n) {
            Err(SchemaError::InvalidAttribute)
        } else if !self.syntax_ok(&n) {
            Err(SchemaError::InvalidAttributeSyntax)
        } else if !self.musts_ok(&n) {
            Err(SchemaError::MissingMustAttribute)
        } else {
            Ok(())
        }
    }

    /// Whether the schema defines every attribute that `f` refers to.
    pub fn validate_filter(&self, f: &Filter) -> (r: bool)
        ensures
            r == self@.valid_filter(f),
        decreases f,
    {
        match f {
            Filter::Eq(attr, _) => {
                let r = self.knows(attr);
                assert(f.mentions(attr@));
                r
            },
            Filter::Pres(attr) => {
                let r = self.knows(attr);
                assert(f.mentions(attr@));
                r
            },
            Filter::And(a, b) => {
                let ra = self.validate_filter(a);
                let rb = self.validate_filter(b);
                proof {
                    if !ra {
                        let n = choose|n: Seq<char>| a.mentions(n) && !self@.knows(n);
                        assert(f.mentions(n));
                    }
                    if !rb {
                        let n = choose|n: Seq<char>| b.mentions(n) && !self@.knows(n);
                        assert(f.mentions(n));
                    }
                }
                ra && rb
            },
            Filter::Or(a, b) => {
                let ra = self.validate_filter(a);
                let rb = self.validate_filter(b);
                proof {
                    if !ra {
                        let n = choose|n: Seq<char>| a.mentions(n) && !self@.knows(n);
                        assert(f.mentions(n));
                    }
                    if !rb {
                        let n = choose|n: Seq<char>| b.mentions(n) && !self@.knows(n);
                        assert(f.mentions(n));
                    }
                }
                ra && rb
            },
            Filter::Not(a) => {
                let ra = self.validate_filter(a);
                proof {
                    if !ra {
                        let n = choose|n: Seq<char>| a.mentions(n) && !self@.knows(n);
                        assert(f.mentions(n));
                    }
                }
                ra
            },
        }
    }
}


impl SchemaInner {
    /// Defines attribute `a`, in place of any definition of its name.
    pub fn update_attribute(&mut self, a: SchemaAttribute)
        ensures
            final(self)@ == old(self)@.with_attribute(a@),
    {
        let ghost start = self@.attributes;
        let mut found = false;
        let mut i: usize = 0;
        while i < self.attributes.len()
            invariant
                i <= self.attributes.len(),
                self.attributes.len() == start.len(),
                self.classes == old(self).classes,
                found <==> exists|k: int| 0 <= k < i && (#[trigger] start[k]).name == a@.name,
                forall|k: int|
                    0 <= k < start.len() ==> (#[trigger] self.attributes[k])@ == if k < i
                        && start[k].name == a@.name {
                        a@
                    } else {
                        start[k]
                    },
            decreases self.attributes.len() - i,
        {
            if self.attributes[i].name == a.name {
                assert(start[i as int].name == a@.name);
                found = true;
                self.attributes.set(i, a.clone());
            }
            i += 1;
        }
        if !found {
            proof {
                assert(views(self.attributes@.push(a)) =~= start.push(a@));
            }
            self.attributes.push(a);
        } else {
            proof {
                assert(views(self.attributes@) =~= old(self)@.with_attribute(a@).attributes);
            }
        }
    }

    /// Defines class `c`, in place of any definition of its name.
    pub fn update_class(&mut self, c: SchemaClass)
        ensures
            final(self)@ == old(self)@.with_class(c@),
    {
        let ghost start = self@.classes;
        let mut found = false;
        let mut i: usize = 0;
        while i < self.classes.len()
            invariant
                i <= self.classes.len(),
                self.classes.len() == start.len(),
                self.attributes == old(self).attributes,
                found <==> exists|k: int| 0 <= k < i && (#[trigger] start[k]).name == c@.name,
                forall|k: int|
                    0 <= k < start.len() ==> (#[trigger] self.classes[k])@ == if k < i
                        && start[k].name == c@.name {
                        c@
                    } else {
                        start[k]
                    },
            decreases self.classes.len() - i,
        {
            if self.classes[i].name == c.name {
                assert(start[i as int].name == c@.name);
                found = true;
                self.classes.set(i, c.clone());
            }
            i += 1;
        }
        if !found {
            proof {
                assert(views(self.classes@.push(c)) =~= start.push(c@));
            }
            self.classes.push(c);
        } else {
            proof {
                assert(views(self.classes@) =~= old(self)@.with_class(c@).classes);
            }
        }
    }
}


/// What is wrong with the first entry of `es` that the schema does not
/// admit, if there is one.
pub open spec fn first_fault(s: SchemaView, es: Seq<EntryView>) -> Option<SchemaError>
    decreases es.len(),
{
    if es.len() == 0 {
        None
    } else {
        match first_fault(s, es.drop_last()) {
            Some(err) => Some(err),
            None => s.entry_fault(es.last()),
        }
    }
}

/// The normal forms of `es`, in order.
pub open spec fn normalised_all(es: Seq<EntryView>) -> Seq<EntryView> {
    Seq::new(es.len(), |i: int| normalised(es[i]))
}

/// Normal forms are well formed and have lower-case attribute names.
pub proof fn lemma_normalised_all(es: Seq<EntryView>)
    ensures
        crate::be::normal(normalised_all(es)),
{
    assert forall|i: int| 0 <= i < es.len() implies (#[trigger] normalised_all(es)[i]).wf()
        && lower_names(normalised_all(es)[i]) by {
        lemma_normalised_wf(es[i]);
    }
}

/// There is no fault among `es` exactly if the schema admits each of them.
pub proof fn lemma_first_fault(s: SchemaView, es: Seq<EntryView>)
    ensures
        first_fault(s, es) is None <==> forall|i: int|
            0 <= i < es.len() ==> s.valid_entry(#[trigger] es[i]),
    decreases es.len(),
{
    if es.len() > 0 {
        let front = es.drop_last();
        lemma_first_fault(s, front);
        if first_fault(s, es) is None {
            assert forall|i: int| 0 <= i < es.len() implies s.valid_entry(#[trigger] es[i]) by {
                if i < front.len() {
                    assert(front[i] == es[i]);
                }
            }
        }
        if forall|i: int| 0 <= i < es.len() ==> s.valid_entry(#[trigger] es[i]) {
            assert forall|i: int| 0 <= i < front.len() implies s.valid_entry(
                #[trigger] front[i],
            ) by {
                assert(front[i] == es[i]);
            }
            assert(s.valid_entry(es[es.len() - 1]));
        }
    }
}

/// A fault among the first entries is the fault among all of them.
proof fn lemma_first_fault_prefix(s: SchemaView, es: Seq<EntryView>, n: int)
    requires
        0 <= n <= es.len(),
        first_fault(s, es.take(n)) is Some,
    ensures
        first_fault(s, es) == first_fault(s, es.take(n)),
    decreases es.len() - n,
{
    if n < es.len() {
        assert(es.take(n + 1).drop_last() =~= es.take(n));
        lemma_first_fault_prefix(s, es, n + 1);
    } else {
        assert(es.take(n) =~= es);
    }
}

impl SchemaInner {
    /// Checks each entry of `es` against the schema, in order, and reports
    /// what is wrong with the first that fails.
    pub fn validate(&self, es: &Vec<Entry>) -> (r: Result<(), SchemaError>)
        ensures
            r == match first_fault(self@, views(es@)) {
                None => Ok::<(), SchemaError>(()),
                Some(err) => Err(err),
            },
    {
        let mut i: usize = 0;
        proof {
            assert(views(es@).take(0) =~= Seq::<EntryView>::empty());
        }
        while i < es.len()
            invariant
                i <= es.len(),
                first_fault(self@, views(es@).take(i as int)) is None,
            decreases es.len() - i,
        {
            proof {
                assert(views(es@).take(i + 1).drop_last() =~= views(es@).take(i as int));
            }
            match self.validate_entry(&es[i]) {
                Ok(()) => {},
                Err(err) => {
                    proof {
                        lemma_first_fault_prefix(self@, views(es@), i + 1);
                    }
                    return Err(err);
                },
            }
            i += 1;
        }
        proof {
            assert(views(es@).take(es.len() as int) =~= views(es@));
        }
        Ok(())
    }

    /// The normal forms of `es`, in order.
    pub fn normalise_all(&self, es: &Vec<Entry>) -> (r: Vec<Entry>)
        ensures
            views(r@) == normalised_all(views(es@)),
    {
        let mut out: Vec<Entry> = Vec::new();
        let mut i: usize = 0;
        while i < es.len()
            invariant
                i <= es.len(),
                out.len() == i,
                forall|k: int| 0 <= k < i ==> (#[trigger] out[k])@ == normalised(es[k]@),
            decreases es.len() - i,
        {
            out.push(self.normalise_entry(&es[i]));
            i += 1;
        }
        proof {
            assert(views(out@) =~= normalised_all(views(es@)));
        }
        out
    }
}

/// The schema store of a server. Its view is the committed schema.
#[derive(Debug)]
pub struct Schema {
    committed: SchemaInner,
    working: SchemaInner,
}

impl View for Schema {
    type V = SchemaView;

    closed spec fn view(&self) -> SchemaView {
        self.committed@
    }
}

/// A read view of the schema: the committed schema as it was when the view
/// was opened.
pub struct SchemaTransaction {
    inner: SchemaInner,
}

impl View for SchemaTransaction {
    type V = SchemaView;

    closed spec fn view(&self) -> SchemaView {
        self.inner@
    }
}

/// The write view of the schema. Its view is the schema that it works on.
/// Dropping it without a commit leaves the committed schema as it was.
pub struct SchemaWriteTransaction<'a> {
    pub schema: &'a mut Schema,
}

impl<'a> View for SchemaWriteTransaction<'a> {
    type V = SchemaView;

    open spec fn view(&self) -> SchemaView {
        self.schema.working()
    }
}

impl Schema {
    /// The schema that the write view works on.
    pub closed spec fn working(&self) -> SchemaView {
        self.working@
    }

    /// A schema store that defines nothing.
    pub fn new() -> (r: Schema)
        ensures
            r@ == (SchemaView { attributes: Seq::empty(), classes: Seq::empty() }),
    {
        Schema { committed: SchemaInner::new(), working: SchemaInner::new() }
    }

    /// Opens a read view of the committed schema.
    pub fn read(&self) -> (t: SchemaTransaction)
        ensures
            t@ == self@,
    {
        SchemaTransaction { inner: self.committed.clone() }
    }

    /// Opens the write view. It works on a copy of the committed schema.
    pub fn write(&mut self) -> (t: SchemaWriteTransaction<'_>)
        ensures
            t@ == old(self)@,
            t.schema@ == old(self)@,
            *final(t.schema) == *final(self),
    {
        self.working = self.committed.clone();
        SchemaWriteTransaction { schema: self }
    }
}

impl SchemaTransaction {
    /// The definitions that this view reads.
    pub fn get_inner(&self) -> (r: &SchemaInner)
        ensures
            r@ == self@,
    {
        &self.inner
    }
}

impl<'a> SchemaWriteTransaction<'a> {
    /// The definitions that this view works on.
    pub fn get_inner(&self) -> (r: &SchemaInner)
        ensures
            r@ == self@,
    {
        &self.schema.working
    }

    /// Defines attribute `a`, in place of any definition of its name.
    pub fn update_attribute(&mut self, a: SchemaAttribute)
        ensures
            final(self)@ == old(self)@.with_attribute(a@),
            final(self).schema@ == old(self).schema@,
            *final(final(self).schema) == *final(old(self).schema),
    {
        self.schema.working.update_attribute(a);
    }

    /// Defines class `c`, in place of any definition of its name.
    pub fn update_class(&mut self, c: SchemaClass)
        ensures
            final(self)@ == old(self)@.with_class(c@),
            final(self).schema@ == old(self).schema@,
            *final(final(self).schema) == *final(old(self).schema),
    {
        self.schema.working.update_class(c);
    }

    /// Checks each entry of `es` against the schema of this view, in order,
    /// and reports what is wrong with the first that fails.
    pub fn validate(&self, es: &Vec<Entry>) -> (r: Result<(), SchemaError>)
        ensures
            r == match first_fault(self@, views(es@)) {
                None => Ok::<(), SchemaError>(()),
                Some(err) => Err(err),
            },
    {
        self.schema.working.validate(es)
    }

    /// Makes the schema of this view the committed schema.
    pub fn commit(self)
        ensures
            final(self.schema)@ == self@,
    {
        let SchemaWriteTransaction { schema } = self;
        schema.committed = schema.working.clone();
    }
}


/// The definition of attribute `name` with syntax `syntax`.
pub open spec fn attribute(name: Seq<char>, syntax: SyntaxType) -> SchemaAttributeView {
    SchemaAttributeView { name, syntax }
}

/// The attributes that every server defines.
pub open spec fn core_attributes() -> Seq<SchemaAttributeView> {
    seq![
        attribute("class"@, SyntaxType::Utf8String),
        attribute("name"@, SyntaxType::Utf8String),
        attribute("uuid"@, SyntaxType::Uuid),
        attribute("description"@, SyntaxType::Utf8String),
        attribute("displayname"@, SyntaxType::Utf8String),
        attribute("version"@, SyntaxType::Utf8String),
        attribute("domain"@, SyntaxType::Utf8String),
        attribute("user_auth_token_session"@, SyntaxType::Session),
        attribute("oauth2_session"@, SyntaxType::Oauth2Session),
        attribute("oauth2_rs_name"@, SyntaxType::Utf8String),
        attribute("oauth2_rs_origin"@, SyntaxType::Utf8String),
        attribute("oauth2_rs_scope_map"@, SyntaxType::Utf8String),
    ]
}

/// The classes that every server defines.
pub open spec fn core_classes() -> Seq<SchemaClassView> {
    seq![
        SchemaClassView {
            name: "object"@,
            must: seq!["uuid"@],
            may: seq!["description"@, "version"@],
        },
        SchemaClassView { name: "person"@, must: seq!["name"@, "displayname"@], may: seq![] },
        SchemaClassView {
            name: "account"@,
            must: seq!["name"@],
            may: seq!["displayname"@, "user_auth_token_session"@, "oauth2_session"@],
        },
        SchemaClassView {
            name: "system_info"@,
            must: seq!["name"@, "version"@, "domain"@],
            may: seq![],
        },
        SchemaClassView {
            name: "oauth2_resource_server"@,
            must: seq!["oauth2_rs_name"@, "displayname"@, "oauth2_rs_origin"@],
            may: seq!["oauth2_rs_scope_map"@],
        },
        SchemaClassView { name: "oauth2_resource_server_basic"@, must: seq![], may: seq![] },
    ]
}

/// The schema after each of `attrs` has been defined, in order.
pub open spec fn with_attributes(s: SchemaView, attrs: Seq<SchemaAttributeView>) -> SchemaView
    decreases attrs.len(),
{
    if attrs.len() == 0 {
        s
    } else {
        with_attributes(s, attrs.drop_last()).with_attribute(attrs.last())
    }
}

/// The schema after each of `classes` has been defined, in order.
pub open spec fn with_classes(s: SchemaView, classes: Seq<SchemaClassView>) -> SchemaView
    decreases classes.len(),
{
    if classes.len() == 0 {
        s
    } else {
        with_classes(s, classes.drop_last()).with_class(classes.last())
    }
}

/// The schema with the core attributes and classes defined.
pub open spec fn bootstrapped(s: SchemaView) -> SchemaView {
    with_classes(with_attributes(s, core_attributes()), core_classes())
}

fn names0() -> (r: Vec<String>)
    ensures
        views(r@) == Seq::<Seq<char>>::empty(),
{
    let v: Vec<String> = Vec::new();
    proof {
        assert(views(v@) =~= Seq::<Seq<char>>::empty());
    }
    v
}

fn names1(a: &str) -> (r: Vec<String>)
    ensures
        views(r@) == seq![a@],
{
    let mut v: Vec<String> = Vec::new();
    v.push(a.to_owned());
    proof {
        assert(views(v@) =~= seq![a@]);
    }
    v
}

fn names2(a: &str, b: &str) -> (r: Vec<String>)
    ensures
        views(r@) == seq![a@, b@],
{
    let mut v = names1(a);
    let second = b.to_owned();
    proof {
        lemma_views_push(v@, second);
    }
    v.push(second);
    proof {
        assert(views(v@) =~= seq![a@, b@]);
    }
    v
}

fn names3(a: &str, b: &str, c: &str) -> (r: Vec<String>)
    ensures
        views(r@) == seq![a@, b@, c@],
{
    let mut v = names2(a, b);
    let third = c.to_owned();
    proof {
        lemma_views_push(v@, third);
    }
    v.push(third);
    proof {
        assert(views(v@) =~= seq![a@, b@, c@]);
    }
    v
}

fn core_attribute_list() -> (r: Vec<SchemaAttribute>)
    ensures
        views(r@) == core_attributes(),
{
    let mut v: Vec<SchemaAttribute> = Vec::new();
    v.push(SchemaAttribute::new("class", SyntaxType::Utf8String));
    v.push(SchemaAttribute::new("name", SyntaxType::Utf8String));
    v.push(SchemaAttribute::new("uuid", SyntaxType::Uuid));
    v.push(SchemaAttribute::new("description", SyntaxType::Utf8String));
    v.push(SchemaAttribute::new("displayname", SyntaxType::Utf8String));
    v.push(SchemaAttribute::new("version", SyntaxType::Utf8String));
    v.push(SchemaAttribute::new("domain", SyntaxType::Utf8String));
    v.push(SchemaAttribute::new("user_auth_token_session", SyntaxType::Session));
    v.push(SchemaAttribute::new("oauth2_session", SyntaxType::Oauth2Session));
    v.push(SchemaAttribute::new("oauth2_rs_name", SyntaxType::Utf8String));
    v.push(SchemaAttribute::new("oauth2_rs_origin", SyntaxType::Utf8String));
    v.push(SchemaAttribute::new("oauth2_rs_scope_map", SyntaxType::Utf8String));
    proof {
        assert(views(v@) =~= core_attributes());
    }
    v
}

fn core_class_list() -> (r: Vec<SchemaClass>)
    ensures
        views(r@) == core_classes(),
{
    let mut v: Vec<SchemaClass> = Vec::new();
    v.push(SchemaClass::new("object", names1("uuid"), names2("description", "version")));
    v.push(SchemaClass::new("person", names2("name", "displayname"), names0()));
    v.push(
        SchemaClass::new(
            "account",
            names1("name"),
            names3("displayname", "user_auth_token_session", "oauth2_session"),
        ),
    );
    v.push(SchemaClass::new("system_info", names3("name", "version", "domain"), names0()));
    v.push(
        SchemaClass::new(
            "oauth2_resource_server",
            names3("oauth2_rs_name", "displayname", "oauth2_rs_origin"),
            names1("oauth2_rs_scope_map"),
        ),
    );
    v.push(SchemaClass::new("oauth2_resource_server_basic", names0(), names0()));
    proof {
        let c = core_classes();
        assert(v@[1]@.may =~= c[1].may);
        assert(v@[3]@.may =~= c[3].may);
        assert(v@[5]@.must =~= c[5].must && v@[5]@.may =~= c[5].may);
        assert(views(v@) =~= core_classes());
    }
    v
}

impl<'a> SchemaWriteTransaction<'a> {
    /// Defines the core attributes and classes, each in place of any
    /// definition of its name.
    pub fn bootstrap_core(&mut self)
        ensures
            final(self)@ == bootstrapped(old(self)@),
            final(self).schema@ == old(self).schema@,
            *final(final(self).schema) == *final(old(self).schema),
    {
        let attrs = core_attribute_list();
        let mut i: usize = 0;
        proof {
            assert(views(attrs@).take(0) =~= Seq::<SchemaAttributeView>::empty());
        }
        while i < attrs.len()
            invariant
                i <= attrs.len(),
                self@ == with_attributes(old(self)@, views(attrs@).take(i as int)),
                self.schema@ == old(self).schema@,
                *final(self.schema) == *final(old(self).schema),
            decreases attrs.len() - i,
        {
            proof {
                assert(views(attrs@).take(i + 1).drop_last() =~= views(attrs@).take(i as int));
            }
            self.update_attribute(attrs[i].clone());
            i += 1;
        }
        proof {
            assert(views(attrs@).take(attrs.len() as int) =~= views(attrs@));
        }
        let ghost mid = self@;
        let classes = core_class_list();
        let mut j: usize = 0;
        proof {
            assert(views(classes@).take(0) =~= Seq::<SchemaClassView>::empty());
        }
        while j < classes.len()
            invariant
                j <= classes.len(),
                self@ == with_classes(mid, views(classes@).take(j as int)),
                self.schema@ == old(self).schema@,
                *final(self.schema) == *final(old(self).schema),
            decreases classes.len() - j,
        {
            proof {
                assert(views(classes@).take(j + 1).drop_last() =~= views(classes@).take(j as int));
            }
            self.update_class(classes[j].clone());
            j += 1;
        }
        proof {
            assert(views(classes@).take(classes.len() as int) =~= views(classes@));
        }
    }
}

} // verus!
