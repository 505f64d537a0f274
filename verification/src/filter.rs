//! Filters: expression trees over attribute predicates that select entries.
use vstd::prelude::*;
use crate::entry::{views, Entry, EntryView};
use crate::value::PartialValue;

verus! {

/// A predicate on entries.
#[derive(Debug)]
pub enum Filter {
    /// The attribute holds the value that the partial value identifies.
    Eq(String, PartialValue),
    /// The attribute holds some value.
    Pres(String),
    And(Box<Filter>, Box<Filter>),
    Or(Box<Filter>, Box<Filter>),
    Not(Box<Filter>),
}

impl Filter {
    /// Whether the filter selects entry `e`.
    pub open spec fn matches(&self, e: EntryView) -> bool
        decreases self,
    {
        match self {
            Filter::Eq(attr, pv) => e.has(attr@, pv@),
            Filter::Pres(attr) => e.has_attr(attr@),
            Filter::And(a, b) => a.matches(e) && b.matches(e),
            Filter::Or(a, b) => a.matches(e) || b.matches(e),
            Filter::Not(a) => !a.matches(e),
        }
    }

    /// Whether the filter refers to attribute `name`.
    pub open spec fn mentions(&self, name: Seq<char>) -> bool
        decreases self,
    {
        match self {
            Filter::Eq(attr, _) => attr@ == name,
            Filter::Pres(attr) => attr@ == name,
            Filter::And(a, b) => a.mentions(name) || b.mentions(name),
            Filter::Or(a, b) => a.mentions(name) || b.mentions(name),
            Filter::Not(a) => a.mentions(name),
        }
    }

    /// The filter that selects the entries whose attribute `attr` holds the
    /// value that `pv` identifies.
    pub fn new_eq(attr: &str, pv: PartialValue) -> (r: Filter)
        ensures
            r matches Filter::Eq(a, p) && a@ == attr@ && p == pv,
    {
        Filter::Eq(attr.to_owned(), pv)
    }

    /// The filter that selects the entries whose attribute `attr` holds some
    /// value.
    pub fn new_pres(attr: &str) -> (r: Filter)
        ensures
            r matches Filter::Pres(a) && a@ == attr@,
    {
        Filter::Pres(attr.to_owned())
    }

    /// Whether the filter selects `e`.
    pub fn entry_match(&self, e: &Entry) -> (r: bool)
        ensures
            r == self.matches(e@),
        decreases self,
    {
        match self {
            Filter::Eq(attr, pv) => e.attribute_equality(attr.as_str(), pv),
            Filter::Pres(attr) => e.attribute_pres(attr.as_str()),
            Filter::And(a, b) => a.entry_match(e) && b.entry_match(e),
            Filter::Or(a, b) => a.entry_match(e) || b.entry_match(e),
            Filter::Not(a) => !a.entry_match(e),
        }
    }
}

impl Clone for Filter {
    fn clone(&self) -> (r: Filter)
        ensures
            r == *self,
        decreases self,
    {
        match self {
            Filter::Eq(attr, pv) => Filter::Eq(attr.clone(), pv.clone()),
            Filter::Pres(attr) => Filter::Pres(attr.clone()),
            Filter::And(a, b) => Filter::And(Box::new((**a).clone()), Box::new((**b).clone())),
            Filter::Or(a, b) => Filter::Or(Box::new((**a).clone()), Box::new((**b).clone())),
            Filter::Not(a) => Filter::Not(Box::new((**a).clone())),
        }
    }
}

/// Whether `names` holds `name`.
pub open spec fn names_hold(names: Seq<String>, name: Seq<char>) -> bool {
    exists|i: int| 0 <= i < names.len() && (#[trigger] names[i])@ == name
}

/// Whether `x` holds, under each attribute of `names`, every value that `e`
/// holds under it.
pub open spec fn covers(x: EntryView, e: EntryView, names: Seq<Seq<char>>) -> bool {
    forall|k: int|
        0 <= k < e.avas.len() && names.contains((#[trigger] e.avas[k]).name) ==> x.has(
            e.avas[k].name,
            e.avas[k].value.identity(),
        )
}

/// The same of the first `upto` values of `e`.
pub open spec fn covers_upto(x: EntryView, e: EntryView, names: Seq<String>, upto: int) -> bool {
    forall|k: int|
        0 <= k < upto && names_hold(names, (#[trigger] e.avas[k]).name) ==> x.has(
            e.avas[k].name,
            e.avas[k].value.identity(),
        )
}

fn holds_name(names: &Vec<String>, name: &String) -> (r: bool)
    ensures
        r == names_hold(names@, name@),
{
    let mut i: usize = 0;
    while i < names.len()
        invariant
            i <= names.len(),
            forall|k: int| 0 <= k < i ==> (#[trigger] names[k])@ != name@,
        decreases names.len() - i,
    {
        if names[i] == *name {
            return true;
        }
        i += 1;
    }
    false
}

impl Entry {
    /// The filter that selects the entries which hold, under each attribute
    /// of `attrs`, every value that this entry holds under it. There is no
    /// such filter where `attrs` is empty or names an attribute that this
    /// entry lacks.
    pub fn filter_from_attrs(&self, attrs: &Vec<String>) -> (r: Option<Filter>)
        ensures
            r is None <==> attrs@.len() == 0 || exists|i: int|
                0 <= i < attrs@.len() && !self@.has_attr(#[trigger] views(attrs@)[i]),
            r matches Some(f) ==> {
                &&& forall|x: EntryView| f.matches(x) <==> covers(x, self@, views(attrs@))
                &&& forall|name: Seq<char>| f.mentions(name) <==> views(attrs@).contains(name)
            },
    {
        if attrs.len() == 0 {
            return None;
        }
        let mut j: usize = 0;
        while j < attrs.len()
            invariant
                j <= attrs.len(),
                forall|i: int| 0 <= i < j ==> self@.has_attr(#[trigger] views(attrs@)[i]),
            decreases attrs.len() - j,
        {
            if !self.attribute_pres(attrs[j].as_str()) {
                assert(!self@.has_attr(views(attrs@)[j as int]));
                return None;
            }
            assert(views(attrs@)[j as int] == attrs@[j as int]@);
            j += 1;
        }
        let mut acc: Option<Filter> = None;
        let mut k: usize = 0;
        while k < self.len()
            invariant
                k <= self@.avas.len(),
                acc is None <==> forall|i: int|
                    0 <= i < k ==> !names_hold(attrs@, (#[trigger] self@.avas[i]).name),
                acc matches Some(f) ==> {
                    &&& forall|x: EntryView| f.matches(x) <==> covers_upto(x, self@, attrs@, k as int)
                    &&& forall|name: Seq<char>|
                        f.mentions(name) <==> exists|i: int|
                            0 <= i < k && (#[trigger] self@.avas[i]).name == name && names_hold(
                                attrs@,
                                name,
                            )
                },
            decreases self@.avas.len() - k,
        {
            let name = self.name_at(k);
            if holds_name(attrs, name) {
                let eq = Filter::Eq(name.clone(), self.value_at(k).to_partial());
                let ghost a = self@.avas[k as int];
                assert(forall|x: EntryView| eq.matches(x) <==> x.has(a.name, a.value.identity()));
                assert(forall|n: Seq<char>| eq.mentions(n) <==> a.name == n);
                let ghost prior = acc;
                let next = match acc {
                    None => eq,
                    Some(f) => Filter::And(Box::new(f), Box::new(eq)),
                };
                proof {
                    assert forall|x: EntryView| next.matches(x) <==> covers_upto(
                        x,
                        self@,
                        attrs@,
                        k + 1,
                    ) by {
                        let had = covers_upto(x, self@, attrs@, k as int);
                        let has = x.has(a.name, a.value.identity());
                        assert(covers_upto(x, self@, attrs@, k + 1) <==> had && has) by {
                            if covers_upto(x, self@, attrs@, k + 1) {
                                assert(names_hold(attrs@, self@.avas[k as int].name));
                            }
                        }
                        match prior {
                            None => {
                                assert(had);
                                assert(next.matches(x) <==> has);
                            },
                            Some(f) => {
                                assert(next.matches(x) <==> f.matches(x) && eq.matches(x));
                            },
                        }
                    }
                    assert forall|n: Seq<char>| next.mentions(n) <==> exists|i: int|
                        0 <= i < k + 1 && (#[trigger] self@.avas[i]).name == n && names_hold(
                            attrs@,
                            n,
                        ) by {
                        match prior {
                            None => {
                                assert(next.mentions(n) <==> a.name == n);
                            },
                            Some(f) => {
                                assert(next.mentions(n) <==> f.mentions(n) || eq.mentions(n));
                            },
                        }
                        if a.name == n {
                            assert(self@.avas[k as int].name == n);
                        }
                    }
                }
                acc = Some(next);
            } else {
                proof {
                    if acc is Some {
                        let f = acc->Some_0;
                        assert forall|x: EntryView| f.matches(x) <==> covers_upto(
                            x,
                            self@,
                            attrs@,
                            k + 1,
                        ) by {
                            if f.matches(x) {
                                assert(covers_upto(x, self@, attrs@, k as int));
                            }
                            if covers_upto(x, self@, attrs@, k + 1) {
                                assert(covers_upto(x, self@, attrs@, k as int));
                            }
                        }
                    }
                }
            }
            k += 1;
        }
        proof {
            let first = attrs@[0]@;
            assert(self@.has_attr(views(attrs@)[0]));
            let i = choose|i: int| 0 <= i < self@.avas.len() && (#[trigger] self@.avas[i]).name == first;
            assert(names_hold(attrs@, self@.avas[i].name));
            let f = acc->Some_0;
            assert forall|name: Seq<char>| names_hold(attrs@, name) <==> views(attrs@).contains(
                name,
            ) by {
                if names_hold(attrs@, name) {
                    let j = choose|j: int| 0 <= j < attrs@.len() && (#[trigger] attrs@[j])@ == name;
                    assert(views(attrs@)[j] == name);
                }
                if views(attrs@).contains(name) {
                    let j = choose|j: int| 0 <= j < attrs@.len() && views(attrs@)[j] == name;
                    assert(attrs@[j]@ == name);
                }
            }
            assert forall|name: Seq<char>| f.mentions(name) <==> views(attrs@).contains(name) by {
                if names_hold(attrs@, name) {
                    let j = choose|j: int| 0 <= j < attrs@.len() && (#[trigger] attrs@[j])@ == name;
                    assert(self@.has_attr(views(attrs@)[j]));
                    let i2 = choose|i2: int|
                        0 <= i2 < self@.avas.len() && (#[trigger] self@.avas[i2]).name == name;
                    assert(self@.avas[i2].name == name);
                }
            }
            assert forall|x: EntryView| f.matches(x) <==> covers(x, self@, views(attrs@)) by {
                assert(covers_upto(x, self@, attrs@, self@.avas.len() as int) <==> covers(
                    x,
                    self@,
                    views(attrs@),
                ));
            }
        }
        acc
    }
}

} // verus!
