//! Entries: directory objects that hold named, multi-valued attributes.
//!
//! An entry keeps its attributes as a list of attribute-value assertions, one
//! per value. Within one attribute no two values share an identity, so the
//! list stands for a mapping from attribute names to sets of values.
use vstd::prelude::*;
use vstd::std_specs::cmp::PartialEqSpecImpl;
use crate::value::{PartialValue, PartialValueView, Value, ValueView};

verus! {

/// One value of one attribute.
#[derive(Debug)]
pub struct Ava {
    pub name: String,
    pub value: Value,
}

/// One value of one attribute as contracts see it.
pub ghost struct AvaView {
    pub name: Seq<char>,
    pub value: ValueView,
}

impl View for Ava {
    type V = AvaView;

    open spec fn view(&self) -> AvaView {
        AvaView { name: self.name@, value: self.value@ }
    }
}

impl Clone for Ava {
    fn clone(&self) -> (r: Ava)
        ensures
            r@ == self@,
    {
        Ava { name: self.name.clone(), value: self.value.clone() }
    }
}

/// Two values of attributes are equal where the attribute names are the
/// same and the values are the same in every field.
impl PartialEq for Ava {
    fn eq(&self, other: &Ava) -> (r: bool) {
        self.name == other.name && self.value.same(&other.value)
    }
}

impl PartialEqSpecImpl for Ava {
    open spec fn obeys_eq_spec() -> bool {
        true
    }

    open spec fn eq_spec(&self, other: &Ava) -> bool {
        self@ == other@
    }
}

impl AvaView {
    /// Whether this is the value of attribute `name` that `pv` identifies.
    pub open spec fn is_at(self, name: Seq<char>, pv: PartialValueView) -> bool {
        self.name == name && self.value.identity() == pv
    }
}

/// The views of the items of a sequence, in order.
pub open spec fn views<T: View>(s: Seq<T>) -> Seq<T::V> {
    Seq::new(s.len(), |i: int| s[i]@)
}

/// The views of a list with one more item.
pub proof fn lemma_views_push<T: View>(s: Seq<T>, x: T)
    ensures
        views(s.push(x)) == views(s).push(x@),
{
    assert(views(s.push(x)) =~= views(s).push(x@));
}

/// A directory object as contracts see it.
pub ghost struct EntryView {
    /// The identifier that the record store gave the entry, if it has one.
    pub id: Option<u64>,
    pub avas: Seq<AvaView>,
}

/// Whether no two items of `avas` are the same value of the same attribute.
pub open spec fn distinct_avas(avas: Seq<AvaView>) -> bool {
    forall|i: int, j: int|
        0 <= i < j < avas.len() ==> !(#[trigger] avas[i]).is_at(
            (#[trigger] avas[j]).name,
            avas[j].value.identity(),
        )
}

/// Whether `avas` holds the value of attribute `name` that `pv` identifies.
pub open spec fn avas_have(avas: Seq<AvaView>, name: Seq<char>, pv: PartialValueView) -> bool {
    exists|i: int| 0 <= i < avas.len() && (#[trigger] avas[i]).is_at(name, pv)
}

impl EntryView {
    /// Whether the entry is well formed: no attribute holds two values of one
    /// identity.
    pub open spec fn wf(self) -> bool {
        distinct_avas(self.avas)
    }

    /// Whether attribute `name` holds the value that `pv` identifies.
    pub open spec fn has(self, name: Seq<char>, pv: PartialValueView) -> bool {
        avas_have(self.avas, name, pv)
    }

    /// Whether attribute `name` holds any value.
    pub open spec fn has_attr(self, name: Seq<char>) -> bool {
        exists|i: int| 0 <= i < self.avas.len() && (#[trigger] self.avas[i]).name == name
    }

    /// The entry with `value` added to attribute `name`, unless the attribute
    /// already holds a value of that identity.
    pub open spec fn add(self, name: Seq<char>, value: ValueView) -> EntryView {
        if self.has(name, value.identity()) {
            self
        } else {
            EntryView { id: self.id, avas: self.avas.push(AvaView { name, value }) }
        }
    }

    /// The entry without the value of attribute `name` that `pv` identifies.
    pub open spec fn remove(self, name: Seq<char>, pv: PartialValueView) -> EntryView {
        EntryView { id: self.id, avas: self.avas.filter(|a: AvaView| !a.is_at(name, pv)) }
    }

    /// The entry without attribute `name`.
    pub open spec fn purge(self, name: Seq<char>) -> EntryView {
        EntryView { id: self.id, avas: self.avas.filter(|a: AvaView| a.name != name) }
    }

    /// The values of attribute `name`, in the order in which they were added.
    pub open spec fn values(self, name: Seq<char>) -> Seq<ValueView> {
        self.avas.filter(|a: AvaView| a.name == name).map_values(|a: AvaView| a.value)
    }

    /// The entry under another identifier.
    pub open spec fn with_id(self, id: Option<u64>) -> EntryView {
        EntryView { id, avas: self.avas }
    }
}

/// Keeping some items of a list without repeated values leaves none repeated.
pub proof fn lemma_filter_distinct(avas: Seq<AvaView>, pred: spec_fn(AvaView) -> bool)
    requires
        distinct_avas(avas),
    ensures
        distinct_avas(avas.filter(pred)),
    decreases avas.len(),
{
    reveal(Seq::filter);
    if avas.len() > 0 {
        let front = avas.drop_last();
        let last = avas.last();
        assert(distinct_avas(front)) by {
            assert forall|i: int, j: int| 0 <= i < j < front.len() implies !(#[trigger] front[i]).is_at(
                (#[trigger] front[j]).name,
                front[j].value.identity(),
            ) by {
                assert(front[i] == avas[i] && front[j] == avas[j]);
            }
        }
        lemma_filter_distinct(front, pred);
        let kept = front.filter(pred);
        if pred(last) {
            let out = kept.push(last);
            assert forall|i: int, j: int| 0 <= i < j < out.len() implies !(#[trigger] out[i]).is_at(
                (#[trigger] out[j]).name,
                out[j].value.identity(),
            ) by {
                if j == kept.len() {
                    assert(kept.contains(kept[i]));
                    front.lemma_filter_contains_rev(pred, kept[i]);
                    let k = choose|k: int| 0 <= k < front.len() && front[k] == kept[i];
                    assert(avas[k] == kept[i]);
                    assert(avas[avas.len() - 1] == last);
                } else {
                    assert(out[i] == kept[i] && out[j] == kept[j]);
                }
            }
        }
    }
}

/// Adding a value leaves no value repeated.
pub proof fn lemma_add_wf(e: EntryView, name: Seq<char>, value: ValueView)
    requires
        e.wf(),
    ensures
        e.add(name, value).wf(),
{
    if !e.has(name, value.identity()) {
        let after = e.avas.push(AvaView { name, value });
        assert forall|i: int, j: int| 0 <= i < j < after.len() implies !(#[trigger] after[i]).is_at(
            (#[trigger] after[j]).name,
            after[j].value.identity(),
        ) by {
            if j == e.avas.len() {
                assert(e.avas[i] == after[i]);
            } else {
                assert(e.avas[i] == after[i] && e.avas[j] == after[j]);
            }
        }
    }
}

/// Removing a value, or an attribute, leaves no value repeated.
pub proof fn lemma_remove_wf(e: EntryView, name: Seq<char>, pv: PartialValueView)
    requires
        e.wf(),
    ensures
        e.remove(name, pv).wf(),
        e.purge(name).wf(),
{
    lemma_filter_distinct(e.avas, |a: AvaView| !a.is_at(name, pv));
    lemma_filter_distinct(e.avas, |a: AvaView| a.name != name);
}

/// The entry with the values `avas` added in order, each unless its
/// attribute already holds a value of that identity.
pub open spec fn added_all(e: EntryView, avas: Seq<AvaView>) -> EntryView
    decreases avas.len(),
{
    if avas.len() == 0 {
        e
    } else {
        added_all(e, avas.drop_last()).add(avas.last().name, avas.last().value)
    }
}

/// Adding values keeps the identifier and leaves no value repeated.
pub proof fn lemma_added_all_wf(e: EntryView, avas: Seq<AvaView>)
    requires
        e.wf(),
    ensures
        added_all(e, avas).wf(),
        added_all(e, avas).id == e.id,
    decreases avas.len(),
{
    if avas.len() > 0 {
        lemma_added_all_wf(e, avas.drop_last());
        lemma_add_wf(added_all(e, avas.drop_last()), avas.last().name, avas.last().value);
    }
}

/// After values were added the entry holds each of them, and what it held
/// before; and every value that it holds was held before or was added.
pub proof fn lemma_added_all_has(e: EntryView, avas: Seq<AvaView>)
    ensures
        forall|k: int|
            0 <= k < avas.len() ==> added_all(e, avas).has(
                (#[trigger] avas[k]).name,
                avas[k].value.identity(),
            ),
        forall|name: Seq<char>, pv: PartialValueView|
            e.has(name, pv) ==> #[trigger] added_all(e, avas).has(name, pv),
        forall|i: int|
            0 <= i < added_all(e, avas).avas.len() ==> e.avas.contains(
                #[trigger] added_all(e, avas).avas[i],
            ) || avas.contains(added_all(e, avas).avas[i]),
    decreases avas.len(),
{
    if avas.len() > 0 {
        let front = avas.drop_last();
        let a = avas.last();
        lemma_added_all_has(e, front);
        let mid = added_all(e, front);
        let out = added_all(e, avas);
        assert(out == mid.add(a.name, a.value));
        assert forall|name: Seq<char>, pv: PartialValueView| mid.has(name, pv) implies out.has(
            name,
            pv,
        ) by {
            let i = choose|i: int| 0 <= i < mid.avas.len() && (#[trigger] mid.avas[i]).is_at(name, pv);
            assert(out.avas[i] == mid.avas[i]);
        }
        assert(out.has(a.name, a.value.identity())) by {
            if !mid.has(a.name, a.value.identity()) {
                assert(out.avas[out.avas.len() - 1].is_at(a.name, a.value.identity()));
            }
        }
        assert forall|k: int| 0 <= k < avas.len() implies out.has(
            (#[trigger] avas[k]).name,
            avas[k].value.identity(),
        ) by {
            if k < front.len() {
                assert(front[k] == avas[k]);
                assert(mid.has(front[k].name, front[k].value.identity()));
            }
        }
        assert forall|i: int| 0 <= i < out.avas.len() implies e.avas.contains(
            #[trigger] out.avas[i],
        ) || avas.contains(out.avas[i]) by {
            if i < mid.avas.len() {
                assert(out.avas[i] == mid.avas[i]);
                if front.contains(mid.avas[i]) {
                    let q = choose|q: int| 0 <= q < front.len() && front[q] == mid.avas[i];
                    assert(avas[q] == mid.avas[i]);
                }
            } else {
                assert(out.avas[i] == a);
                assert(avas[avas.len() - 1] == a);
            }
        }
    } else {
        assert forall|i: int| 0 <= i < e.avas.len() implies e.avas.contains(
            #[trigger] e.avas[i],
        ) by {}
    }
}

/// Adding the values that an entry holds to that entry changes nothing.
pub proof fn lemma_added_all_held(e: EntryView, avas: Seq<AvaView>)
    requires
        forall|i: int|
            0 <= i < avas.len() ==> e.has((#[trigger] avas[i]).name, avas[i].value.identity()),
    ensures
        added_all(e, avas) == e,
    decreases avas.len(),
{
    if avas.len() > 0 {
        let front = avas.drop_last();
        assert forall|i: int| 0 <= i < front.len() implies e.has(
            (#[trigger] front[i]).name,
            front[i].value.identity(),
        ) by {
            assert(front[i] == avas[i]);
        }
        lemma_added_all_held(e, front);
        assert(e.has(avas[avas.len() - 1].name, avas[avas.len() - 1].value.identity()));
    }
}

/// Adding the values of a well-formed entry to an entry without values
/// gives that entry.
pub proof fn lemma_added_all_rebuilds(id: Option<u64>, avas: Seq<AvaView>)
    requires
        distinct_avas(avas),
    ensures
        added_all(EntryView { id, avas: Seq::empty() }, avas) == (EntryView { id, avas }),
    decreases avas.len(),
{
    let none = EntryView { id, avas: Seq::empty() };
    if avas.len() > 0 {
        let front = avas.drop_last();
        assert forall|i: int, j: int| 0 <= i < j < front.len() implies !(#[trigger] front[i]).is_at(
            (#[trigger] front[j]).name,
            front[j].value.identity(),
        ) by {
            assert(front[i] == avas[i] && front[j] == avas[j]);
        }
        lemma_added_all_rebuilds(id, front);
        let a = avas.last();
        let mid = EntryView { id, avas: front };
        if mid.has(a.name, a.value.identity()) {
            let i = choose|i: int|
                0 <= i < front.len() && (#[trigger] front[i]).is_at(a.name, a.value.identity());
            assert(front[i] == avas[i]);
            assert(avas[avas.len() - 1] == a);
            assert(false);
        }
        assert(front.push(a) =~= avas);
    } else {
        assert(avas =~= Seq::<AvaView>::empty());
    }
}

/// A directory object: an optional identifier and its attribute values.
#[derive(Debug)]
pub struct Entry {
    id: Option<u64>,
    avas: Vec<Ava>,
}

impl View for Entry {
    type V = EntryView;

    closed spec fn view(&self) -> EntryView {
        EntryView { id: self.id, avas: views(self.avas@) }
    }
}

/// The items of `avas` that `keep` marks, in order.
fn select(avas: &Vec<Ava>, keep: &Vec<bool>, Ghost(pred): Ghost<spec_fn(AvaView) -> bool>) -> (r:
    Vec<Ava>)
    requires
        keep.len() == avas.len(),
        forall|i: int| 0 <= i < avas.len() ==> keep[i] == pred(#[trigger] avas[i]@),
    ensures
        views(r@) == views(avas@).filter(pred),
{
    let mut out: Vec<Ava> = Vec::new();
    let mut i: usize = 0;
    proof {
        reveal(Seq::filter);
        assert(views(avas@).take(0) =~= Seq::<AvaView>::empty());
        assert(views(out@) =~= Seq::<AvaView>::empty());
    }
    while i < avas.len()
        invariant
            i <= avas.len(),
            keep.len() == avas.len(),
            forall|k: int| 0 <= k < avas.len() ==> keep[k] == pred(#[trigger] avas[k]@),
            views(out@) == views(avas@).take(i as int).filter(pred),
        decreases avas.len() - i,
    {
        proof {
            let all = views(avas@);
            all.lemma_take_succ_push(i as int);
            all.take(i as int).lemma_filter_push(all[i as int], pred);
            assert(all[i as int] == avas[i as int]@);
        }
        if keep[i] {
            let a = avas[i].clone();
            proof {
                lemma_views_push(out@, a);
            }
            out.push(a);
        }
        i += 1;
    }
    proof {
        assert(views(avas@).take(avas.len() as int) =~= views(avas@));
    }
    out
}

impl Entry {
    /// An entry without identifier and without attributes.
    pub fn new() -> (r: Entry)
        ensures
            r@ == (EntryView { id: None, avas: Seq::empty() }),
            r@.wf(),
    {
        let avas: Vec<Ava> = Vec::new();
        proof {
            assert(views(avas@) =~= Seq::<AvaView>::empty());
        }
        Entry { id: None, avas }
    }

    /// The entry that holds the values `avas`, added in order: of values
    /// that repeat an earlier one only the first is kept.
    pub fn from_avas(avas: Vec<Ava>) -> (r: Entry)
        ensures
            r@ == added_all(EntryView { id: None, avas: Seq::empty() }, views(avas@)),
            r@.wf(),
    {
        proof {
            lemma_added_all_wf(EntryView { id: None, avas: Seq::empty() }, views(avas@));
        }
        let mut out = Entry::new();
        let mut i: usize = 0;
        proof {
            assert(views(avas@).take(0) =~= Seq::<AvaView>::empty());
        }
        while i < avas.len()
            invariant
                i <= avas.len(),
                out@ == added_all(
                    EntryView { id: None, avas: Seq::empty() },
                    views(avas@).take(i as int),
                ),
            decreases avas.len() - i,
        {
            proof {
                assert(views(avas@).take(i + 1).drop_last() =~= views(avas@).take(i as int));
            }
            out.add_ava(avas[i].name.as_str(), avas[i].value.clone());
            i += 1;
        }
        proof {
            assert(views(avas@).take(avas.len() as int) =~= views(avas@));
        }
        out
    }

    /// The identifier that the record store gave the entry, if it has one.
    pub fn get_id(&self) -> (r: Option<u64>)
        ensures
            r == self@.id,
    {
        self.id
    }

    /// The same attributes under identifier `id`.
    pub fn with_id(self, id: Option<u64>) -> (r: Entry)
        ensures
            r@ == self@.with_id(id),
    {
        Entry { id, avas: self.avas }
    }

    /// How many values the entry holds, over all attributes.
    pub fn len(&self) -> (r: usize)
        ensures
            r == self@.avas.len(),
    {
        self.avas.len()
    }

    /// Whether the entry is well formed. Every entry that the functions of
    /// this module have made is.
    pub fn is_well_formed(&self) -> (r: bool)
        ensures
            r == self@.wf(),
    {
        let mut j: usize = 0;
        while j < self.avas.len()
            invariant
                j <= self.avas.len(),
                forall|a: int, b: int|
                    0 <= a < b < j ==> !(#[trigger] self@.avas[a]).is_at(
                        (#[trigger] self@.avas[b]).name,
                        self@.avas[b].value.identity(),
                    ),
            decreases self.avas.len() - j,
        {
            let pv = self.avas[j].value.to_partial();
            let mut i: usize = 0;
            while i < j
                invariant
                    i <= j,
                    j < self.avas.len(),
                    pv@ == self@.avas[j as int].value.identity(),
                    forall|a: int|
                        0 <= a < i ==> !(#[trigger] self@.avas[a]).is_at(
                            self@.avas[j as int].name,
                            self@.avas[j as int].value.identity(),
                        ),
                decreases j - i,
            {
                if self.avas[i].name == self.avas[j].name && self.avas[i].value.is_identified_by(
                    &pv,
                ) {
                    assert(self@.avas[i as int].is_at(
                        self@.avas[j as int].name,
                        self@.avas[j as int].value.identity(),
                    ));
                    return false;
                }
                i += 1;
            }
            j += 1;
        }
        true
    }

    /// The values of the entry, each with its attribute name, in the order
    /// in which they were added.
    pub fn avas(&self) -> (r: Vec<Ava>)
        ensures
            views(r@) == self@.avas,
    {
        let mut out: Vec<Ava> = Vec::new();
        let mut i: usize = 0;
        while i < self.avas.len()
            invariant
                i <= self.avas.len(),
                out.len() == i,
                forall|k: int| 0 <= k < i ==> (#[trigger] out[k])@ == self.avas[k]@,
            decreases self.avas.len() - i,
        {
            out.push(self.avas[i].clone());
            i += 1;
        }
        proof {
            assert(views(out@) =~= views(self.avas@));
        }
        out
    }

    /// The values of attribute `attr`, in the order in which they were
    /// added.
    pub fn get_ava(&self, attr: &str) -> (r: Vec<Value>)
        ensures
            views(r@) == self@.values(attr@),
    {
        let name = attr.to_owned();
        let ghost pred = |a: AvaView| a.name == attr@;
        let ghost pick = |a: AvaView| a.value;
        let mut out: Vec<Value> = Vec::new();
        let mut i: usize = 0;
        proof {
            reveal(Seq::filter);
            assert(self@.avas.take(0) =~= Seq::<AvaView>::empty());
            assert(views(out@) =~= self@.avas.take(0).filter(pred).map_values(pick));
        }
        while i < self.avas.len()
            invariant
                i <= self.avas.len(),
                name@ == attr@,
                pred == (|a: AvaView| a.name == attr@),
                pick == (|a: AvaView| a.value),
                views(out@) == self@.avas.take(i as int).filter(pred).map_values(pick),
            decreases self.avas.len() - i,
        {
            proof {
                let all = self@.avas;
                all.lemma_take_succ_push(i as int);
                all.take(i as int).lemma_filter_push(all[i as int], pred);
                assert(all[i as int] == self.avas[i as int]@);
            }
            if self.avas[i].name == name {
                let v = self.avas[i].value.clone();
                proof {
                    let kept = self@.avas.take(i as int).filter(pred);
                    kept.lemma_push_map_commute(pick, self.avas[i as int]@);
                    lemma_views_push(out@, v);
                }
                out.push(v);
            }
            i += 1;
        }
        proof {
            assert(self@.avas.take(self.avas.len() as int) =~= self@.avas);
        }
        out
    }

    /// Keeps the values that `keep` marks and drops the others.
    pub(crate) fn retain(&mut self, keep: &Vec<bool>, Ghost(pred): Ghost<spec_fn(AvaView) -> bool>)
        requires
            keep.len() == old(self)@.avas.len(),
            forall|i: int|
                0 <= i < keep.len() ==> keep[i] == pred(#[trigger] old(self)@.avas[i]),
        ensures
            final(self)@ == (EntryView {
                id: old(self)@.id,
                avas: old(self)@.avas.filter(pred),
            }),
    {
        assert forall|i: int| 0 <= i < self.avas.len() implies keep[i] == pred(
            #[trigger] self.avas[i]@,
        ) by {
            assert(self@.avas[i] == self.avas[i]@);
        }
        self.avas = select(&self.avas, keep, Ghost(pred));
    }

    /// The attribute name of the `i`-th value.
    pub(crate) fn name_at(&self, i: usize) -> (r: &String)
        requires
            i < self@.avas.len(),
        ensures
            r@ == self@.avas[i as int].name,
    {
        &self.avas[i].name
    }

    /// The `i`-th value.
    pub(crate) fn value_at(&self, i: usize) -> (r: &Value)
        requires
            i < self@.avas.len(),
        ensures
            r@ == self@.avas[i as int].value,
    {
        &self.avas[i].value
    }

    /// Whether attribute `attr` holds the value that `pv` identifies.
    pub fn attribute_equality(&self, attr: &str, pv: &PartialValue) -> (r: bool)
        ensures
            r == self@.has(attr@, pv@),
    {
        let name = attr.to_owned();
        let mut i: usize = 0;
        while i < self.avas.len()
            invariant
                i <= self.avas.len(),
                name@ == attr@,
                forall|k: int| 0 <= k < i ==> !(#[trigger] views(self.avas@)[k]).is_at(attr@, pv@),
            decreases self.avas.len() - i,
        {
            if self.avas[i].name == name && self.avas[i].value.is_identified_by(pv) {
                assert(views(self.avas@)[i as int].is_at(attr@, pv@));
                return true;
            }
            i += 1;
        }
        false
    }

    /// Whether attribute `attr` holds any value.
    pub fn attribute_pres(&self, attr: &str) -> (r: bool)
        ensures
            r == self@.has_attr(attr@),
    {
        let name = attr.to_owned();
        let mut i: usize = 0;
        while i < self.avas.len()
            invariant
                i <= self.avas.len(),
                name@ == attr@,
                forall|k: int| 0 <= k < i ==> (#[trigger] views(self.avas@)[k]).name != attr@,
            decreases self.avas.len() - i,
        {
            if self.avas[i].name == name {
                assert(views(self.avas@)[i as int].name == attr@);
                return true;
            }
            i += 1;
        }
        false
    }

    /// Adds `value` to attribute `attr`. Where the attribute already holds a
    /// value of that identity the entry stays as it is.
    pub fn add_ava(&mut self, attr: &str, value: Value)
        ensures
            final(self)@ == old(self)@.add(attr@, value@),
            old(self)@.wf() ==> final(self)@.wf(),
    {
        proof {
            if self@.wf() {
                lemma_add_wf(self@, attr@, value@);
            }
        }
        let pv = value.to_partial();
        if !self.attribute_equality(attr, &pv) {
            let a = Ava { name: attr.to_owned(), value };
            proof {
                lemma_views_push(self.avas@, a);
            }
            self.avas.push(a);
        }
    }

    /// Removes from attribute `attr` the value that `pv` identifies.
    pub fn remove_ava(&mut self, attr: &str, pv: &PartialValue)
        ensures
            final(self)@ == old(self)@.remove(attr@, pv@),
            old(self)@.wf() ==> final(self)@.wf(),
    {
        proof {
            if self@.wf() {
                lemma_remove_wf(self@, attr@, pv@);
            }
        }
        let name = attr.to_owned();
        let ghost pred = |a: AvaView| !a.is_at(attr@, pv@);
        let mut keep: Vec<bool> = Vec::new();
        let mut i: usize = 0;
        while i < self.avas.len()
            invariant
                i <= self.avas.len(),
                keep.len() == i,
                name@ == attr@,
                pred == (|a: AvaView| !a.is_at(attr@, pv@)),
                forall|k: int| 0 <= k < i ==> keep[k] == pred(#[trigger] self.avas[k]@),
            decreases self.avas.len() - i,
        {
            let hit = self.avas[i].name == name && self.avas[i].value.is_identified_by(pv);
            keep.push(!hit);
            i += 1;
        }
        self.avas = select(&self.avas, &keep, Ghost(pred));
    }

    /// Removes every value of attribute `attr`.
    pub fn purge_ava(&mut self, attr: &str)
        ensures
            final(self)@ == old(self)@.purge(attr@),
            old(self)@.wf() ==> final(self)@.wf(),
    {
        proof {
            if self@.wf() {
                lemma_remove_wf(self@, attr@, arbitrary());
            }
        }
        let name = attr.to_owned();
        let ghost pred = |a: AvaView| a.name != attr@;
        let mut keep: Vec<bool> = Vec::new();
        let mut i: usize = 0;
        while i < self.avas.len()
            invariant
                i <= self.avas.len(),
                keep.len() == i,
                name@ == attr@,
                pred == (|a: AvaView| a.name != attr@),
                forall|k: int| 0 <= k < i ==> keep[k] == pred(#[trigger] self.avas[k]@),
            decreases self.avas.len() - i,
        {
            let hit = self.avas[i].name == name;
            keep.push(!hit);
            i += 1;
        }
        self.avas = select(&self.avas, &keep, Ghost(pred));
    }
}

impl Entry {
    /// Whether the entry holds exactly the value `a`.
    fn holds_ava(&self, a: &Ava) -> (r: bool)
        ensures
            r == self@.avas.contains(a@),
    {
        let mut i: usize = 0;
        while i < self.avas.len()
            invariant
                i <= self.avas.len(),
                forall|k: int| 0 <= k < i ==> (#[trigger] self@.avas[k]) != a@,
            decreases self.avas.len() - i,
        {
            if self.avas[i].name == a.name && self.avas[i].value.same(&a.value) {
                assert(self@.avas[i as int] == a@);
                return true;
            }
            i += 1;
        }
        false
    }

    /// Whether `other` holds every value that this entry holds.
    fn within(&self, other: &Entry) -> (r: bool)
        ensures
            r == forall|a: AvaView| self@.avas.contains(a) ==> other@.avas.contains(a),
    {
        let mut i: usize = 0;
        while i < self.avas.len()
            invariant
                i <= self.avas.len(),
                forall|k: int| 0 <= k < i ==> other@.avas.contains(#[trigger] self@.avas[k]),
            decreases self.avas.len() - i,
        {
            if !other.holds_ava(&self.avas[i]) {
                assert(self@.avas.contains(self@.avas[i as int]));
                return false;
            }
            i += 1;
        }
        true
    }
}

/// Two entries are equal where they hold the same values under the same
/// attributes. Neither the order of the values nor the identifier counts.
impl PartialEq for Entry {
    fn eq(&self, other: &Entry) -> (r: bool) {
        self.within(other) && other.within(self)
    }
}

impl PartialEqSpecImpl for Entry {
    open spec fn obeys_eq_spec() -> bool {
        true
    }

    open spec fn eq_spec(&self, other: &Entry) -> bool {
        &&& forall|a: AvaView| self@.avas.contains(a) ==> other@.avas.contains(a)
        &&& forall|a: AvaView| other@.avas.contains(a) ==> self@.avas.contains(a)
    }
}

impl Clone for Entry {
    fn clone(&self) -> (r: Entry)
        ensures
            r@ == self@,
    {
        let mut avas: Vec<Ava> = Vec::new();
        let mut i: usize = 0;
        while i < self.avas.len()
            invariant
                i <= self.avas.len(),
                avas.len() == i,
                forall|k: int| 0 <= k < i ==> (#[trigger] avas[k])@ == self.avas[k]@,
            decreases self.avas.len() - i,
        {
            let a = self.avas[i].clone();
            avas.push(a);
            i += 1;
        }
        proof {
            assert(views(avas@) =~= views(self.avas@));
        }
        Entry { id: self.id, avas }
    }
}

} // verus!
