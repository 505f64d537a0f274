//! Modifications: ordered lists of changes to the attributes of an entry.
use vstd::prelude::*;
use crate::entry::{Entry, EntryView};
use crate::entry::{lemma_add_wf, lemma_remove_wf};
use crate::value::{PartialValue, Value};

verus! {

/// One change to one attribute.
#[derive(Debug)]
pub enum Modify {
    /// The attribute holds this value afterwards.
    Present(String, Value),
    /// The attribute no longer holds the value that the partial value
    /// identifies.
    Removed(String, PartialValue),
    /// The attribute holds no value afterwards.
    Purged(String),
}

impl Modify {
    /// The entry after this change.
    pub open spec fn applied(&self, e: EntryView) -> EntryView {
        match self {
            Modify::Present(attr, v) => e.add(attr@, v@),
            Modify::Removed(attr, pv) => e.remove(attr@, pv@),
            Modify::Purged(attr) => e.purge(attr@),
        }
    }

    /// Makes this change to `e`.
    pub fn apply(&self, e: &mut Entry)
        ensures
            final(e)@ == self.applied(old(e)@),
    {
        match self {
            Modify::Present(attr, v) => e.add_ava(attr.as_str(), v.clone()),
            Modify::Removed(attr, pv) => e.remove_ava(attr.as_str(), pv),
            Modify::Purged(attr) => e.purge_ava(attr.as_str()),
        }
    }
}

/// The entry after the changes of `mods`, made in order.
pub open spec fn applied_all(mods: Seq<Modify>, e: EntryView) -> EntryView
    decreases mods.len(),
{
    if mods.len() == 0 {
        e
    } else {
        mods.last().applied(applied_all(mods.drop_last(), e))
    }
}

/// A list of changes keeps the identifier and leaves no value repeated.
pub proof fn lemma_applied_all_wf(mods: Seq<Modify>, e: EntryView)
    requires
        e.wf(),
    ensures
        applied_all(mods, e).wf(),
        applied_all(mods, e).id == e.id,
    decreases mods.len(),
{
    if mods.len() > 0 {
        lemma_applied_all_wf(mods.drop_last(), e);
        let mid = applied_all(mods.drop_last(), e);
        match mods.last() {
            Modify::Present(attr, v) => lemma_add_wf(mid, attr@, v@),
            Modify::Removed(attr, pv) => lemma_remove_wf(mid, attr@, pv@),
            Modify::Purged(attr) => lemma_remove_wf(mid, attr@, arbitrary()),
        }
    }
}

/// An ordered list of changes.
#[derive(Debug)]
pub struct ModifyList {
    pub mods: Vec<Modify>,
}

impl ModifyList {
    /// The list that holds `mods`.
    pub fn new_list(mods: Vec<Modify>) -> (r: ModifyList)
        ensures
            r.mods == mods,
    {
        ModifyList { mods }
    }

    /// The list that adds `value` to attribute `attr`.
    pub fn new_append(attr: &str, value: Value) -> (r: ModifyList)
        ensures
            r.mods@.len() == 1,
            r.mods@[0] matches Modify::Present(a, v) && a@ == attr@ && v == value,
    {
        let mut mods: Vec<Modify> = Vec::new();
        mods.push(Modify::Present(attr.to_owned(), value));
        ModifyList { mods }
    }

    /// The list that removes from attribute `attr` the value that `pv`
    /// identifies.
    pub fn new_remove(attr: &str, pv: PartialValue) -> (r: ModifyList)
        ensures
            r.mods@.len() == 1,
            r.mods@[0] matches Modify::Removed(a, p) && a@ == attr@ && p == pv,
    {
        let mut mods: Vec<Modify> = Vec::new();
        mods.push(Modify::Removed(attr.to_owned(), pv));
        ModifyList { mods }
    }

    /// The list that clears attribute `attr` and then sets it to `value`.
    pub fn new_purge_and_set(attr: &str, value: Value) -> (r: ModifyList)
        ensures
            r.mods@.len() == 2,
            r.mods@[0] matches Modify::Purged(a) && a@ == attr@,
            r.mods@[1] matches Modify::Present(a, v) && a@ == attr@ && v == value,
    {
        let mut mods: Vec<Modify> = Vec::new();
        mods.push(Modify::Purged(attr.to_owned()));
        mods.push(Modify::Present(attr.to_owned(), value));
        ModifyList { mods }
    }

    /// The entry after the changes of this list.
    pub open spec fn applied(&self, e: EntryView) -> EntryView {
        applied_all(self.mods@, e)
    }

    /// Makes the changes of this list to `e`, in order.
    pub fn apply(&self, e: &mut Entry)
        ensures
            final(e)@ == self.applied(old(e)@),
    {
        let mut i: usize = 0;
        while i < self.mods.len()
            invariant
                i <= self.mods.len(),
                e@ == applied_all(self.mods@.take(i as int), old(e)@),
            decreases self.mods.len() - i,
        {
            proof {
                assert(self.mods@.take(i + 1).drop_last() =~= self.mods@.take(i as int));
            }
            self.mods[i].apply(e);
            i += 1;
        }
        proof {
            assert(self.mods@.take(self.mods.len() as int) =~= self.mods@);
        }
    }
}

} // verus!
