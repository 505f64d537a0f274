//! Events: what a caller asks of the query server. An event is complete in
//! itself and says whether the server itself is the one that asks.
use vstd::prelude::*;
use crate::entry::Entry;
use crate::filter::Filter;
use crate::modify::ModifyList;

verus! {

/// A request for the entries that a filter selects.
#[derive(Debug)]
pub struct SearchEvent {
    pub filter: Filter,
    pub internal: bool,
}

/// A request to learn whether a filter selects any entry.
#[derive(Debug)]
pub struct ExistsEvent {
    pub filter: Filter,
    pub internal: bool,
}

/// A request to store new entries.
#[derive(Debug)]
pub struct CreateEvent {
    pub entries: Vec<Entry>,
    pub internal: bool,
}

/// A request to change the entries that a filter selects.
#[derive(Debug)]
pub struct ModifyEvent {
    pub filter: Filter,
    pub modlist: ModifyList,
    pub internal: bool,
}

/// The answer to a search.
#[derive(Debug)]
pub struct SearchResult {
    pub entries: Vec<Entry>,
}

/// The answer to an operation that returns nothing.
#[derive(Debug)]
pub struct OpResult {}

impl SearchEvent {
    /// A search from outside.
    pub fn new(filter: Filter) -> (r: SearchEvent)
        ensures
            r.filter == filter,
            !r.internal,
    {
        SearchEvent { filter, internal: false }
    }

    /// A search of the server itself.
    pub fn new_internal(filter: Filter) -> (r: SearchEvent)
        ensures
            r.filter == filter,
            r.internal,
    {
        SearchEvent { filter, internal: true }
    }
}

impl ExistsEvent {
    /// A question from outside.
    pub fn new(filter: Filter) -> (r: ExistsEvent)
        ensures
            r.filter == filter,
            !r.internal,
    {
        ExistsEvent { filter, internal: false }
    }

    /// A question of the server itself.
    pub fn new_internal(filter: Filter) -> (r: ExistsEvent)
        ensures
            r.filter == filter,
            r.internal,
    {
        ExistsEvent { filter, internal: true }
    }
}

impl CreateEvent {
    /// A create from outside.
    pub fn from_vec(entries: Vec<Entry>) -> (r: CreateEvent)
        ensures
            r.entries == entries,
            !r.internal,
    {
        CreateEvent { entries, internal: false }
    }

    /// A create of the server itself.
    pub fn new_internal(entries: Vec<Entry>) -> (r: CreateEvent)
        ensures
            r.entries == entries,
            r.internal,
    {
        CreateEvent { entries, internal: true }
    }
}

impl ModifyEvent {
    /// A modify from outside.
    pub fn new(filter: Filter, modlist: ModifyList) -> (r: ModifyEvent)
        ensures
            r.filter == filter,
            r.modlist == modlist,
            !r.internal,
    {
        ModifyEvent { filter, modlist, internal: false }
    }

    /// A modify of the server itself.
    pub fn new_internal(filter: Filter, modlist: ModifyList) -> (r: ModifyEvent)
        ensures
            r.filter == filter,
            r.modlist == modlist,
            r.internal,
    {
        ModifyEvent { filter, modlist, internal: true }
    }
}

impl SearchResult {
    /// The answer that holds `entries`.
    pub fn new(entries: Vec<Entry>) -> (r: SearchResult)
        ensures
            r.entries == entries,
    {
        SearchResult { entries }
    }
}

} // verus!
