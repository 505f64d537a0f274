//! Fixed values of the server: the grace window of derived sessions and the
//! entries that every server holds.
use vstd::prelude::*;
use crate::entry::{added_all, views, Ava, AvaView, Entry, EntryView};
use crate::value::{Value, ValueView};

verus! {

/// For how many seconds after it was issued a derived session is kept
/// although no parent session matches it.
pub const GRACE_WINDOW: u64 = 300;

/// The uuid of the entry that describes the server.
pub const UUID_SYSTEM_INFO: u128 = 0x0000_0000_0000_0000_0000_0000_ffff_ff01;

/// The uuid of the account for anonymous access.
pub const UUID_ANONYMOUS: u128 = 0x0000_0000_0000_0000_0000_ffff_ffff_ffff;

/// The text value `value` of attribute `name`.
pub open spec fn text(name: Seq<char>, value: Seq<char>) -> AvaView {
    AvaView { name, value: ValueView::Utf8(value) }
}

/// The values of the entry that describes the server.
pub open spec fn system_info_avas() -> Seq<AvaView> {
    seq![
        text("class"@, "object"@),
        text("class"@, "system_info"@),
        text("name"@, "system_info"@),
        AvaView { name: "uuid"@, value: ValueView::Uuid(UUID_SYSTEM_INFO) },
        text("description"@, "System info and metadata object."@),
        text("version"@, "1"@),
        text("domain"@, "example.com"@),
    ]
}

/// The values of the account for anonymous access.
pub open spec fn anonymous_avas() -> Seq<AvaView> {
    seq![
        text("class"@, "account"@),
        text("class"@, "object"@),
        text("name"@, "anonymous"@),
        AvaView { name: "uuid"@, value: ValueView::Uuid(UUID_ANONYMOUS) },
        text("description"@, "Anonymous access account."@),
        text("version"@, "1"@),
    ]
}

/// The entry that describes the server, before it is stored.
pub open spec fn system_info() -> EntryView {
    added_all(EntryView { id: None, avas: Seq::empty() }, system_info_avas())
}

/// The account for anonymous access, before it is stored.
pub open spec fn anonymous() -> EntryView {
    added_all(EntryView { id: None, avas: Seq::empty() }, anonymous_avas())
}

fn text_ava(name: &str, value: &str) -> (r: Ava)
    ensures
        r@ == text(name@, value@),
{
    Ava { name: name.to_owned(), value: Value::new_utf8s(value) }
}

/// The entry that describes the server.
pub fn system_info_v1() -> (r: Entry)
    ensures
        r@ == system_info(),
{
    let mut avas: Vec<Ava> = Vec::new();
    avas.push(text_ava("class", "object"));
    avas.push(text_ava("class", "system_info"));
    avas.push(text_ava("name", "system_info"));
    avas.push(Ava { name: "uuid".to_owned(), value: Value::new_uuid(UUID_SYSTEM_INFO) });
    avas.push(text_ava("description", "System info and metadata object."));
    avas.push(text_ava("version", "1"));
    avas.push(text_ava("domain", "example.com"));
    proof {
        assert(views(avas@) =~= system_info_avas());
    }
    Entry::from_avas(avas)
}

/// The account for anonymous access.
pub fn anonymous_v1() -> (r: Entry)
    ensures
        r@ == anonymous(),
{
    let mut avas: Vec<Ava> = Vec::new();
    avas.push(text_ava("class", "account"));
    avas.push(text_ava("class", "object"));
    avas.push(text_ava("name", "anonymous"));
    avas.push(Ava { name: "uuid".to_owned(), value: Value::new_uuid(UUID_ANONYMOUS) });
    avas.push(text_ava("description", "Anonymous access account."));
    avas.push(text_ava("version", "1"));
    proof {
        assert(views(avas@) =~= anonymous_avas());
    }
    Entry::from_avas(avas)
}

} // verus!
