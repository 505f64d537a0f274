//! Attribute values: the closed union of value kinds that an entry may hold,
//! and the partial values by which a single value is found again.
use vstd::prelude::*;
use vstd::std_specs::cmp::PartialEqSpecImpl;

verus! {

/// What a session is permitted to do.
#[derive(Clone, Copy, Debug, PartialEq, Eq)]
pub enum AccessScope {
    IdentityOnly,
    ReadOnly,
    ReadWrite,
    Synchronise,
}

/// Who issued a session.
#[derive(Clone, Copy, Debug, PartialEq, Eq)]
pub enum IdentityId {
    User(u128),
    Synch(u128),
    Internal,
}

/// A top-level authentication session. Times are seconds since the epoch.
#[derive(Debug)]
pub struct Session {
    pub label: String,
    pub expiry: Option<u64>,
    pub issued_at: u64,
    pub issued_by: IdentityId,
    pub scope: AccessScope,
}

/// A session derived from a parent session of the same entry and scoped to
/// one resource server.
#[derive(Clone, Copy, Debug, PartialEq, Eq)]
pub struct Oauth2Session {
    pub parent: u128,
    pub expiry: Option<u64>,
    pub issued_at: u64,
    pub rs_uuid: u128,
}

/// A value of an attribute.
#[derive(Debug)]
pub enum Value {
    Utf8(String),
    Uuid(u128),
    Session(u128, Session),
    Oauth2Session(u128, Oauth2Session),
}

/// The part of a value that identifies it within its attribute.
#[derive(Debug)]
pub enum PartialValue {
    Utf8(String),
    Uuid(u128),
    Refer(u128),
}

/// A session as contracts see it.
pub ghost struct SessionView {
    pub label: Seq<char>,
    pub expiry: Option<u64>,
    pub issued_at: u64,
    pub issued_by: IdentityId,
    pub scope: AccessScope,
}

/// A value as contracts see it.
pub ghost enum ValueView {
    Utf8(Seq<char>),
    Uuid(u128),
    Session(u128, SessionView),
    Oauth2Session(u128, Oauth2Session),
}

/// A partial value as contracts see it.
pub ghost enum PartialValueView {
    Utf8(Seq<char>),
    Uuid(u128),
    Refer(u128),
}

impl ValueView {
    /// The partial value under which this value is found in its attribute:
    /// a string or a uuid stands for itself, a session for its id.
    pub open spec fn identity(self) -> PartialValueView {
        match self {
            ValueView::Utf8(s) => PartialValueView::Utf8(s),
            ValueView::Uuid(u) => PartialValueView::Uuid(u),
            ValueView::Session(id, _) => PartialValueView::Refer(id),
            ValueView::Oauth2Session(id, _) => PartialValueView::Refer(id),
        }
    }
}

impl View for Session {
    type V = SessionView;

    open spec fn view(&self) -> SessionView {
        SessionView {
            label: self.label@,
            expiry: self.expiry,
            issued_at: self.issued_at,
            issued_by: self.issued_by,
            scope: self.scope,
        }
    }
}

impl View for Value {
    type V = ValueView;

    open spec fn view(&self) -> ValueView {
        match self {
            Value::Utf8(s) => ValueView::Utf8(s@),
            Value::Uuid(u) => ValueView::Uuid(*u),
            Value::Session(id, s) => ValueView::Session(*id, s@),
            Value::Oauth2Session(id, o) => ValueView::Oauth2Session(*id, *o),
        }
    }
}

impl View for PartialValue {
    type V = PartialValueView;

    open spec fn view(&self) -> PartialValueView {
        match self {
            PartialValue::Utf8(s) => PartialValueView::Utf8(s@),
            PartialValue::Uuid(u) => PartialValueView::Uuid(*u),
            PartialValue::Refer(u) => PartialValueView::Refer(*u),
        }
    }
}

/// Whether two optional times are the same.
pub fn same_time(a: Option<u64>, b: Option<u64>) -> (r: bool)
    ensures
        r == (a == b),
{
    match (a, b) {
        (Some(x), Some(y)) => x == y,
        (None, None) => true,
        _ => false,
    }
}

impl AccessScope {
    /// Whether the two scopes are the same.
    pub fn same(&self, other: &AccessScope) -> (r: bool)
        ensures
            r == (*self == *other),
    {
        match (self, other) {
            (AccessScope::IdentityOnly, AccessScope::IdentityOnly) => true,
            (AccessScope::ReadOnly, AccessScope::ReadOnly) => true,
            (AccessScope::ReadWrite, AccessScope::ReadWrite) => true,
            (AccessScope::Synchronise, AccessScope::Synchronise) => true,
            _ => false,
        }
    }
}

impl IdentityId {
    /// Whether the two identities are the same.
    pub fn same(&self, other: &IdentityId) -> (r: bool)
        ensures
            r == (*self == *other),
    {
        match (self, other) {
            (IdentityId::User(a), IdentityId::User(b)) => *a == *b,
            (IdentityId::Synch(a), IdentityId::Synch(b)) => *a == *b,
            (IdentityId::Internal, IdentityId::Internal) => true,
            _ => false,
        }
    }
}

impl Oauth2Session {
    /// Whether the two sessions are the same in every field.
    pub fn same(&self, other: &Oauth2Session) -> (r: bool)
        ensures
            r == (*self == *other),
    {
        self.parent == other.parent && same_time(self.expiry, other.expiry) && self.issued_at
            == other.issued_at && self.rs_uuid == other.rs_uuid
    }
}

impl Session {
    /// Whether the two sessions are the same in every field.
    pub fn same(&self, other: &Session) -> (r: bool)
        ensures
            r == (self@ == other@),
    {
        self.label == other.label && same_time(self.expiry, other.expiry) && self.issued_at
            == other.issued_at && self.issued_by.same(&other.issued_by) && self.scope.same(
            &other.scope,
        )
    }
}

impl Clone for Session {
    fn clone(&self) -> (r: Session)
        ensures
            r@ == self@,
    {
        Session {
            label: self.label.clone(),
            expiry: self.expiry,
            issued_at: self.issued_at,
            issued_by: self.issued_by,
            scope: self.scope,
        }
    }
}

impl PartialValue {
    /// The partial value that identifies the text `s`.
    pub fn new_utf8s(s: &str) -> (r: PartialValue)
        ensures
            r@ == PartialValueView::Utf8(s@),
    {
        PartialValue::Utf8(s.to_owned())
    }

    /// The partial value that identifies the uuid `u`.
    pub fn new_uuid(u: u128) -> (r: PartialValue)
        ensures
            r@ == PartialValueView::Uuid(u),
    {
        PartialValue::Uuid(u)
    }

    /// The partial value that identifies the session with id `u`.
    pub fn new_refer(u: u128) -> (r: PartialValue)
        ensures
            r@ == PartialValueView::Refer(u),
    {
        PartialValue::Refer(u)
    }

    /// Whether the two partial values are the same.
    pub fn same(&self, other: &PartialValue) -> (r: bool)
        ensures
            r == (self@ == other@),
    {
        match (self, other) {
            (PartialValue::Utf8(a), PartialValue::Utf8(b)) => *a == *b,
            (PartialValue::Uuid(a), PartialValue::Uuid(b)) => *a == *b,
            (PartialValue::Refer(a), PartialValue::Refer(b)) => *a == *b,
            _ => false,
        }
    }
}

impl Clone for PartialValue {
    fn clone(&self) -> (r: PartialValue)
        ensures
            r == *self,
    {
        match self {
            PartialValue::Utf8(s) => PartialValue::Utf8(s.clone()),
            PartialValue::Uuid(u) => PartialValue::Uuid(*u),
            PartialValue::Refer(u) => PartialValue::Refer(*u),
        }
    }
}

impl Value {
    /// The text value `s`.
    pub fn new_utf8s(s: &str) -> (r: Value)
        ensures
            r@ == ValueView::Utf8(s@),
    {
        Value::Utf8(s.to_owned())
    }

    /// The uuid value `u`.
    pub fn new_uuid(u: u128) -> (r: Value)
        ensures
            r@ == ValueView::Uuid(u),
    {
        Value::Uuid(u)
    }

    /// The partial value that finds this value again.
    pub fn to_partial(&self) -> (r: PartialValue)
        ensures
            r@ == self@.identity(),
    {
        match self {
            Value::Utf8(s) => PartialValue::Utf8(s.clone()),
            Value::Uuid(u) => PartialValue::Uuid(*u),
            Value::Session(id, _) => PartialValue::Refer(*id),
            Value::Oauth2Session(id, _) => PartialValue::Refer(*id),
        }
    }

    /// Whether `pv` identifies this value.
    pub fn is_identified_by(&self, pv: &PartialValue) -> (r: bool)
        ensures
            r == (self@.identity() == pv@),
    {
        match (self, pv) {
            (Value::Utf8(a), PartialValue::Utf8(b)) => *a == *b,
            (Value::Uuid(a), PartialValue::Uuid(b)) => *a == *b,
            (Value::Session(a, _), PartialValue::Refer(b)) => *a == *b,
            (Value::Oauth2Session(a, _), PartialValue::Refer(b)) => *a == *b,
            _ => false,
        }
    }

    /// Whether two values are the same in every field.
    pub fn same(&self, other: &Value) -> (r: bool)
        ensures
            r == (self@ == other@),
    {
        match (self, other) {
            (Value::Utf8(a), Value::Utf8(b)) => *a == *b,
            (Value::Uuid(a), Value::Uuid(b)) => *a == *b,
            (Value::Session(a, s), Value::Session(b, t)) => *a == *b && s.same(t),
            (Value::Oauth2Session(a, s), Value::Oauth2Session(b, t)) => *a == *b && s.same(t),
            _ => false,
        }
    }
}

impl Clone for Value {
    fn clone(&self) -> (r: Value)
        ensures
            r@ == self@,
    {
        match self {
            Value::Utf8(s) => Value::Utf8(s.clone()),
            Value::Uuid(u) => Value::Uuid(*u),
            Value::Session(id, s) => Value::Session(*id, s.clone()),
            Value::Oauth2Session(id, o) => Value::Oauth2Session(*id, *o),
        }
    }
}


/// Two sessions are equal where they are the same in every field.
impl PartialEq for Session {
    fn eq(&self, other: &Session) -> (r: bool) {
        self.same(other)
    }
}

impl PartialEqSpecImpl for Session {
    open spec fn obeys_eq_spec() -> bool {
        true
    }

    open spec fn eq_spec(&self, other: &Session) -> bool {
        self@ == other@
    }
}

/// Two values are equal where they are the same in every field.
impl PartialEq for Value {
    fn eq(&self, other: &Value) -> (r: bool) {
        self.same(other)
    }
}

impl PartialEqSpecImpl for Value {
    open spec fn obeys_eq_spec() -> bool {
        true
    }

    open spec fn eq_spec(&self, other: &Value) -> bool {
        self@ == other@
    }
}

/// Two partial values are equal where they identify the same values.
impl PartialEq for PartialValue {
    fn eq(&self, other: &PartialValue) -> (r: bool) {
        self.same(other)
    }
}

impl PartialEqSpecImpl for PartialValue {
    open spec fn obeys_eq_spec() -> bool {
        true
    }

    open spec fn eq_spec(&self, other: &PartialValue) -> bool {
        self@ == other@
    }
}

} // verus!
