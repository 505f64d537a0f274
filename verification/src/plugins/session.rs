//! Consistency of the authentication sessions of an account.
//!
//! Derived sessions are children of the sessions of the same entry: when a
//! session ends, its derived sessions end with it. The plugin also removes
//! sessions whose expiry has passed. Nothing runs in the background: an entry
//! is put right whenever an operation writes to it.
use vstd::prelude::*;
use crate::be::BackendWriteTransaction;
use crate::constants::GRACE_WINDOW;
use crate::entry::{lemma_filter_distinct, views, AvaView, Entry, EntryView};
use crate::error::OperationError;
use crate::event::{CreateEvent, ModifyEvent};
use crate::plugins::{same_shape, NoPlugins, Plugin, Plugins};
use crate::value::{Value, ValueView};

verus! {

/// Whether an expiry is set and has been reached at time `now`.
pub open spec fn expired(expiry: Option<u64>, now: u64) -> bool {
    expiry matches Some(t) && t <= now
}

/// Whether the grace window of a session issued at `issued_at` is over.
pub open spec fn grace_passed(issued_at: u64, now: u64) -> bool {
    now - issued_at >= GRACE_WINDOW
}

/// Whether `a` is a session with identifier `id`.
pub open spec fn is_session(a: AvaView, id: u128) -> bool {
    a.value matches ValueView::Session(sid, _) && sid == id
}

/// Whether `a` is a session with identifier `id` that has not expired.
pub open spec fn is_live_session(a: AvaView, id: u128, now: u64) -> bool {
    a.value matches ValueView::Session(sid, s) && sid == id && !expired(s.expiry, now)
}

/// Whether the entry holds a session with identifier `id`.
pub open spec fn has_session(e: EntryView, id: u128) -> bool {
    exists|i: int| 0 <= i < e.avas.len() && is_session(#[trigger] e.avas[i], id)
}

/// Whether the entry holds a session with identifier `id` that has not
/// expired at time `now`.
pub open spec fn has_live_session(e: EntryView, id: u128, now: u64) -> bool {
    exists|i: int| 0 <= i < e.avas.len() && is_live_session(#[trigger] e.avas[i], id, now)
}

/// Whether session `id` ends with this operation: the entry held it before
/// the operation or holds it now, and no such session is live.
pub open spec fn session_lost(pre: EntryView, cand: EntryView, id: u128, now: u64) -> bool {
    (has_session(pre, id) || has_session(cand, id)) && !has_live_session(cand, id, now)
}

/// Whether value `a` of candidate `cand` stays at time `now`, where `pre` is
/// the entry as it was before the operation.
///
/// A session stays unless it has expired. A derived session stays if it has
/// not expired and either its parent is live, or its parent was never seen
/// and the grace window is still open.
pub open spec fn stays(pre: EntryView, cand: EntryView, now: u64, a: AvaView) -> bool {
    match a.value {
        ValueView::Session(_, s) => !expired(s.expiry, now),
        ValueView::Oauth2Session(_, o) => !expired(o.expiry, now) && (has_live_session(
            cand,
            o.parent,
            now,
        ) || (!session_lost(pre, cand, o.parent, now) && !grace_passed(o.issued_at, now))),
        _ => true,
    }
}

/// The candidate with its sessions put right.
pub open spec fn swept(pre: EntryView, cand: EntryView, now: u64) -> EntryView {
    EntryView { id: cand.id, avas: cand.avas.filter(|a: AvaView| stays(pre, cand, now, a)) }
}

/// The candidates with their sessions put right, each against the entry of
/// the same position in `pre`, or against an empty entry where `pre` is
/// shorter.
pub open spec fn swept_all(pre: Seq<EntryView>, cand: Seq<EntryView>, now: u64) -> Seq<
    EntryView,
> {
    Seq::new(cand.len(), |i: int| swept(before(pre, i), cand[i], now))
}

/// The `i`-th entry of `pre`, or an empty entry.
pub open spec fn before(pre: Seq<EntryView>, i: int) -> EntryView {
    if 0 <= i < pre.len() {
        pre[i]
    } else {
        EntryView { id: None, avas: Seq::empty() }
    }
}

fn is_expired(expiry: Option<u64>, now: u64) -> (r: bool)
    ensures
        r == expired(expiry, now),
{
    match expiry {
        Some(t) => t <= now,
        None => false,
    }
}

fn is_grace_passed(issued_at: u64, now: u64) -> (r: bool)
    ensures
        r == grace_passed(issued_at, now),
{
    now >= issued_at && now - issued_at >= GRACE_WINDOW
}

fn contains_id(ids: &Vec<u128>, id: u128) -> (r: bool)
    ensures
        r == ids@.contains(id),
{
    let mut i: usize = 0;
    while i < ids.len()
        invariant
            i <= ids.len(),
            forall|k: int| 0 <= k < i ==> ids[k] != id,
        decreases ids.len() - i,
    {
        if ids[i] == id {
            return true;
        }
        i += 1;
    }
    false
}

/// The identifiers of the sessions of `e`: of all of them, or of those that
/// are live at `now`.
fn session_ids(e: &Entry, live_only: bool, now: u64) -> (r: Vec<u128>)
    ensures
        forall|id: u128|
            r@.contains(id) <==> if live_only {
                has_live_session(e@, id, now)
            } else {
                has_session(e@, id)
            },
{
    let mut out: Vec<u128> = Vec::new();
    let mut i: usize = 0;
    while i < e.len()
        invariant
            i <= e@.avas.len(),
            forall|id: u128|
                out@.contains(id) <==> exists|k: int|
                    0 <= k < i && if live_only {
                        is_live_session(#[trigger] e@.avas[k], id, now)
                    } else {
                        is_session(e@.avas[k], id)
                    },
        decreases e@.avas.len() - i,
    {
        let ghost prev = out@;
        match e.value_at(i) {
            Value::Session(sid, s) => {
                if !live_only || !is_expired(s.expiry, now) {
                    out.push(*sid);
                    proof {
                        assert forall|id: u128| out@.contains(id) <==> exists|k: int|
                            0 <= k < i + 1 && if live_only {
                                is_live_session(#[trigger] e@.avas[k], id, now)
                            } else {
                                is_session(e@.avas[k], id)
                            } by {
                            if out@.contains(id) {
                                let j = choose|j: int| 0 <= j < out@.len() && out@[j] == id;
                                if j < prev.len() {
                                    assert(prev[j] == id);
                                    assert(prev.contains(id));
                                } else {
                                    assert(id == *sid);
                                    assert(if live_only {
                                        is_live_session(e@.avas[i as int], id, now)
                                    } else {
                                        is_session(e@.avas[i as int], id)
                                    });
                                }
                            }
                            if exists|k: int|
                                0 <= k < i + 1 && if live_only {
                                    is_live_session(#[trigger] e@.avas[k], id, now)
                                } else {
                                    is_session(e@.avas[k], id)
                                } {
                                let k = choose|k: int|
                                    0 <= k < i + 1 && if live_only {
                                        is_live_session(#[trigger] e@.avas[k], id, now)
                                    } else {
                                        is_session(e@.avas[k], id)
                                    };
                                if k < i {
                                    assert(prev.contains(id));
                                    let j = choose|j: int| 0 <= j < prev.len() && prev[j] == id;
                                    assert(out@[j] == id);
                                } else {
                                    assert(out@[out@.len() - 1] == id);
                                }
                            }
                        }
                    }
                }
            },
            _ => {},
        }
        i += 1;
    }
    out
}

/// Puts the sessions of one candidate right, where `pre` is the entry as it
/// was before the operation.
pub fn sweep_entry(pre: &Entry, cand: &mut Entry, now: u64)
    ensures
        final(cand)@ == swept(pre@, old(cand)@, now),
{
    let live = session_ids(cand, true, now);
    let held = session_ids(cand, false, now);
    let held_before = session_ids(pre, false, now);
    let ghost pred = |a: AvaView| stays(pre@, cand@, now, a);
    let mut keep: Vec<bool> = Vec::new();
    let mut i: usize = 0;
    while i < cand.len()
        invariant
            i <= cand@.avas.len(),
            keep.len() == i,
            pred == (|a: AvaView| stays(pre@, cand@, now, a)),
            forall|id: u128| live@.contains(id) <==> has_live_session(cand@, id, now),
            forall|id: u128| held@.contains(id) <==> has_session(cand@, id),
            forall|id: u128| held_before@.contains(id) <==> has_session(pre@, id),
            forall|k: int| 0 <= k < i ==> keep[k] == pred(#[trigger] cand@.avas[k]),
        decreases cand@.avas.len() - i,
    {
        let k = match cand.value_at(i) {
            Value::Session(_, s) => !is_expired(s.expiry, now),
            Value::Oauth2Session(_, o) => {
                if is_expired(o.expiry, now) {
                    false
                } else if contains_id(&live, o.parent) {
                    true
                } else {
                    !contains_id(&held, o.parent) && !contains_id(&held_before, o.parent)
                        && !is_grace_passed(o.issued_at, now)
                }
            },
            _ => true,
        };
        keep.push(k);
        i += 1;
    }
    cand.retain(&keep, Ghost(pred));
}

/// What the sweep keeps is what the candidate held and what stays.
pub proof fn lemma_swept_contains(pre: EntryView, cand: EntryView, now: u64, a: AvaView)
    ensures
        swept(pre, cand, now).avas.contains(a) <==> cand.avas.contains(a) && stays(
            pre,
            cand,
            now,
            a,
        ),
{
    broadcast use vstd::seq_lib::group_filter_ensures;

    let pred = |a: AvaView| stays(pre, cand, now, a);
    let out = cand.avas.filter(pred);
    if out.contains(a) {
        cand.avas.lemma_filter_contains_rev(pred, a);
        let k = choose|k: int| 0 <= k < out.len() && out[k] == a;
        assert(pred(out[k]));
    }
    if cand.avas.contains(a) && stays(pre, cand, now, a) {
        let k = choose|k: int| 0 <= k < cand.avas.len() && cand.avas[k] == a;
        assert(pred(cand.avas[k]));
    }
}

/// A live session of the candidate is a live session after the sweep, and
/// the sweep adds no session.
pub proof fn lemma_swept_sessions(pre: EntryView, cand: EntryView, now: u64, id: u128)
    ensures
        has_live_session(swept(pre, cand, now), id, now) <==> has_live_session(cand, id, now),
        has_session(swept(pre, cand, now), id) <==> has_live_session(cand, id, now),
{
    let out = swept(pre, cand, now);
    if has_session(out, id) {
        let i = choose|i: int| 0 <= i < out.avas.len() && is_session(#[trigger] out.avas[i], id);
        let a = out.avas[i];
        assert(out.avas.contains(a));
        lemma_swept_contains(pre, cand, now, a);
        let k = choose|k: int| 0 <= k < cand.avas.len() && cand.avas[k] == a;
        assert(is_live_session(cand.avas[k], id, now));
        assert(is_live_session(out.avas[i], id, now));
    }
    if has_live_session(cand, id, now) {
        let k = choose|k: int|
            0 <= k < cand.avas.len() && is_live_session(#[trigger] cand.avas[k], id, now);
        let a = cand.avas[k];
        assert(cand.avas.contains(a));
        lemma_swept_contains(pre, cand, now, a);
        let i = choose|i: int| 0 <= i < out.avas.len() && out.avas[i] == a;
        assert(is_live_session(out.avas[i], id, now));
        assert(is_session(out.avas[i], id));
    }
}


/// After the sweep the entry holds no session and no derived session whose
/// expiry has been reached.
pub proof fn lemma_no_expired_session(pre: EntryView, cand: EntryView, now: u64, a: AvaView)
    requires
        swept(pre, cand, now).avas.contains(a),
    ensures
        a.value matches ValueView::Session(_, s) ==> !expired(s.expiry, now),
        a.value matches ValueView::Oauth2Session(_, o) ==> !expired(o.expiry, now),
{
    lemma_swept_contains(pre, cand, now, a);
}

/// A derived session does not outlive its parent: where the entry held the
/// parent before the operation, or the candidate holds it, and no such
/// session is live, the derived session is gone after the sweep.
pub proof fn lemma_cascade_on_parent_loss(pre: EntryView, cand: EntryView, now: u64, a: AvaView)
    requires
        a.value is Oauth2Session,
        session_lost(pre, cand, a.value->Oauth2Session_1.parent, now),
    ensures
        !swept(pre, cand, now).avas.contains(a),
{
    lemma_swept_contains(pre, cand, now, a);
}

/// A derived session whose parent the entry has never held survives the
/// sweep unchanged while its grace window is open, unless its own expiry has
/// been reached.
pub proof fn lemma_grace_window_keeps(pre: EntryView, cand: EntryView, now: u64, a: AvaView)
    requires
        cand.avas.contains(a),
        a.value is Oauth2Session,
        !has_session(cand, a.value->Oauth2Session_1.parent),
        !has_session(pre, a.value->Oauth2Session_1.parent),
        !expired(a.value->Oauth2Session_1.expiry, now),
        !grace_passed(a.value->Oauth2Session_1.issued_at, now),
    ensures
        swept(pre, cand, now).avas.contains(a),
{
    lemma_swept_contains(pre, cand, now, a);
}

/// A derived session without a live parent is gone after the sweep once its
/// grace window is over.
pub proof fn lemma_grace_window_purges(pre: EntryView, cand: EntryView, now: u64, a: AvaView)
    requires
        a.value is Oauth2Session,
        !has_live_session(cand, a.value->Oauth2Session_1.parent, now),
        grace_passed(a.value->Oauth2Session_1.issued_at, now),
    ensures
        !swept(pre, cand, now).avas.contains(a),
{
    lemma_swept_contains(pre, cand, now, a);
}

/// After the sweep every derived session of the entry has a live parent on
/// the entry, or is within its grace window.
pub proof fn lemma_parent_or_grace(pre: EntryView, cand: EntryView, now: u64, a: AvaView)
    requires
        swept(pre, cand, now).avas.contains(a),
        a.value is Oauth2Session,
    ensures
        has_live_session(swept(pre, cand, now), a.value->Oauth2Session_1.parent, now)
            || !grace_passed(a.value->Oauth2Session_1.issued_at, now),
{
    lemma_swept_contains(pre, cand, now, a);
    lemma_swept_sessions(pre, cand, now, a.value->Oauth2Session_1.parent);
}

/// The sweep keeps the identifier, adds no value and keeps the values in
/// order, so it leaves no value repeated.
pub proof fn lemma_swept_wf(pre: EntryView, cand: EntryView, now: u64)
    requires
        cand.wf(),
    ensures
        swept(pre, cand, now).wf(),
        swept(pre, cand, now).id == cand.id,
{
    lemma_filter_distinct(cand.avas, |a: AvaView| stays(pre, cand, now, a));
}

/// A filter keeps a list whole where every item passes.
pub proof fn lemma_filter_all(avas: Seq<AvaView>, pred: spec_fn(AvaView) -> bool)
    requires
        forall|i: int| 0 <= i < avas.len() ==> pred(#[trigger] avas[i]),
    ensures
        avas.filter(pred) == avas,
    decreases avas.len(),
{
    reveal(Seq::filter);
    if avas.len() > 0 {
        let front = avas.drop_last();
        assert forall|i: int| 0 <= i < front.len() implies pred(#[trigger] front[i]) by {
            assert(front[i] == avas[i]);
        }
        lemma_filter_all(front, pred);
        assert(front.push(avas.last()) =~= avas);
    }
}

/// Running the sweep a second time at the same time changes nothing.
pub proof fn lemma_sweep_idempotent(pre: EntryView, cand: EntryView, now: u64)
    ensures
        swept(pre, swept(pre, cand, now), now) == swept(pre, cand, now),
{
    let once = swept(pre, cand, now);
    let pred = |a: AvaView| stays(pre, once, now, a);
    assert forall|i: int| 0 <= i < once.avas.len() implies pred(#[trigger] once.avas[i]) by {
        let a = once.avas[i];
        assert(once.avas.contains(a));
        lemma_swept_contains(pre, cand, now, a);
        match a.value {
            ValueView::Oauth2Session(_, o) => {
                lemma_swept_sessions(pre, cand, now, o.parent);
            },
            _ => {},
        }
    }
    lemma_filter_all(once.avas, pred);
}


/// Puts the sessions of every candidate right, each against the entry of
/// the same position in `pre`.
pub fn sweep_all(pre: &Vec<Entry>, cand: &mut Vec<Entry>, now: u64)
    ensures
        views(final(cand)@) == swept_all(views(pre@), views(old(cand)@), now),
{
    let none = Entry::new();
    let mut out: Vec<Entry> = Vec::new();
    let mut i: usize = 0;
    while i < cand.len()
        invariant
            i <= cand.len(),
            out.len() == i,
            cand == old(cand),
            none@ == (EntryView { id: None, avas: Seq::empty() }),
            forall|k: int|
                0 <= k < i ==> (#[trigger] out[k])@ == swept(
                    before(views(pre@), k),
                    cand[k]@,
                    now,
                ),
        decreases cand.len() - i,
    {
        let mut e = cand[i].clone();
        if i < pre.len() {
            sweep_entry(&pre[i], &mut e, now);
        } else {
            sweep_entry(&none, &mut e, now);
        }
        out.push(e);
        i += 1;
    }
    proof {
        assert(views(out@) =~= swept_all(views(pre@), views(cand@), now));
    }
    *cand = out;
}

/// The plugin that keeps the sessions of accounts consistent. It never
/// rejects an operation.
pub struct SessionConsistency {}

impl Plugin for SessionConsistency {
    open spec fn created(
        &self,
        store: Seq<EntryView>,
        cand: Seq<EntryView>,
        internal: bool,
        now: u64,
    ) -> Option<Seq<EntryView>> {
        Some(swept_all(Seq::empty(), cand, now))
    }

    open spec fn modified(
        &self,
        store: Seq<EntryView>,
        pre: Seq<EntryView>,
        cand: Seq<EntryView>,
        internal: bool,
        now: u64,
    ) -> Option<Seq<EntryView>> {
        Some(swept_all(pre, cand, now))
    }

    fn id(&self) -> (r: &'static str)
        ensures
            r@ == "plugin_session_consistency"@,
    {
        "plugin_session_consistency"
    }

    fn pre_create(
        &self,
        be: &BackendWriteTransaction<'_>,
        cand: &mut Vec<Entry>,
        ce: &CreateEvent,
        now: u64,
    ) -> (r: Result<(), OperationError>) {
        let pre: Vec<Entry> = Vec::new();
        proof {
            assert(views(pre@) =~= Seq::<EntryView>::empty());
        }
        sweep_all(&pre, cand, now);
        Ok(())
    }

    fn pre_modify(
        &self,
        be: &BackendWriteTransaction<'_>,
        pre_cand: &Vec<Entry>,
        cand: &mut Vec<Entry>,
        me: &ModifyEvent,
        now: u64,
    ) -> (r: Result<(), OperationError>) {
        sweep_all(pre_cand, cand, now);
        Ok(())
    }

    proof fn lemma_shape(
        &self,
        store: Seq<EntryView>,
        pre: Seq<EntryView>,
        cand: Seq<EntryView>,
        internal: bool,
        now: u64,
    ) {
        lemma_swept_all_shape(Seq::empty(), cand, now);
        lemma_swept_all_shape(pre, cand, now);
    }

    proof fn lemma_idempotent(
        &self,
        store: Seq<EntryView>,
        pre: Seq<EntryView>,
        cand: Seq<EntryView>,
        internal: bool,
        now: u64,
    ) {
        lemma_sweep_all_idempotent(Seq::empty(), cand, now);
        lemma_sweep_all_idempotent(pre, cand, now);
    }
}

/// The pipeline of every server: the session consistency plugin alone.
pub type StandardPlugins = Plugins<SessionConsistency, NoPlugins>;

/// The pipeline of every server as contracts see it.
pub open spec fn standard() -> StandardPlugins {
    Plugins { hook: SessionConsistency {  }, rest: NoPlugins {  } }
}

/// The pipeline of every server.
pub fn standard_plugins() -> (r: StandardPlugins)
    ensures
        r == standard(),
{
    Plugins::new(SessionConsistency {  }, NoPlugins {  })
}

/// The sweep leaves as many candidates as it found, under the same
/// identifiers, and none of them with a repeated value.
pub proof fn lemma_swept_all_shape(pre: Seq<EntryView>, cand: Seq<EntryView>, now: u64)
    ensures
        same_shape(cand, swept_all(pre, cand, now)),
{
    let out = swept_all(pre, cand, now);
    assert forall|i: int| 0 <= i < cand.len() implies (#[trigger] out[i]).id == cand[i].id && (
    cand[i].wf() ==> out[i].wf()) by {
        if cand[i].wf() {
            lemma_swept_wf(before(pre, i), cand[i], now);
        }
    }
}

/// Running the sweep on every candidate a second time at the same time
/// changes nothing.
pub proof fn lemma_sweep_all_idempotent(pre: Seq<EntryView>, cand: Seq<EntryView>, now: u64)
    ensures
        swept_all(pre, swept_all(pre, cand, now), now) == swept_all(pre, cand, now),
{
    let once = swept_all(pre, cand, now);
    assert forall|i: int| 0 <= i < cand.len() implies swept(before(pre, i), once[i], now)
        == once[i] by {
        lemma_sweep_idempotent(before(pre, i), cand[i], now);
    }
    assert(swept_all(pre, once, now) =~= once);
}

} // verus!
