//! What the write operations of a server with the standard pipeline leave
//! in the store: each entry that an operation writes is left with its
//! sessions put right, in normal form.
use vstd::prelude::*;
use crate::be::{
    lemma_put_all, lemma_put_all_ids, lemma_selected, lower_names, numbered, put_all, selected,
};
use crate::entry::{AvaView, EntryView};
use crate::error::OperationError;
use crate::event::ModifyEvent;
use crate::modify::lemma_applied_all_wf;
use crate::plugins::Pipeline;
use crate::plugins::session::{
    before, expired, grace_passed, has_live_session, has_session, is_live_session,
    lemma_swept_contains, lemma_swept_sessions, session_lost, standard, swept, swept_all,
};
use crate::schema::{
    lemma_first_fault, lemma_normalised_from, lemma_normalised_renames, lemma_normalised_wf,
    normalised, normalised_all, renamed,
};
use crate::server::WriteView;
use crate::text::lower;
use crate::value::ValueView;

verus! {

/// Whether the entry holds value `v` under some attribute.
pub open spec fn holds_value(e: EntryView, v: ValueView) -> bool {
    exists|i: int| 0 <= i < e.avas.len() && (#[trigger] e.avas[i]).value == v
}

/// Whether the sessions of the entry are in order at time `now`: none has
/// reached its expiry, and every derived session has a live parent on the
/// entry or is within its grace window.
pub open spec fn consistent(e: EntryView, now: u64) -> bool {
    forall|i: int|
        0 <= i < e.avas.len() ==> match (#[trigger] e.avas[i]).value {
            ValueView::Session(_, s) => !expired(s.expiry, now),
            ValueView::Oauth2Session(_, o) => !expired(o.expiry, now) && (has_live_session(
                e,
                o.parent,
                now,
            ) || !grace_passed(o.issued_at, now)),
            _ => true,
        }
}

/// The entry that a write operation stores for candidate `cand`, where
/// `pre` is the entry as it was before the operation: the candidate with
/// its sessions put right, in normal form.
pub open spec fn settled(pre: EntryView, cand: EntryView, now: u64) -> EntryView {
    normalised(swept(pre, cand, now))
}

/// Whatever the plugins of a server are, a modify that succeeds changes no
/// entry but those that its filter selects, stores none and removes none:
/// every entry keeps its place and its identifier, and an entry that the
/// filter does not select stays as it is.
pub proof fn lemma_modify_frame<P: Pipeline>(hooks: P, v: WriteView, me: &ModifyEvent, w: WriteView)
    requires
        v.store.wf(),
        v.modified(hooks, me) == Ok::<WriteView, OperationError>(w),
    ensures
        w.schema == v.schema,
        w.now == v.now,
        w.store.next_id == v.store.next_id,
        w.store.entries.len() == v.store.entries.len(),
        forall|j: int|
            0 <= j < v.store.entries.len() ==> (#[trigger] w.store.entries[j]).id
                == v.store.entries[j].id,
        forall|j: int|
            0 <= j < v.store.entries.len() && !me.filter.matches(v.store.entries[j])
                ==> #[trigger] w.store.entries[j] == v.store.entries[j],
{
    let s = v.store.entries;
    let f = &me.filter;
    let pre = selected(s, f);
    let cand = Seq::new(pre.len(), |i: int| me.modlist.applied(pre[i]));
    let c = hooks.modified(s, pre, cand, me.internal, v.now)->Some_0;
    let norm = normalised_all(c);
    hooks.lemma_shape(s, pre, cand, me.internal, v.now);
    lemma_selected(s, f);
    assert(w.store.entries == put_all(s, norm));
    assert forall|i: int| 0 <= i < norm.len() implies (#[trigger] norm[i]).id == pre[i].id by {
        lemma_applied_id(me.modlist.mods@, pre[i]);
        lemma_normalised_wf(c[i]);
        assert(c[i].id == cand[i].id);
    }
    lemma_put_all_ids(s, norm);
    let out = put_all(s, norm);
    assert forall|j: int| 0 <= j < s.len() && !f.matches(s[j]) implies #[trigger] out[j]
        == s[j] by {
        assert forall|i: int| 0 <= i < norm.len() implies (#[trigger] norm[i]).id != s[j].id by {
            if norm[i].id == s[j].id {
                assert(s.contains(pre[i]));
                let k = choose|k: int| 0 <= k < s.len() && s[k] == pre[i];
                if k < j {
                    assert(s[k].id != s[j].id);
                }
                if j < k {
                    assert(s[j].id != s[k].id);
                }
                assert(f.matches(pre[i]));
            }
        }
    }
}

/// What putting candidates in place of stored entries does to the store,
/// where it succeeds. The entries `pre` are those of the store that `pred`
/// holds of, and the candidate of each is `change` of it, under the same
/// identifier. Every entry keeps its place; an entry that `pred` holds of
/// is replaced by what its candidate settles to, which the schema admits;
/// every other entry stays as it is. The store stays well formed.
pub proof fn lemma_replace_effect(
    v: WriteView,
    pred: spec_fn(EntryView) -> bool,
    change: spec_fn(EntryView) -> EntryView,
    internal: bool,
    w: WriteView,
)
    requires
        v.store.wf(),
        forall|x: EntryView| (#[trigger] change(x)).id == x.id,
        v.replaced(
            standard(),
            v.store.entries.filter(pred),
            Seq::new(
                v.store.entries.filter(pred).len(),
                |i: int| change(v.store.entries.filter(pred)[i]),
            ),
            internal,
        ) == Ok::<WriteView, OperationError>(w),
    ensures
        w.schema == v.schema,
        w.now == v.now,
        w.store.next_id == v.store.next_id,
        w.store.entries.len() == v.store.entries.len(),
        forall|j: int|
            0 <= j < v.store.entries.len() ==> #[trigger] w.store.entries[j] == if pred(
                v.store.entries[j],
            ) {
                settled(v.store.entries[j], change(v.store.entries[j]), v.now)
            } else {
                v.store.entries[j]
            },
        forall|j: int|
            0 <= j < v.store.entries.len() && pred(#[trigger] v.store.entries[j])
                ==> v.schema.valid_entry(swept(v.store.entries[j], change(v.store.entries[j]), v.now)),
        exists|j: int| 0 <= j < v.store.entries.len() && pred(#[trigger] v.store.entries[j]),
        w.store.wf(),
{
    broadcast use vstd::seq_lib::group_filter_ensures;

    let s = v.store.entries;
    let pre = s.filter(pred);
    let cand = Seq::new(pre.len(), |i: int| change(pre[i]));
    let c = swept_all(pre, cand, v.now);
    let norm = normalised_all(c);
    assert(standard().modified(s, pre, cand, internal, v.now) == Some(c));
    assert(w.store.entries == put_all(s, norm));
    assert(norm.len() > 0);
    assert forall|i: int| 0 <= i < pre.len() implies pred(#[trigger] pre[i]) && s.contains(
        pre[i],
    ) by {
        assert(pre.contains(pre[i]));
        s.lemma_filter_contains_rev(pred, pre[i]);
    }
    assert(pred(pre[0]) && s.contains(pre[0]));
    lemma_first_fault(v.schema, c);
    assert forall|i: int| 0 <= i < pre.len() implies (#[trigger] norm[i]).id == pre[i].id
        && norm[i] == settled(pre[i], change(pre[i]), v.now) && v.schema.valid_entry(
        swept(pre[i], change(pre[i]), v.now),
    ) by {
        assert(before(pre, i) == pre[i]);
        assert(c[i] == swept(pre[i], cand[i], v.now));
        lemma_normalised_wf(c[i]);
        assert(v.schema.valid_entry(c[i]));
    }
    assert forall|a: int, b: int|
        0 <= a < norm.len() && 0 <= b < norm.len() && (#[trigger] norm[a]).id == (
        #[trigger] norm[b]).id implies norm[a] == norm[b] by {
        assert(s.contains(pre[a]));
        assert(s.contains(pre[b]));
        let ka = choose|k: int| 0 <= k < s.len() && s[k] == pre[a];
        let kb = choose|k: int| 0 <= k < s.len() && s[k] == pre[b];
        assert(s[ka].id == s[kb].id);
        if ka < kb {
            assert(s[ka].id != s[kb].id);
        }
        if kb < ka {
            assert(s[kb].id != s[ka].id);
        }
    }
    lemma_put_all(s, norm);
    let out = put_all(s, norm);
    assert forall|j: int| 0 <= j < s.len() implies #[trigger] out[j] == if pred(s[j]) {
        settled(s[j], change(s[j]), v.now)
    } else {
        s[j]
    } by {
        if pred(s[j]) {
            assert(pre.contains(s[j]));
            let i = choose|i: int| 0 <= i < pre.len() && pre[i] == s[j];
            assert(norm[i].id == s[j].id);
        } else {
            assert forall|i: int| 0 <= i < norm.len() implies (#[trigger] norm[i]).id
                != s[j].id by {
                if norm[i].id == s[j].id {
                    assert(s.contains(pre[i]));
                    let k = choose|k: int| 0 <= k < s.len() && s[k] == pre[i];
                    if k < j {
                        assert(s[k].id != s[j].id);
                    }
                    if j < k {
                        assert(s[j].id != s[k].id);
                    }
                    assert(pred(pre[i]));
                }
            }
        }
    }
    assert forall|j: int| 0 <= j < s.len() && pred(#[trigger] s[j]) implies v.schema.valid_entry(
        swept(s[j], change(s[j]), v.now),
    ) by {
        assert(pre.contains(s[j]));
        let i = choose|i: int| 0 <= i < pre.len() && pre[i] == s[j];
        assert(norm[i].id == pre[i].id);
    }
    assert(w.store.wf()) by {
        assert forall|j: int| 0 <= j < out.len() implies (#[trigger] out[j]).wf() && lower_names(
            out[j],
        ) && out[j].id is Some && out[j].id->Some_0 < w.store.next_id by {
            assert(out[j].id == s[j].id);
            assert(s[j].wf());
            if pred(s[j]) {
                lemma_normalised_wf(swept(s[j], change(s[j]), v.now));
            }
        }
        assert forall|i: int, j: int| 0 <= i < j < out.len() implies (#[trigger] out[i]).id != (
        #[trigger] out[j]).id by {
            assert(out[i].id == s[i].id && out[j].id == s[j].id);
        }
    }
    let k = choose|k: int| 0 <= k < s.len() && s[k] == pre[0];
    assert(pred(s[k]));
}

/// What a modify that succeeds does to the store: every entry keeps its
/// place; an entry that the filter selects is replaced by what its changed
/// form settles to, which the schema admits; every other entry stays as it
/// is. The store stays well formed.
pub proof fn lemma_modify_effect(v: WriteView, me: &ModifyEvent, w: WriteView)
    requires
        v.store.wf(),
        v.modified(standard(), me) == Ok::<WriteView, OperationError>(w),
    ensures
        w.schema == v.schema,
        w.now == v.now,
        w.store.next_id == v.store.next_id,
        w.store.entries.len() == v.store.entries.len(),
        forall|j: int|
            0 <= j < v.store.entries.len() ==> #[trigger] w.store.entries[j] == if me.filter.matches(
                v.store.entries[j],
            ) {
                settled(v.store.entries[j], me.modlist.applied(v.store.entries[j]), v.now)
            } else {
                v.store.entries[j]
            },
        forall|j: int|
            0 <= j < v.store.entries.len() && me.filter.matches(#[trigger] v.store.entries[j])
                ==> v.schema.valid_entry(
                swept(v.store.entries[j], me.modlist.applied(v.store.entries[j]), v.now),
            ),
        w.store.wf(),
{
    let pred = |e: EntryView| me.filter.matches(e);
    let change = |x: EntryView| me.modlist.applied(x);
    let pre = selected(v.store.entries, &me.filter);
    assert forall|x: EntryView| (#[trigger] change(x)).id == x.id by {
        lemma_applied_id(me.modlist.mods@, x);
    }
    assert(Seq::new(pre.len(), |i: int| me.modlist.applied(pre[i])) =~= Seq::new(
        pre.len(),
        |i: int| change(pre[i]),
    ));
    lemma_replace_effect(v, pred, change, me.internal, w);
}

/// A list of changes keeps the identifier of the entry.
pub proof fn lemma_applied_id(mods: Seq<crate::modify::Modify>, e: EntryView)
    ensures
        crate::modify::applied_all(mods, e).id == e.id,
    decreases mods.len(),
{
    if mods.len() > 0 {
        lemma_applied_id(mods.drop_last(), e);
    }
}

/// A value of what an entry settles to is a value that the sweep has kept.
pub proof fn lemma_settled_from(pre: EntryView, cand: EntryView, now: u64, v: ValueView)
    requires
        holds_value(settled(pre, cand, now), v),
    ensures
        exists|a: AvaView| #[trigger]
            cand.avas.contains(a) && a.value == v && crate::plugins::session::stays(
                pre,
                cand,
                now,
                a,
            ),
{
    let sw = swept(pre, cand, now);
    let st = settled(pre, cand, now);
    let i = choose|i: int| 0 <= i < st.avas.len() && (#[trigger] st.avas[i]).value == v;
    lemma_normalised_from(sw, i);
    let k = choose|k: int|
        0 <= k < sw.avas.len() && st.avas[i] == (AvaView {
            name: lower((#[trigger] sw.avas[k]).name),
            value: sw.avas[k].value,
        });
    let a = sw.avas[k];
    assert(sw.avas.contains(a));
    lemma_swept_contains(pre, cand, now, a);
}

/// After a write the entry holds no session and no derived session whose
/// expiry has been reached.
pub proof fn lemma_settled_not_expired(pre: EntryView, cand: EntryView, now: u64, v: ValueView)
    requires
        v matches ValueView::Session(_, s) ==> expired(s.expiry, now),
        v matches ValueView::Oauth2Session(_, o) ==> expired(o.expiry, now),
        v is Session || v is Oauth2Session,
    ensures
        !holds_value(settled(pre, cand, now), v),
{
    if holds_value(settled(pre, cand, now), v) {
        lemma_settled_from(pre, cand, now, v);
    }
}

/// A derived session whose parent ends with the operation is gone after
/// it: the entry held the parent before the operation, or the candidate
/// holds it, and no such session is live.
pub proof fn lemma_settled_cascade(pre: EntryView, cand: EntryView, now: u64, v: ValueView)
    requires
        v is Oauth2Session,
        session_lost(pre, cand, v->Oauth2Session_1.parent, now),
    ensures
        !holds_value(settled(pre, cand, now), v),
{
    if holds_value(settled(pre, cand, now), v) {
        lemma_settled_from(pre, cand, now, v);
    }
}

/// A derived session without a live parent is gone after the operation
/// once its grace window is over.
pub proof fn lemma_settled_purge(pre: EntryView, cand: EntryView, now: u64, v: ValueView)
    requires
        v is Oauth2Session,
        !has_live_session(cand, v->Oauth2Session_1.parent, now),
        grace_passed(v->Oauth2Session_1.issued_at, now),
    ensures
        !holds_value(settled(pre, cand, now), v),
{
    if holds_value(settled(pre, cand, now), v) {
        lemma_settled_from(pre, cand, now, v);
    }
}

/// Where the candidate loses no value to its normal form, it settles to
/// the values that the sweep keeps, in order, under lower-case names.
pub proof fn lemma_settled_renames(pre: EntryView, cand: EntryView, now: u64)
    requires
        normalised(swept(pre, cand, now)).avas.len() == swept(pre, cand, now).avas.len(),
    ensures
        settled(pre, cand, now).avas == renamed(swept(pre, cand, now).avas),
        settled(pre, cand, now).id == cand.id,
{
    lemma_normalised_renames(swept(pre, cand, now));
    lemma_normalised_wf(swept(pre, cand, now));
}

/// A derived session whose parent the entry has never held survives the
/// operation unchanged while its grace window is open, unless its own
/// expiry has been reached.
pub proof fn lemma_settled_keeps(pre: EntryView, cand: EntryView, now: u64, a: AvaView)
    requires
        normalised(swept(pre, cand, now)).avas.len() == swept(pre, cand, now).avas.len(),
        cand.avas.contains(a),
        a.value is Oauth2Session,
        !has_session(cand, a.value->Oauth2Session_1.parent),
        !has_session(pre, a.value->Oauth2Session_1.parent),
        !expired(a.value->Oauth2Session_1.expiry, now),
        !grace_passed(a.value->Oauth2Session_1.issued_at, now),
    ensures
        settled(pre, cand, now).avas.contains(AvaView { name: lower(a.name), value: a.value }),
{
    let sw = swept(pre, cand, now);
    lemma_swept_contains(pre, cand, now, a);
    lemma_settled_renames(pre, cand, now);
    let k = choose|k: int| 0 <= k < sw.avas.len() && sw.avas[k] == a;
    assert(renamed(sw.avas)[k] == (AvaView { name: lower(a.name), value: a.value }));
}

/// After a write that the schema admits the sessions of the entry are in
/// order.
pub proof fn lemma_settled_consistent(pre: EntryView, cand: EntryView, now: u64)
    requires
        normalised(swept(pre, cand, now)).avas.len() == swept(pre, cand, now).avas.len(),
    ensures
        consistent(settled(pre, cand, now), now),
{
    let sw = swept(pre, cand, now);
    let st = settled(pre, cand, now);
    lemma_settled_renames(pre, cand, now);
    assert forall|i: int| 0 <= i < st.avas.len() implies match (#[trigger] st.avas[i]).value {
        ValueView::Session(_, s) => !expired(s.expiry, now),
        ValueView::Oauth2Session(_, o) => !expired(o.expiry, now) && (has_live_session(
            st,
            o.parent,
            now,
        ) || !grace_passed(o.issued_at, now)),
        _ => true,
    } by {
        let a = sw.avas[i];
        assert(st.avas[i].value == a.value);
        assert(sw.avas.contains(a));
        lemma_swept_contains(pre, cand, now, a);
        match a.value {
            ValueView::Oauth2Session(_, o) => {
                lemma_swept_sessions(pre, cand, now, o.parent);
                if has_live_session(sw, o.parent, now) {
                    let k = choose|k: int|
                        0 <= k < sw.avas.len() && is_live_session(
                            #[trigger] sw.avas[k],
                            o.parent,
                            now,
                        );
                    assert(is_live_session(st.avas[k], o.parent, now));
                }
            },
            _ => {},
        }
    }
}

/// After a modify that succeeds the sessions of every entry that the
/// filter selects are in order.
pub proof fn lemma_modify_consistent(v: WriteView, me: &ModifyEvent, w: WriteView, j: int)
    requires
        v.store.wf(),
        v.modified(standard(), me) == Ok::<WriteView, OperationError>(w),
        0 <= j < v.store.entries.len(),
        me.filter.matches(v.store.entries[j]),
    ensures
        j < w.store.entries.len(),
        w.store.entries[j].id == v.store.entries[j].id,
        w.store.entries[j] == settled(
            v.store.entries[j],
            me.modlist.applied(v.store.entries[j]),
            v.now,
        ),
        consistent(w.store.entries[j], v.now),
{
    lemma_modify_effect(v, me, w);
    let x = v.store.entries[j];
    assert(w.store.entries[j] == settled(x, me.modlist.applied(x), v.now));
    assert(v.schema.valid_entry(swept(x, me.modlist.applied(x), v.now)));
    lemma_settled_consistent(x, me.modlist.applied(x), v.now);
    lemma_settled_renames(x, me.modlist.applied(x), v.now);
    lemma_applied_all_wf(me.modlist.mods@, x);
}

/// After a modify that succeeds, an entry that the filter selects holds
/// no session and no derived session whose expiry has been reached, no
/// derived session whose parent has ended with the operation, and no
/// derived session without a live parent whose grace window is over.
pub proof fn lemma_modify_removes(
    v: WriteView,
    me: &ModifyEvent,
    w: WriteView,
    j: int,
    val: ValueView,
)
    requires
        v.store.wf(),
        v.modified(standard(), me) == Ok::<WriteView, OperationError>(w),
        0 <= j < v.store.entries.len(),
        me.filter.matches(v.store.entries[j]),
        ({
            let x = v.store.entries[j];
            let cand = me.modlist.applied(x);
            ||| val matches ValueView::Session(_, s) && expired(s.expiry, v.now)
            ||| val matches ValueView::Oauth2Session(_, o) && expired(o.expiry, v.now)
            ||| val matches ValueView::Oauth2Session(_, o) && session_lost(x, cand, o.parent, v.now)
            ||| val matches ValueView::Oauth2Session(_, o) && !has_live_session(
                cand,
                o.parent,
                v.now,
            ) && grace_passed(o.issued_at, v.now)
        }),
    ensures
        j < w.store.entries.len(),
        !holds_value(w.store.entries[j], val),
{
    lemma_modify_consistent(v, me, w, j);
    let x = v.store.entries[j];
    let cand = me.modlist.applied(x);
    if holds_value(settled(x, cand, v.now), val) {
        lemma_settled_from(x, cand, v.now, val);
    }
}

/// After a modify that succeeds, an entry that the filter selects still
/// holds, unchanged, each derived session of its changed form whose parent
/// the entry has not held, neither before the operation nor in its changed
/// form, while the grace window of the derived session is open and its own
/// expiry has not been reached.
pub proof fn lemma_modify_keeps(v: WriteView, me: &ModifyEvent, w: WriteView, j: int, a: AvaView)
    requires
        v.store.wf(),
        v.modified(standard(), me) == Ok::<WriteView, OperationError>(w),
        0 <= j < v.store.entries.len(),
        me.filter.matches(v.store.entries[j]),
        me.modlist.applied(v.store.entries[j]).avas.contains(a),
        a.value is Oauth2Session,
        !has_session(me.modlist.applied(v.store.entries[j]), a.value->Oauth2Session_1.parent),
        !has_session(v.store.entries[j], a.value->Oauth2Session_1.parent),
        !expired(a.value->Oauth2Session_1.expiry, v.now),
        !grace_passed(a.value->Oauth2Session_1.issued_at, v.now),
    ensures
        j < w.store.entries.len(),
        w.store.entries[j].avas.contains(AvaView { name: lower(a.name), value: a.value }),
{
    lemma_modify_effect(v, me, w);
    let x = v.store.entries[j];
    let cand = me.modlist.applied(x);
    assert(w.store.entries[j] == settled(x, cand, v.now));
    assert(v.schema.valid_entry(swept(x, cand, v.now)));
    lemma_settled_keeps(x, cand, v.now, a);
}

/// What a create that succeeds does to the store: the entries that were
/// stored stay, and behind them stands what each candidate settles to,
/// under a new identifier and with its sessions in order. The store stays
/// well formed.
pub proof fn lemma_create_effect(v: WriteView, cand: Seq<EntryView>, internal: bool, w: WriteView)
    requires
        v.store.wf(),
        v.created(standard(), cand, internal) == Ok::<WriteView, OperationError>(w),
    ensures
        w.schema == v.schema,
        w.now == v.now,
        w.store.entries == v.store.entries + numbered(
            Seq::new(
                cand.len(),
                |i: int| settled(EntryView { id: None, avas: Seq::empty() }, cand[i], v.now),
            ),
            v.store.next_id,
        ),
        forall|j: int|
            v.store.entries.len() <= j < w.store.entries.len() ==> consistent(
                #[trigger] w.store.entries[j],
                v.now,
            ),
        forall|i: int|
            0 <= i < cand.len() ==> v.schema.valid_entry(
                swept(EntryView { id: None, avas: Seq::empty() }, #[trigger] cand[i], v.now),
            ),
        w.store.wf(),
{
    let none = EntryView { id: None, avas: Seq::empty() };
    let c = swept_all(Seq::empty(), cand, v.now);
    let norm = normalised_all(c);
    let fresh = Seq::new(cand.len(), |i: int| settled(none, cand[i], v.now));
    assert(standard().created(v.store.entries, cand, internal, v.now) == Some(c));
    assert(norm =~= fresh) by {
        assert forall|i: int| 0 <= i < cand.len() implies norm[i] == fresh[i] by {
            assert(before(Seq::<EntryView>::empty(), i) == none);
        }
    }
    lemma_first_fault(v.schema, c);
    assert forall|i: int| 0 <= i < cand.len() implies v.schema.valid_entry(
        swept(none, #[trigger] cand[i], v.now),
    ) by {
        assert(before(Seq::<EntryView>::empty(), i) == none);
        assert(v.schema.valid_entry(c[i]));
    }
    let out = w.store.entries;
    let n = v.store.entries.len();
    assert forall|j: int| n <= j < out.len() implies consistent(#[trigger] out[j], v.now) && out[j].wf()
        && lower_names(out[j]) && out[j].id == Some((v.store.next_id + (j - n)) as u64) by {
        let i = j - n;
        assert(out[j] == fresh[i].with_id(Some((v.store.next_id + i) as u64)));
        assert(v.schema.valid_entry(c[i]));
        assert(c[i] == swept(none, cand[i], v.now));
        lemma_settled_consistent(none, cand[i], v.now);
        lemma_normalised_wf(c[i]);
        let st = fresh[i];
        let renum = out[j];
        assert(renum.avas == st.avas);
        assert forall|k: int| 0 <= k < renum.avas.len() implies match (
        #[trigger] renum.avas[k]).value {
            ValueView::Session(_, s) => !expired(s.expiry, v.now),
            ValueView::Oauth2Session(_, o) => !expired(o.expiry, v.now) && (has_live_session(
                renum,
                o.parent,
                v.now,
            ) || !grace_passed(o.issued_at, v.now)),
            _ => true,
        } by {
            let a = st.avas[k];
            match a.value {
                ValueView::Oauth2Session(_, o) => {
                    if has_live_session(st, o.parent, v.now) {
                        let q = choose|q: int|
                            0 <= q < st.avas.len() && is_live_session(
                                #[trigger] st.avas[q],
                                o.parent,
                                v.now,
                            );
                        assert(is_live_session(renum.avas[q], o.parent, v.now));
                    }
                },
                _ => {},
            }
        }
    }
    assert(w.store.wf()) by {
        assert forall|j: int| 0 <= j < out.len() implies (#[trigger] out[j]).wf() && lower_names(
            out[j],
        ) && out[j].id is Some && out[j].id->Some_0 < w.store.next_id by {
            if j < n {
                assert(out[j] == v.store.entries[j]);
            }
        }
        assert forall|i: int, j: int| 0 <= i < j < out.len() implies (#[trigger] out[i]).id != (
        #[trigger] out[j]).id by {
            if j < n {
                assert(out[i] == v.store.entries[i] && out[j] == v.store.entries[j]);
            } else if i < n {
                assert(out[i] == v.store.entries[i]);
            }
        }
    }
}

} // verus!
