//! Bringing a store up: the entries that every server holds are made sure
//! of by `initialise`, and making sure of them again changes nothing.
use vstd::prelude::*;
use crate::be::{lemma_put_all, lower_names, numbered, put_all};
use crate::consistency::{
    consistent, lemma_create_effect, lemma_replace_effect, lemma_settled_consistent,
    lemma_settled_renames, settled,
};
use crate::constants::{anonymous, anonymous_avas, system_info, system_info_avas, text};
use crate::entry::{
    added_all, lemma_added_all_has, lemma_added_all_held, lemma_added_all_rebuilds,
    lemma_added_all_wf, AvaView, EntryView,
};
use crate::error::OperationError;
use crate::filter::covers;
use crate::plugins::session::{
    before, has_session, is_live_session, is_session, lemma_filter_all, lemma_swept_contains,
    standard, stays, swept, swept_all,
};
use crate::plugins::Pipeline;
use crate::schema::{
    lemma_first_fault, lemma_normalised_fixpoint, lemma_normalised_wf, normalised,
    normalised_all, SchemaView,
};
use crate::server::{ident_names, identifiable, identified, merged, reshaped, ids_of, WriteView};
use crate::text::{is_lower, lemma_lower, lower};
use crate::value::{PartialValueView, ValueView};

verus! {

/// Whether the entry is in normal form and holds no session: no value is
/// repeated, the attribute names are in lower case, and every value is a
/// text or a uuid.
pub open spec fn plain(e: EntryView) -> bool {
    &&& e.wf()
    &&& lower_names(e)
    &&& forall|i: int|
        0 <= i < e.avas.len() ==> (#[trigger] e.avas[i]).value is Utf8 || e.avas[i].value is Uuid
}

/// An entry in normal form without sessions settles to itself.
pub proof fn lemma_plain_settles(pre: EntryView, e: EntryView, now: u64)
    requires
        plain(e),
    ensures
        swept(pre, e, now) == e,
        normalised(e) == e,
        settled(pre, e, now) == e,
{
    lemma_filter_all(e.avas, |a: AvaView| stays(pre, e, now, a));
    lemma_normalised_fixpoint(e);
}

/// An entry whose sessions are in order is left as it is by a sweep that
/// takes the entry itself for what it was before.
pub proof fn lemma_consistent_stable(x: EntryView, now: u64)
    requires
        consistent(x, now),
    ensures
        swept(x, x, now) == x,
{
    assert forall|i: int| 0 <= i < x.avas.len() implies stays(x, x, now, #[trigger] x.avas[i]) by {
        match x.avas[i].value {
            ValueView::Oauth2Session(_, o) => {
                if has_session(x, o.parent) {
                    let k = choose|k: int|
                        0 <= k < x.avas.len() && is_session(#[trigger] x.avas[k], o.parent);
                    assert(is_live_session(x.avas[k], o.parent, now));
                }
            },
            _ => {},
        }
    }
    lemma_filter_all(x.avas, |a: AvaView| stays(x, x, now, a));
}

/// Whether the schema admits an entry does not depend on its identifier.
pub proof fn lemma_valid_ignores_id(s: SchemaView, a: EntryView, b: EntryView)
    requires
        a.avas == b.avas,
    ensures
        s.entry_fault(a) == s.entry_fault(b),
{
    lemma_normalised_same(a, b);
    let na = normalised(a);
    let nb = normalised(b);
    assert(na.avas == nb.avas);
    assert(na.has_attr(crate::schema::class_attr()) == nb.has_attr(crate::schema::class_attr()));
    assert(s.classes_ok(na) == s.classes_ok(nb));
    assert forall|name: Seq<char>| s.allows(na, name) == s.allows(nb, name) by {}
    assert(s.attributes_ok(na) == s.attributes_ok(nb));
    assert(s.syntax_ok(na) == s.syntax_ok(nb));
    assert forall|name: Seq<char>| na.has_attr(name) == nb.has_attr(name) by {}
    assert forall|i: int| 0 <= i < s.classes.len() implies s.class_met(na, #[trigger] s.classes[i])
        == s.class_met(nb, s.classes[i]) by {}
    assert(s.musts_ok(na) == s.musts_ok(nb));
}

/// Two entries that hold the same values have normal forms that hold the
/// same values.
pub proof fn lemma_normalised_same(a: EntryView, b: EntryView)
    requires
        a.avas == b.avas,
    ensures
        normalised(a).avas == normalised(b).avas,
    decreases a.avas.len(),
{
    if a.avas.len() > 0 {
        let ra = EntryView { id: a.id, avas: a.avas.drop_last() };
        let rb = EntryView { id: b.id, avas: b.avas.drop_last() };
        lemma_normalised_same(ra, rb);
        let fa = normalised(ra);
        let fb = normalised(rb);
        let n = lower(a.avas.last().name);
        let pv = a.avas.last().value.identity();
        assert(fa.has(n, pv) == fb.has(n, pv));
    }
}


/// Putting stored entries in their own place changes nothing: where each
/// entry that `pred` holds of is its own candidate, is left as it is by
/// the sweep and is admitted by the schema, the operation succeeds and the
/// store stays as it is.
pub proof fn lemma_replace_same(
    v: WriteView,
    pred: spec_fn(EntryView) -> bool,
    change: spec_fn(EntryView) -> EntryView,
    internal: bool,
)
    requires
        v.store.wf(),
        exists|j: int| 0 <= j < v.store.entries.len() && pred(#[trigger] v.store.entries[j]),
        forall|j: int|
            0 <= j < v.store.entries.len() && pred(#[trigger] v.store.entries[j]) ==> {
                &&& change(v.store.entries[j]) == v.store.entries[j]
                &&& swept(v.store.entries[j], v.store.entries[j], v.now) == v.store.entries[j]
                &&& v.schema.valid_entry(v.store.entries[j])
            },
    ensures
        v.replaced(
            standard(),
            v.store.entries.filter(pred),
            Seq::new(
                v.store.entries.filter(pred).len(),
                |i: int| change(v.store.entries.filter(pred)[i]),
            ),
            internal,
        ) == Ok::<WriteView, OperationError>(
            WriteView {
                store: v.store,
                schema: v.schema,
                touched: v.touched + ids_of(v.store.entries.filter(pred)),
                now: v.now,
            },
        ),
{
    broadcast use vstd::seq_lib::group_filter_ensures;

    let s = v.store.entries;
    let pre = s.filter(pred);
    let cand = Seq::new(pre.len(), |i: int| change(pre[i]));
    let c = swept_all(pre, cand, v.now);
    let norm = normalised_all(c);
    let j0 = choose|j: int| 0 <= j < s.len() && pred(#[trigger] s[j]);
    assert(pre.contains(s[j0]));
    assert(pre.len() > 0);
    assert forall|i: int| 0 <= i < pre.len() implies exists|k: int|
        0 <= k < s.len() && s[k] == #[trigger] pre[i] && pred(s[k]) by {
        assert(pred(pre[i]));
        assert(pre.contains(pre[i]));
        s.lemma_filter_contains_rev(pred, pre[i]);
        let k = choose|k: int| 0 <= k < s.len() && s[k] == pre[i];
        assert(pred(s[k]));
    }
    assert forall|i: int| 0 <= i < pre.len() implies #[trigger] c[i] == pre[i] && norm[i]
        == pre[i] && v.schema.valid_entry(c[i]) by {
        let k = choose|k: int| 0 <= k < s.len() && s[k] == pre[i] && pred(s[k]);
        assert(cand[i] == pre[i]);
        assert(before(pre, i) == pre[i]);
        assert(s[k].wf() && lower_names(s[k]));
        lemma_normalised_fixpoint(pre[i]);
    }
    assert(c =~= pre);
    assert(norm =~= pre);
    assert(standard().modified(s, pre, cand, internal, v.now) == Some(c));
    lemma_first_fault(v.schema, c);
    assert forall|a: int, b: int|
        0 <= a < pre.len() && 0 <= b < pre.len() && (#[trigger] pre[a]).id == (#[trigger] pre[b]).id
        implies pre[a] == pre[b] by {
        let ka = choose|k: int| 0 <= k < s.len() && s[k] == pre[a] && pred(s[k]);
        let kb = choose|k: int| 0 <= k < s.len() && s[k] == pre[b] && pred(s[k]);
        if ka < kb {
            assert(s[ka].id != s[kb].id);
        }
        if kb < ka {
            assert(s[kb].id != s[ka].id);
        }
    }
    lemma_put_all(s, pre);
    let out = put_all(s, pre);
    assert forall|j: int| 0 <= j < s.len() implies #[trigger] out[j] == s[j] by {
        if exists|i: int| 0 <= i < pre.len() && (#[trigger] pre[i]).id == s[j].id {
            let i = choose|i: int| 0 <= i < pre.len() && (#[trigger] pre[i]).id == s[j].id;
            let k = choose|k: int| 0 <= k < s.len() && s[k] == pre[i] && pred(s[k]);
            if k < j {
                assert(s[k].id != s[j].id);
            }
            if j < k {
                assert(s[j].id != s[k].id);
            }
            assert(out[j] == pre[i]);
        }
    }
    assert(out =~= s);
    assert forall|i: int| 0 <= i < norm.len() implies crate::be::is_stored(s, #[trigger] norm[i]) by {
        let k = choose|k: int| 0 <= k < s.len() && s[k] == pre[i] && pred(s[k]);
        assert(s[k].id == norm[i].id);
    }
    assert(ids_of(c) =~= ids_of(pre));
}


/// Whether `x` holds every value of `e`, by name and identity.
pub open spec fn holds_all(x: EntryView, e: EntryView) -> bool {
    forall|k: int|
        0 <= k < e.avas.len() ==> x.has((#[trigger] e.avas[k]).name, e.avas[k].value.identity())
}

/// Whether `e` has been asserted in the entries `s`: an entry with the
/// names and uuids of `e` is stored, and each such entry holds the values
/// of `e` and no others and is admitted by the schema.
pub open spec fn asserted(s: Seq<EntryView>, schema: SchemaView, e: EntryView) -> bool {
    &&& exists|j: int| 0 <= j < s.len() && covers(#[trigger] s[j], e, ident_names())
    &&& forall|j: int|
        0 <= j < s.len() && covers(#[trigger] s[j], e, ident_names()) ==> s[j].avas == e.avas
            && schema.valid_entry(s[j])
}

/// Whether `e` has been migrated into the entries `s`: an entry with the
/// names and uuids of `e` is stored, and each such entry holds the values
/// of `e`, has its sessions in order at `now`, and is admitted by the
/// schema.
pub open spec fn migrated(s: Seq<EntryView>, schema: SchemaView, e: EntryView, now: u64) -> bool {
    &&& exists|j: int| 0 <= j < s.len() && covers(#[trigger] s[j], e, ident_names())
    &&& forall|j: int|
        0 <= j < s.len() && covers(#[trigger] s[j], e, ident_names()) ==> holds_all(s[j], e)
            && consistent(s[j], now) && schema.valid_entry(s[j])
}

/// The store as `v` has it, with more entries touched.
pub open spec fn same_store(v: WriteView, w: WriteView) -> bool {
    w.store == v.store && w.schema == v.schema && w.now == v.now
}

/// Asserting an entry that has been asserted changes nothing in the store.
pub proof fn lemma_assert_again(w: WriteView, e: EntryView)
    requires
        w.store.wf(),
        plain(e),
        identifiable(e),
        w.ident_known(),
        asserted(w.store.entries, w.schema, e),
    ensures
        w.asserted_or_created(standard(), e) is Ok,
        same_store(w, w.asserted_or_created(standard(), e)->Ok_0),
{
    broadcast use vstd::seq_lib::group_filter_ensures;

    let s = w.store.entries;
    let pred = |x: EntryView| covers(x, e, ident_names());
    let change = |x: EntryView| reshaped(x, e);
    let pre = identified(s, e);
    assert(pre == s.filter(pred));
    let j0 = choose|j: int| 0 <= j < s.len() && covers(#[trigger] s[j], e, ident_names());
    assert(pred(s[j0]));
    assert(pre.contains(s[j0]));
    assert forall|j: int| 0 <= j < s.len() && pred(#[trigger] s[j]) implies change(s[j]) == s[j]
        && swept(s[j], s[j], w.now) == s[j] && w.schema.valid_entry(s[j]) by {
        lemma_added_all_rebuilds(s[j].id, e.avas);
        assert(s[j] == (EntryView { id: s[j].id, avas: e.avas }));
        assert(s[j].wf() && lower_names(s[j]));
        assert(plain(s[j]));
        lemma_plain_settles(s[j], s[j], w.now);
    }
    lemma_replace_same(w, pred, change, true);
    assert(Seq::new(pre.len(), |i: int| reshaped(pre[i], e)) =~= Seq::new(
        pre.len(),
        |i: int| change(pre[i]),
    ));
}

/// Migrating an entry that has been migrated changes nothing in the store.
pub proof fn lemma_migrate_again(w: WriteView, e: EntryView)
    requires
        w.store.wf(),
        plain(e),
        identifiable(e),
        w.ident_known(),
        migrated(w.store.entries, w.schema, e, w.now),
    ensures
        w.migrated_or_created(standard(), e) is Ok,
        same_store(w, w.migrated_or_created(standard(), e)->Ok_0),
{
    broadcast use vstd::seq_lib::group_filter_ensures;

    let s = w.store.entries;
    let pred = |x: EntryView| covers(x, e, ident_names());
    let change = |x: EntryView| merged(x, e);
    let pre = identified(s, e);
    assert(pre == s.filter(pred));
    let j0 = choose|j: int| 0 <= j < s.len() && covers(#[trigger] s[j], e, ident_names());
    assert(pred(s[j0]));
    assert(pre.contains(s[j0]));
    assert forall|j: int| 0 <= j < s.len() && pred(#[trigger] s[j]) implies change(s[j]) == s[j]
        && swept(s[j], s[j], w.now) == s[j] && w.schema.valid_entry(s[j]) by {
        lemma_added_all_held(s[j], e.avas);
        lemma_consistent_stable(s[j], w.now);
    }
    lemma_replace_same(w, pred, change, true);
    assert(Seq::new(pre.len(), |i: int| merged(pre[i], e)) =~= Seq::new(
        pre.len(),
        |i: int| change(pre[i]),
    ));
}


/// An entry holds what it holds.
pub proof fn lemma_holds_own(x: EntryView, e: EntryView)
    requires
        x.avas == e.avas,
    ensures
        holds_all(x, e),
{
    assert forall|k: int| 0 <= k < e.avas.len() implies x.has(
        (#[trigger] e.avas[k]).name,
        e.avas[k].value.identity(),
    ) by {
        assert(x.avas[k].is_at(e.avas[k].name, e.avas[k].value.identity()));
    }
}

/// What asserting `e` leaves where it succeeds: `e` has been asserted; the
/// entries without the names and uuids of `e` stay as they are; and an
/// entry that is new holds the values of `e` and no others.
pub proof fn lemma_assert_step(v: WriteView, e: EntryView, w: WriteView)
    requires
        v.store.wf(),
        plain(e),
        v.asserted_or_created(standard(), e) == Ok::<WriteView, OperationError>(w),
    ensures
        w.store.wf(),
        w.schema == v.schema,
        w.now == v.now,
        identifiable(e),
        v.ident_known(),
        asserted(w.store.entries, w.schema, e),
        w.store.entries.len() >= v.store.entries.len(),
        forall|j: int|
            0 <= j < v.store.entries.len() && !covers(
                #[trigger] v.store.entries[j],
                e,
                ident_names(),
            ) ==> w.store.entries[j] == v.store.entries[j],
        forall|j: int|
            0 <= j < v.store.entries.len() && covers(
                #[trigger] v.store.entries[j],
                e,
                ident_names(),
            ) ==> w.store.entries[j].avas == e.avas,
        forall|j: int|
            v.store.entries.len() <= j < w.store.entries.len() ==> (
            #[trigger] w.store.entries[j]).avas == e.avas,
{
    broadcast use vstd::seq_lib::group_filter_ensures;

    let s = v.store.entries;
    let pred = |x: EntryView| covers(x, e, ident_names());
    let change = |x: EntryView| reshaped(x, e);
    let pre = identified(s, e);
    assert(pre == s.filter(pred));
    let out = w.store.entries;
    if pre.len() > 0 {
        assert(Seq::new(pre.len(), |i: int| reshaped(pre[i], e)) =~= Seq::new(
            pre.len(),
            |i: int| change(pre[i]),
        ));
        assert forall|x: EntryView| (#[trigger] change(x)).id == x.id by {
            lemma_added_all_wf(EntryView { id: x.id, avas: Seq::empty() }, e.avas);
        }
        lemma_replace_effect(v, pred, change, true, w);
        assert forall|j: int| 0 <= j < s.len() && pred(s[j]) implies (#[trigger] out[j]).avas
            == e.avas && w.schema.valid_entry(out[j]) && covers(out[j], e, ident_names()) by {
            lemma_added_all_rebuilds(s[j].id, e.avas);
            let y = EntryView { id: s[j].id, avas: e.avas };
            assert(change(s[j]) == y);
            assert(plain(y));
            lemma_plain_settles(s[j], y, v.now);
            assert(out[j] == y);
            lemma_holds_own(y, e);
        }
        let j0 = choose|j: int| 0 <= j < s.len() && pred(#[trigger] s[j]);
        assert(covers(out[j0], e, ident_names()));
        assert forall|j: int|
            0 <= j < out.len() && covers(#[trigger] out[j], e, ident_names()) implies out[j].avas
            == e.avas && w.schema.valid_entry(out[j]) by {
            if !pred(s[j]) {
                assert(out[j] == s[j]);
            }
        }
    } else {
        assert forall|j: int| 0 <= j < s.len() implies !covers(
            #[trigger] s[j],
            e,
            ident_names(),
        ) by {
            if pred(s[j]) {
                assert(pre.contains(s[j]));
            }
        }
        let none = EntryView { id: None, avas: Seq::empty() };
        lemma_create_effect(v, seq![e], true, w);
        lemma_plain_settles(none, e, v.now);
        let fresh = Seq::new(1, |i: int| settled(none, seq![e][i], v.now));
        assert(fresh[0] == e);
        let y = e.with_id(Some((v.store.next_id + 0) as u64));
        assert(numbered(fresh, v.store.next_id) =~= seq![y]);
        assert(out =~= s.push(y));
        assert(v.schema.valid_entry(swept(none, seq![e][0], v.now)));
        lemma_valid_ignores_id(v.schema, e, y);
        lemma_holds_own(y, e);
        assert(covers(out[s.len() as int], e, ident_names()));
        assert forall|j: int|
            0 <= j < out.len() && covers(#[trigger] out[j], e, ident_names()) implies out[j].avas
            == e.avas && w.schema.valid_entry(out[j]) by {
            if j < s.len() {
                assert(out[j] == s[j]);
            }
        }
    }
}


/// What an entry that is merged with `e` settles to, where the schema
/// admits it: it holds the values of `e`; its sessions are in order; the
/// schema admits it; and what it holds was held before or is held by `e`.
pub proof fn lemma_merge_settles(schema: SchemaView, x: EntryView, e: EntryView, now: u64)
    requires
        x.wf(),
        lower_names(x),
        plain(e),
        schema.valid_entry(swept(x, merged(x, e), now)),
    ensures
        holds_all(settled(x, merged(x, e), now), e),
        consistent(settled(x, merged(x, e), now), now),
        schema.valid_entry(settled(x, merged(x, e), now)),
        forall|name: Seq<char>, pv: PartialValueView| #[trigger]
            settled(x, merged(x, e), now).has(name, pv) ==> x.has(name, pv) || e.has(name, pv),
{
    let m = merged(x, e);
    let sw = swept(x, m, now);
    let st = settled(x, m, now);
    lemma_settled_renames(x, m, now);
    lemma_settled_consistent(x, m, now);
    lemma_added_all_has(x, e.avas);
    lemma_normalised_wf(sw);
    lemma_normalised_fixpoint(st);
    assert forall|i: int| 0 <= i < sw.avas.len() implies m.avas.contains(#[trigger] sw.avas[i])
        && is_lower(sw.avas[i].name) && st.avas[i] == sw.avas[i] by {
        assert(sw.avas.contains(sw.avas[i]));
        lemma_swept_contains(x, m, now, sw.avas[i]);
        let q = choose|q: int| 0 <= q < m.avas.len() && m.avas[q] == sw.avas[i];
        if x.avas.contains(m.avas[q]) {
            let r = choose|r: int| 0 <= r < x.avas.len() && x.avas[r] == m.avas[q];
            assert(is_lower(x.avas[r].name));
        } else {
            let r = choose|r: int| 0 <= r < e.avas.len() && e.avas[r] == m.avas[q];
            assert(is_lower(e.avas[r].name));
        }
        lemma_lower(sw.avas[i].name);
    }
    assert(st.avas =~= sw.avas);
    assert forall|k: int| 0 <= k < e.avas.len() implies st.has(
        (#[trigger] e.avas[k]).name,
        e.avas[k].value.identity(),
    ) by {
        let a = e.avas[k];
        assert(m.has(a.name, a.value.identity()));
        let q = choose|q: int|
            0 <= q < m.avas.len() && (#[trigger] m.avas[q]).is_at(a.name, a.value.identity());
        let b = m.avas[q];
        assert(b.value is Utf8 || b.value is Uuid);
        assert(stays(x, m, now, b));
        assert(m.avas.contains(b));
        lemma_swept_contains(x, m, now, b);
        let r = choose|r: int| 0 <= r < sw.avas.len() && sw.avas[r] == b;
        assert(st.avas[r].is_at(a.name, a.value.identity()));
    }
    assert forall|name: Seq<char>, pv: PartialValueView| #[trigger]
        st.has(name, pv) implies x.has(name, pv) || e.has(name, pv) by {
        let i = choose|i: int| 0 <= i < st.avas.len() && (#[trigger] st.avas[i]).is_at(name, pv);
        let b = sw.avas[i];
        assert(m.avas.contains(b));
        if x.avas.contains(b) {
            let r = choose|r: int| 0 <= r < x.avas.len() && x.avas[r] == b;
            assert(x.avas[r].is_at(name, pv));
        } else {
            let r = choose|r: int| 0 <= r < e.avas.len() && e.avas[r] == b;
            assert(e.avas[r].is_at(name, pv));
        }
    }
}

/// What migrating `e` leaves where it succeeds: `e` has been migrated; the
/// entries without the names and uuids of `e` stay as they are; what an
/// entry holds afterwards it held before or `e` holds; and an entry that
/// is new holds the values of `e` and no others.
pub proof fn lemma_migrate_step(v: WriteView, e: EntryView, w: WriteView)
    requires
        v.store.wf(),
        plain(e),
        v.migrated_or_created(standard(), e) == Ok::<WriteView, OperationError>(w),
    ensures
        w.store.wf(),
        w.schema == v.schema,
        w.now == v.now,
        identifiable(e),
        v.ident_known(),
        migrated(w.store.entries, w.schema, e, w.now),
        w.store.entries.len() >= v.store.entries.len(),
        forall|j: int|
            0 <= j < v.store.entries.len() && !covers(
                #[trigger] v.store.entries[j],
                e,
                ident_names(),
            ) ==> w.store.entries[j] == v.store.entries[j],
        forall|j: int, name: Seq<char>, pv: PartialValueView|
            0 <= j < v.store.entries.len() && (#[trigger] w.store.entries[j].has(name, pv))
                ==> v.store.entries[j].has(name, pv) || e.has(name, pv),
        forall|j: int|
            v.store.entries.len() <= j < w.store.entries.len() ==> (
            #[trigger] w.store.entries[j]).avas == e.avas,
{
    broadcast use vstd::seq_lib::group_filter_ensures;

    let s = v.store.entries;
    let pred = |x: EntryView| covers(x, e, ident_names());
    let change = |x: EntryView| merged(x, e);
    let pre = identified(s, e);
    assert(pre == s.filter(pred));
    let out = w.store.entries;
    if pre.len() > 0 {
        assert(Seq::new(pre.len(), |i: int| merged(pre[i], e)) =~= Seq::new(
            pre.len(),
            |i: int| change(pre[i]),
        ));
        assert forall|x: EntryView| (#[trigger] change(x)).id == x.id by {
            lemma_added_all_id(x, e.avas);
        }
        lemma_replace_effect(v, pred, change, true, w);
        assert forall|j: int| 0 <= j < s.len() && pred(s[j]) implies holds_all(
            #[trigger] out[j],
            e,
        ) && consistent(out[j], w.now) && w.schema.valid_entry(out[j]) && (forall|
            name: Seq<char>,
            pv: PartialValueView,
        | #[trigger]
            out[j].has(name, pv) ==> s[j].has(name, pv) || e.has(name, pv)) by {
            assert(out[j] == settled(s[j], change(s[j]), v.now));
            lemma_merge_settles(v.schema, s[j], e, v.now);
        }
        let j0 = choose|j: int| 0 <= j < s.len() && pred(#[trigger] s[j]);
        assert(holds_all(out[j0], e));
        assert(covers(out[j0], e, ident_names()));
        assert forall|j: int|
            0 <= j < out.len() && covers(#[trigger] out[j], e, ident_names()) implies holds_all(
            out[j],
            e,
        ) && consistent(out[j], w.now) && w.schema.valid_entry(out[j]) by {
            if !pred(s[j]) {
                assert(out[j] == s[j]);
            }
        }
        assert forall|j: int, name: Seq<char>, pv: PartialValueView|
            0 <= j < s.len() && (#[trigger] out[j].has(name, pv)) implies s[j].has(name, pv)
            || e.has(name, pv) by {
            if !pred(s[j]) {
                assert(out[j] == s[j]);
            }
        }
    } else {
        assert forall|j: int| 0 <= j < s.len() implies !covers(
            #[trigger] s[j],
            e,
            ident_names(),
        ) by {
            if pred(s[j]) {
                assert(pre.contains(s[j]));
            }
        }
        let none = EntryView { id: None, avas: Seq::empty() };
        lemma_create_effect(v, seq![e], true, w);
        lemma_plain_settles(none, e, v.now);
        let fresh = Seq::new(1, |i: int| settled(none, seq![e][i], v.now));
        assert(fresh[0] == e);
        let y = e.with_id(Some((v.store.next_id + 0) as u64));
        assert(numbered(fresh, v.store.next_id) =~= seq![y]);
        assert(out =~= s.push(y));
        assert(v.schema.valid_entry(swept(none, seq![e][0], v.now)));
        lemma_valid_ignores_id(v.schema, e, y);
        lemma_holds_own(y, e);
        assert(covers(out[s.len() as int], e, ident_names()));
        assert(consistent(out[s.len() as int], w.now));
        assert forall|j: int|
            0 <= j < out.len() && covers(#[trigger] out[j], e, ident_names()) implies holds_all(
            out[j],
            e,
        ) && consistent(out[j], w.now) && w.schema.valid_entry(out[j]) by {
            if j < s.len() {
                assert(out[j] == s[j]);
            }
        }
        assert forall|j: int, name: Seq<char>, pv: PartialValueView|
            0 <= j < s.len() && (#[trigger] out[j].has(name, pv)) implies s[j].has(name, pv)
            || e.has(name, pv) by {
            assert(out[j] == s[j]);
        }
    }
}

/// Adding values keeps the identifier.
pub proof fn lemma_added_all_id(e: EntryView, avas: Seq<AvaView>)
    ensures
        added_all(e, avas).id == e.id,
    decreases avas.len(),
{
    if avas.len() > 0 {
        lemma_added_all_id(e, avas.drop_last());
    }
}


/// The texts that the fixed entries are made of, letter by letter.
proof fn lemma_texts()
    ensures
        "class"@.len() == 5,
        "name"@.len() == 4,
        "uuid"@.len() == 4,
        "name"@[0] == 'n',
        "uuid"@[0] == 'u',
        "description"@.len() == 11,
        "version"@.len() == 7,
        "domain"@.len() == 6,
        "object"@.len() == 6,
        "system_info"@.len() == 11,
        "account"@.len() == 7,
        "anonymous"@.len() == 9,
        is_lower("class"@),
        is_lower("name"@),
        is_lower("uuid"@),
        is_lower("description"@),
        is_lower("version"@),
        is_lower("domain"@),
{
    reveal_strlit("class");
    reveal_strlit("name");
    reveal_strlit("uuid");
    reveal_strlit("description");
    reveal_strlit("version");
    reveal_strlit("domain");
    reveal_strlit("object");
    reveal_strlit("system_info");
    reveal_strlit("account");
    reveal_strlit("anonymous");
}

/// The fixed entries hold the values that they are made of, are in normal
/// form and hold no session; and neither holds the name of the other.
pub proof fn lemma_fixed_entries()
    ensures
        system_info().avas == system_info_avas(),
        anonymous().avas == anonymous_avas(),
        plain(system_info()),
        plain(anonymous()),
        !system_info().has("name"@, PartialValueView::Utf8("anonymous"@)),
        !anonymous().has("name"@, PartialValueView::Utf8("system_info"@)),
{
    lemma_texts();
    let sys = system_info_avas();
    let anon = anonymous_avas();
    assert(crate::entry::distinct_avas(sys)) by {
        assert forall|i: int, j: int| 0 <= i < j < sys.len() implies !(#[trigger] sys[i]).is_at(
            (#[trigger] sys[j]).name,
            sys[j].value.identity(),
        ) by {}
    }
    assert(crate::entry::distinct_avas(anon)) by {
        assert forall|i: int, j: int| 0 <= i < j < anon.len() implies !(#[trigger] anon[i]).is_at(
            (#[trigger] anon[j]).name,
            anon[j].value.identity(),
        ) by {}
    }
    lemma_added_all_rebuilds(None, sys);
    lemma_added_all_rebuilds(None, anon);
    assert forall|i: int| 0 <= i < sys.len() implies is_lower((#[trigger] sys[i]).name) && (
    sys[i].value is Utf8 || sys[i].value is Uuid) by {}
    assert forall|i: int| 0 <= i < anon.len() implies is_lower((#[trigger] anon[i]).name) && (
    anon[i].value is Utf8 || anon[i].value is Uuid) by {}
    assert forall|i: int| 0 <= i < sys.len() implies !(#[trigger] sys[i]).is_at(
        "name"@,
        PartialValueView::Utf8("anonymous"@),
    ) by {}
    assert forall|i: int| 0 <= i < anon.len() implies !(#[trigger] anon[i]).is_at(
        "name"@,
        PartialValueView::Utf8("system_info"@),
    ) by {}
}


/// After `initialise` has succeeded, the entry that describes the server
/// has been asserted and the account for anonymous access has been
/// migrated, in a store that is well formed.
pub proof fn lemma_initialise_effect(v: WriteView, w: WriteView)
    requires
        v.store.wf(),
        v.initialised(standard()) == Ok::<WriteView, OperationError>(w),
    ensures
        w.store.wf(),
        w.schema == v.schema,
        w.now == v.now,
        w.ident_known(),
        w.store.entries.len() >= v.store.entries.len(),
        asserted(w.store.entries, w.schema, system_info()),
        migrated(w.store.entries, w.schema, anonymous(), w.now),
{
    let sys = system_info();
    let anon = anonymous();
    let names = ident_names();
    lemma_fixed_entries();
    let v1 = v.asserted_or_created(standard(), sys)->Ok_0;
    lemma_assert_step(v, sys, v1);
    lemma_migrate_step(v1, anon, w);
    let s1 = v1.store.entries;
    let out = w.store.entries;
    assert forall|x: EntryView| x.avas == sys.avas implies !covers(x, anon, names) by {
        lemma_shapes_apart(x);
    }
    assert forall|x: EntryView| x.avas == anon.avas implies !covers(x, sys, names) by {
        lemma_shapes_apart(x);
    }
    // what the second step leaves with the names of the first had them before
    assert forall|j: int|
        0 <= j < out.len() && covers(#[trigger] out[j], sys, names) implies j < s1.len() && out[j]
        == s1[j] && covers(s1[j], sys, names) by {
        if j < s1.len() {
            if covers(s1[j], anon, names) {
                assert forall|k: int|
                    0 <= k < sys.avas.len() && names.contains(
                        (#[trigger] sys.avas[k]).name,
                    ) implies s1[j].has(sys.avas[k].name, sys.avas[k].value.identity()) by {
                    let a = sys.avas[k];
                    assert(out[j].has(a.name, a.value.identity()));
                    if !s1[j].has(a.name, a.value.identity()) {
                        assert(anon.has(a.name, a.value.identity()));
                        let q = choose|q: int|
                            0 <= q < anon.avas.len() && (#[trigger] anon.avas[q]).is_at(
                                a.name,
                                a.value.identity(),
                            );
                        assert(names.contains(anon.avas[q].name));
                        assert(s1[j].has(anon.avas[q].name, anon.avas[q].value.identity()));
                    }
                }
                assert(covers(s1[j], sys, names));
                assert(s1[j].avas == sys.avas);
                assert(false);
            }
            assert(out[j] == s1[j]);
        } else {
            assert(out[j].avas == anon.avas);
        }
    }
    let j1 = choose|j: int| 0 <= j < s1.len() && covers(#[trigger] s1[j], sys, names);
    assert(s1[j1].avas == sys.avas);
    assert(!covers(s1[j1], anon, names));
    assert(out[j1] == s1[j1]);
    assert(covers(out[j1], sys, names));
}

/// Idempotence: after `initialise` has succeeded, running it again at the
/// same time, in the same transaction, succeeds and changes nothing in the
/// store.
pub proof fn lemma_initialise_idempotent(v: WriteView, w: WriteView)
    requires
        v.store.wf(),
        v.initialised(standard()) == Ok::<WriteView, OperationError>(w),
    ensures
        w.initialised(standard()) is Ok,
        same_store(w, w.initialised(standard())->Ok_0),
{
    lemma_initialise_effect(v, w);
    lemma_initialise_settled(w);
}

/// Where the fixed entries have been asserted and migrated, and the
/// sessions of the account for anonymous access are in order at the time
/// of the transaction, `initialise` succeeds and changes nothing in the
/// store, whatever the transaction has touched: so also in a transaction
/// that begins on what another has committed, or that another has left
/// without a commit.
pub proof fn lemma_initialise_settled(w: WriteView)
    requires
        w.store.wf(),
        w.ident_known(),
        asserted(w.store.entries, w.schema, system_info()),
        migrated(w.store.entries, w.schema, anonymous(), w.now),
    ensures
        w.initialised(standard()) is Ok,
        same_store(w, w.initialised(standard())->Ok_0),
{
    let sys = system_info();
    let anon = anonymous();
    lemma_fixed_entries();
    lemma_shapes_apart(sys);
    lemma_assert_again(w, sys);
    let w1 = w.asserted_or_created(standard(), sys)->Ok_0;
    lemma_migrate_again(w1, anon);
}

/// An entry of the shape of one fixed entry has not the names and uuids
/// of the other.
pub proof fn lemma_shapes_apart(x: EntryView)
    ensures
        x.avas == system_info().avas ==> !covers(x, anonymous(), ident_names()),
        x.avas == anonymous().avas ==> !covers(x, system_info(), ident_names()),
        identifiable(system_info()),
        identifiable(anonymous()),
{
    let sys = system_info();
    let anon = anonymous();
    let names = ident_names();
    lemma_fixed_entries();
    lemma_texts();
    assert(names[0] == "name"@ && names.contains("name"@));
    assert(sys.avas[2] == text("name"@, "system_info"@));
    assert(anon.avas[2] == text("name"@, "anonymous"@));
    assert(sys.avas[3].name == "uuid"@ && anon.avas[3].name == "uuid"@);
    if x.avas == sys.avas && covers(x, anon, names) {
        assert(x.has(anon.avas[2].name, anon.avas[2].value.identity()));
        let i = choose|i: int|
            0 <= i < x.avas.len() && (#[trigger] x.avas[i]).is_at(
                "name"@,
                PartialValueView::Utf8("anonymous"@),
            );
        assert(sys.avas[i].is_at("name"@, PartialValueView::Utf8("anonymous"@)));
    }
    if x.avas == anon.avas && covers(x, sys, names) {
        assert(x.has(sys.avas[2].name, sys.avas[2].value.identity()));
        let i = choose|i: int|
            0 <= i < x.avas.len() && (#[trigger] x.avas[i]).is_at(
                "name"@,
                PartialValueView::Utf8("system_info"@),
            );
        assert(anon.avas[i].is_at("name"@, PartialValueView::Utf8("system_info"@)));
    }
}

/// Where no entry with the names and uuids of `e` is stored, asserting
/// `e` and migrating `e` store `e` as a new entry behind the others.
pub proof fn lemma_creates_one(v: WriteView, e: EntryView, w: WriteView)
    requires
        v.store.wf(),
        plain(e),
        identified(v.store.entries, e).len() == 0,
        v.asserted_or_created(standard(), e) == Ok::<WriteView, OperationError>(w)
            || v.migrated_or_created(standard(), e) == Ok::<WriteView, OperationError>(w),
    ensures
        v.store.next_id + 1 <= u64::MAX,
        w.store.entries == v.store.entries.push(e.with_id(Some(v.store.next_id))),
        w.store.next_id == v.store.next_id + 1,
        w.schema == v.schema,
        w.now == v.now,
        w.store.wf(),
{
    let none = EntryView { id: None, avas: Seq::empty() };
    lemma_create_effect(v, seq![e], true, w);
    lemma_plain_settles(none, e, v.now);
    let fresh = Seq::new(1, |i: int| settled(none, seq![e][i], v.now));
    assert(fresh[0] == e);
    assert(numbered(fresh, v.store.next_id) =~= seq![e.with_id(Some(v.store.next_id))]);
    assert(w.store.entries =~= v.store.entries.push(e.with_id(Some(v.store.next_id))));
}

/// What a filter keeps of a list with one more item.
proof fn lemma_identified_push(s: Seq<EntryView>, y: EntryView, e: EntryView)
    ensures
        identified(s.push(y), e) == if covers(y, e, ident_names()) {
            identified(s, e).push(y)
        } else {
            identified(s, e)
        },
{
    s.lemma_filter_push(y, |x: EntryView| covers(x, e, ident_names()));
}

/// On a store that holds neither of the fixed entries `initialise`, where
/// it succeeds, stores one copy of each behind the entries that were
/// there, and nothing else.
pub proof fn lemma_initialise_fresh(v: WriteView, w: WriteView)
    requires
        v.store.wf(),
        identified(v.store.entries, system_info()).len() == 0,
        identified(v.store.entries, anonymous()).len() == 0,
        v.initialised(standard()) == Ok::<WriteView, OperationError>(w),
    ensures
        v.store.next_id + 2 <= u64::MAX,
        w.store.entries == v.store.entries.push(
            system_info().with_id(Some(v.store.next_id)),
        ).push(anonymous().with_id(Some((v.store.next_id + 1) as u64))),
        identified(w.store.entries, system_info()) == seq![
            system_info().with_id(Some(v.store.next_id)),
        ],
        identified(w.store.entries, anonymous()) == seq![
            anonymous().with_id(Some((v.store.next_id + 1) as u64)),
        ],
{
    let sys = system_info();
    let anon = anonymous();
    let s = v.store.entries;
    lemma_fixed_entries();
    let v1 = v.asserted_or_created(standard(), sys)->Ok_0;
    lemma_creates_one(v, sys, v1);
    let y1 = sys.with_id(Some(v.store.next_id));
    lemma_shapes_apart(y1);
    lemma_holds_own(y1, sys);
    lemma_identified_push(s, y1, sys);
    lemma_identified_push(s, y1, anon);
    assert(identified(s, sys) =~= Seq::<EntryView>::empty());
    assert(identified(s, anon) =~= Seq::<EntryView>::empty());
    assert(identified(v1.store.entries, anon).len() == 0);
    lemma_creates_one(v1, anon, w);
    let y2 = anon.with_id(Some((v.store.next_id + 1) as u64));
    lemma_shapes_apart(y2);
    lemma_holds_own(y2, anon);
    lemma_identified_push(s.push(y1), y2, sys);
    lemma_identified_push(s.push(y1), y2, anon);
    assert(identified(w.store.entries, sys) =~= seq![y1]);
    assert(identified(w.store.entries, anon) =~= seq![y2]);
}

/// No duplicates: once the fixed entries stand in the store, a run of
/// `initialise` at any later time, where it succeeds, adds no entry and
/// leaves the fixed entries standing.
pub proof fn lemma_initialise_adds_nothing(w: WriteView, w2: WriteView)
    requires
        w.store.wf(),
        w.ident_known(),
        asserted(w.store.entries, w.schema, system_info()),
        exists|j: int|
            0 <= j < w.store.entries.len() && covers(
                #[trigger] w.store.entries[j],
                anonymous(),
                ident_names(),
            ),
        w.initialised(standard()) == Ok::<WriteView, OperationError>(w2),
    ensures
        w2.store.entries.len() == w.store.entries.len(),
        w2.store.next_id == w.store.next_id,
        asserted(w2.store.entries, w2.schema, system_info()),
        migrated(w2.store.entries, w2.schema, anonymous(), w2.now),
{
    broadcast use vstd::seq_lib::group_filter_ensures;

    let sys = system_info();
    let anon = anonymous();
    lemma_fixed_entries();
    lemma_shapes_apart(sys);
    lemma_assert_again(w, sys);
    let w1 = w.asserted_or_created(standard(), sys)->Ok_0;
    let s = w1.store.entries;
    let pred = |x: EntryView| covers(x, anon, ident_names());
    let change = |x: EntryView| merged(x, anon);
    let pre = identified(s, anon);
    let j0 = choose|j: int| 0 <= j < s.len() && covers(#[trigger] s[j], anon, ident_names());
    assert(pred(s[j0]));
    assert(pre.contains(s[j0]));
    assert(Seq::new(pre.len(), |i: int| merged(pre[i], anon)) =~= Seq::new(
        pre.len(),
        |i: int| change(pre[i]),
    ));
    assert forall|x: EntryView| (#[trigger] change(x)).id == x.id by {
        lemma_added_all_id(x, anon.avas);
    }
    lemma_replace_effect(w1, pred, change, true, w2);
    lemma_initialise_effect(w, w2);
}

} // verus!
