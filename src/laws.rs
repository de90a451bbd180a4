//! Properties of reconciliation that relate several calls.
use vstd::prelude::*;
use crate::config::{EntryView, cfg_has, cfg_names_unique};
use crate::store::{
    HistoryRecord, HistoryRow, Row, StoreView, cascade, cfg_names, history_newest_first, ids_exhausted, ids_ok,
    lemma_cascade, lemma_upsert_all, reconciled, table_has_id, upsert_all, upsert_one,
};

verus! {

/// The last configured entry named `n`.
spec fn last_cfg(cs: Seq<EntryView>, n: Seq<char>) -> EntryView
    decreases cs.len(),
{
    if cs.len() == 0 {
        arbitrary()
    } else if cs.last().name == n {
        cs.last()
    } else {
        last_cfg(cs.drop_last(), n)
    }
}

proof fn lemma_upsert_all_effect(t: Map<Seq<char>, Row>, next: int, cs: Seq<EntryView>)
    requires
        t.dom().finite(),
        ids_ok(t, next),
        1 <= next,
    ensures
        ({
            let (u, m) = upsert_all(t, next, cs);
            &&& forall|n: Seq<char>| #[trigger] u.contains_key(n) <==> t.contains_key(n) || cfg_has(cs, n)
            &&& forall|n: Seq<char>| t.contains_key(n) && !cfg_has(cs, n) ==> #[trigger] u[n] == t[n]
            &&& forall|n: Seq<char>| cfg_has(cs, n) ==> (#[trigger] u[n]).public_url == last_cfg(cs, n).public_url
                && u[n].polling_url == last_cfg(cs, n).polling_url
            &&& forall|n: Seq<char>| t.contains_key(n) ==> (#[trigger] u[n]).id == t[n].id
            &&& forall|n: Seq<char>| u.contains_key(n) && !t.contains_key(n) ==> next <= (#[trigger] u[n]).id
            &&& (forall|n: Seq<char>| cfg_has(cs, n) ==> t.contains_key(n)) ==> m == next
        }),
    decreases cs.len(),
{
    if cs.len() > 0 {
        let cs0 = cs.drop_last();
        let c = cs.last();
        lemma_upsert_all_effect(t, next, cs0);
        lemma_upsert_all(t, next, cs0);
        let (p, pn) = upsert_all(t, next, cs0);
        let (u, m) = upsert_one(p, pn, c);
        assert forall|n: Seq<char>| cfg_has(cs, n) <==> cfg_has(cs0, n) || n == c.name by {
            if cfg_has(cs, n) && n != c.name {
                let j = choose|j: int| 0 <= j < cs.len() && (#[trigger] cs[j]).name == n;
                assert(cs0[j] == cs[j]);
            }
            if cfg_has(cs0, n) {
                let j = choose|j: int| 0 <= j < cs0.len() && (#[trigger] cs0[j]).name == n;
                assert(cs[j] == cs0[j]);
            }
            if n == c.name {
                assert(cs[cs.len() - 1] == c);
            }
        }
        if forall|n: Seq<char>| cfg_has(cs, n) ==> t.contains_key(n) {
            assert(p.contains_key(c.name));
        }
    }
}

proof fn lemma_cascade_all(hs: Seq<HistoryRecord>, t: Map<Seq<char>, Row>)
    requires
        forall|i: int| 0 <= i < hs.len() ==> table_has_id(t, (#[trigger] hs[i]).entry_id as int),
    ensures
        cascade(hs, t) == hs,
    decreases hs.len(),
{
    if hs.len() > 0 {
        lemma_cascade_all(hs.drop_last(), t);
        assert(table_has_id(t, hs[hs.len() - 1].entry_id as int));
        assert(hs.drop_last().push(hs.last()) =~= hs);
    }
}

proof fn lemma_cascade_keeps(hs: Seq<HistoryRecord>, t: Map<Seq<char>, Row>, id: int)
    requires
        table_has_id(t, id),
    ensures
        history_newest_first(cascade(hs, t), id) == history_newest_first(hs, id),
    decreases hs.len(),
{
    if hs.len() > 0 {
        lemma_cascade_keeps(hs.drop_last(), t, id);
        let r = cascade(hs.drop_last(), t);
        if table_has_id(t, hs.last().entry_id as int) {
            assert(r.push(hs.last()).drop_last() =~= r);
        }
    }
}

/// Reconciling keeps the invariants of the persisted state.
pub proof fn lemma_reconciled_wf(s: StoreView, cs: Seq<EntryView>)
    requires
        s.wf(),
        !ids_exhausted(s, cs),
    ensures
        reconciled(s, cs).wf(),
{
    lemma_upsert_all(s.table, s.next_id, cs);
    let u = upsert_all(s.table, s.next_id, cs).0;
    let t = u.restrict(cfg_names(cs));
    assert(t.dom() =~= u.dom().intersect(cfg_names(cs)));
    lemma_cascade(s.history, t);
}

/// After a reconciliation, upserting the same configuration again changes
/// nothing and takes no new id.
proof fn lemma_upsert_again(s: StoreView, cs: Seq<EntryView>)
    requires
        s.wf(),
        !ids_exhausted(s, cs),
    ensures
        upsert_all(reconciled(s, cs).table, reconciled(s, cs).next_id, cs)
            == (reconciled(s, cs).table, reconciled(s, cs).next_id),
{
    let s1 = reconciled(s, cs);
    lemma_reconciled_wf(s, cs);
    lemma_upsert_all_effect(s.table, s.next_id, cs);
    lemma_upsert_all_effect(s1.table, s1.next_id, cs);
    let (u, m) = upsert_all(s1.table, s1.next_id, cs);
    assert forall|n: Seq<char>| #[trigger] u.contains_key(n) <==> s1.table.contains_key(n) by {}
    assert forall|n: Seq<char>| u.contains_key(n) implies #[trigger] u[n] == s1.table[n] by {}
    assert(u =~= s1.table);
}

/// Reconciling the same configuration twice: the second call succeeds and
/// leaves the state, ids included, as the first one left it.
pub proof fn lemma_reconcile_idempotent(s: StoreView, cs: Seq<EntryView>)
    requires
        s.wf(),
        !ids_exhausted(s, cs),
    ensures
        !ids_exhausted(reconciled(s, cs), cs),
        reconciled(reconciled(s, cs), cs) == reconciled(s, cs),
{
    let s1 = reconciled(s, cs);
    lemma_reconciled_wf(s, cs);
    lemma_upsert_again(s, cs);
    assert(s1.table.restrict(cfg_names(cs)) =~= s1.table);
    lemma_cascade_all(s1.history, s1.table);
}

proof fn lemma_last_cfg_unique(cs: Seq<EntryView>, j: int)
    requires
        cfg_names_unique(cs),
        0 <= j < cs.len(),
    ensures
        last_cfg(cs, cs[j].name) == cs[j],
    decreases cs.len(),
{
    if j < cs.len() - 1 {
        assert(cs[j].name != cs[cs.len() - 1].name);
        let hd = cs.drop_last();
        assert(cfg_names_unique(hd)) by {
            assert forall|a: int, b: int| 0 <= a < b < hd.len() implies (#[trigger] hd[a]).name != (#[trigger] hd[b]).name by {
                assert(hd[a] == cs[a] && hd[b] == cs[b]);
            }
        }
        lemma_last_cfg_unique(hd, j);
    }
}

proof fn lemma_last_cfg_insert(cs: Seq<EntryView>, p: int, c: EntryView, n: Seq<char>)
    requires
        0 <= p <= cs.len(),
    ensures
        n != c.name ==> last_cfg(cs.insert(p, c), n) == last_cfg(cs, n),
        n == c.name && !cfg_has(cs, n) ==> last_cfg(cs.insert(p, c), n) == c,
    decreases cs.len(),
{
    let cs2 = cs.insert(p, c);
    cs.insert_ensures(p, c);
    if p == cs.len() {
        assert(cs2.drop_last() =~= cs);
        assert(cs2.last() == c);
    } else {
        let hd = cs.drop_last();
        assert(cs2.drop_last() =~= hd.insert(p, c));
        assert(cs2.last() == cs.last());
        if n == c.name && !cfg_has(cs, n) {
            assert(cs[cs.len() - 1].name != n);
            assert(!cfg_has(hd, n)) by {
                if cfg_has(hd, n) {
                    let j = choose|j: int| 0 <= j < hd.len() && (#[trigger] hd[j]).name == n;
                    assert(cs[j] == hd[j]);
                }
            }
        }
        lemma_last_cfg_insert(hd, p, c, n);
    }
}

/// An entry whose name stays configured keeps its id and its history; where
/// the configured names are unique, it takes the URLs configured for it.
pub proof fn lemma_upsert_keeps_identity(s: StoreView, cs: Seq<EntryView>, n: Seq<char>)
    requires
        s.wf(),
        !ids_exhausted(s, cs),
        s.table.contains_key(n),
        cfg_has(cs, n),
    ensures
        reconciled(s, cs).table.contains_key(n),
        reconciled(s, cs).table[n].id == s.table[n].id,
        cfg_names_unique(cs) ==> forall|j: int| 0 <= j < cs.len() && (#[trigger] cs[j]).name == n
            ==> reconciled(s, cs).table[n].public_url == cs[j].public_url
                && reconciled(s, cs).table[n].polling_url == cs[j].polling_url,
        history_newest_first(reconciled(s, cs).history, s.table[n].id)
            == history_newest_first(s.history, s.table[n].id),
{
    let s1 = reconciled(s, cs);
    lemma_upsert_all_effect(s.table, s.next_id, cs);
    assert(s1.table[n].id == s.table[n].id);
    lemma_cascade_keeps(s.history, s1.table, s.table[n].id);
    if cfg_names_unique(cs) {
        assert forall|j: int| 0 <= j < cs.len() && (#[trigger] cs[j]).name == n
        implies s1.table[n].public_url == cs[j].public_url && s1.table[n].polling_url == cs[j].polling_url by {
            lemma_last_cfg_unique(cs, j);
        }
    }
}

/// An entry whose name is no longer configured is gone, and so is every
/// history record of its id: no entry has that id any more.
pub proof fn lemma_removal_cascades(s: StoreView, cs: Seq<EntryView>, n: Seq<char>)
    requires
        s.wf(),
        !ids_exhausted(s, cs),
        s.table.contains_key(n),
        !cfg_has(cs, n),
    ensures
        !reconciled(s, cs).table.contains_key(n),
        !table_has_id(reconciled(s, cs).table, s.table[n].id),
        forall|i: int| 0 <= i < reconciled(s, cs).history.len()
            ==> (#[trigger] reconciled(s, cs).history[i]).entry_id != s.table[n].id,
        history_newest_first(reconciled(s, cs).history, s.table[n].id) == Seq::<HistoryRow>::empty(),
{
    let s1 = reconciled(s, cs);
    let id = s.table[n].id;
    lemma_upsert_all_effect(s.table, s.next_id, cs);
    if table_has_id(s1.table, id) {
        let m = choose|m: Seq<char>| s1.table.contains_key(m) && (#[trigger] s1.table[m]).id == id;
        if s.table.contains_key(m) {
            assert(s.table[m].id == s.table[n].id);
        }
    }
    lemma_cascade(s.history, s1.table);
    lemma_newest_first_none(s1.history, id);
}

proof fn lemma_newest_first_none(hs: Seq<HistoryRecord>, id: int)
    requires
        forall|i: int| 0 <= i < hs.len() ==> (#[trigger] hs[i]).entry_id != id,
    ensures
        history_newest_first(hs, id) == Seq::<HistoryRow>::empty(),
    decreases hs.len(),
{
    if hs.len() > 0 {
        assert(hs[hs.len() - 1].entry_id != id);
        lemma_newest_first_none(hs.drop_last(), id);
    }
}

/// Adding one new name, at any position, to a configuration that the state
/// already reflects adds exactly one entry, with a fresh id and the URLs
/// configured for it, and leaves every other entry and the history as they
/// were.
pub proof fn lemma_insert_additive(s: StoreView, cs: Seq<EntryView>, c: EntryView, p: int)
    requires
        s.wf(),
        !ids_exhausted(s, cs),
        !cfg_has(cs, c.name),
        0 <= p <= cs.len(),
        !ids_exhausted(reconciled(s, cs), cs.insert(p, c)),
    ensures
        ({
            let s1 = reconciled(s, cs);
            let s2 = reconciled(s1, cs.insert(p, c));
            &&& s2.table.dom() == s1.table.dom().insert(c.name)
            &&& s2.table.dom().len() == s1.table.dom().len() + 1
            &&& forall|n: Seq<char>| #[trigger] s1.table.contains_key(n) ==> s2.table[n] == s1.table[n]
            &&& !table_has_id(s1.table, s2.table[c.name].id)
            &&& s2.table[c.name].public_url == c.public_url
            &&& s2.table[c.name].polling_url == c.polling_url
            &&& s2.history == s1.history
        }),
{
    let s1 = reconciled(s, cs);
    let cs2 = cs.insert(p, c);
    cs.insert_ensures(p, c);
    lemma_reconciled_wf(s, cs);
    lemma_upsert_all_effect(s.table, s.next_id, cs);
    lemma_upsert_all_effect(s1.table, s1.next_id, cs2);
    let s2 = reconciled(s1, cs2);
    let u2 = upsert_all(s1.table, s1.next_id, cs2).0;
    assert forall|n: Seq<char>| cfg_has(cs2, n) <==> cfg_has(cs, n) || n == c.name by {
        if cfg_has(cs2, n) && n != c.name {
            let j = choose|j: int| 0 <= j < cs2.len() && (#[trigger] cs2[j]).name == n;
            if j < p {
                assert(cs[j] == cs2[j]);
            } else {
                assert(j != p);
                assert(cs[j - 1] == cs2[j]);
            }
        }
        if cfg_has(cs, n) {
            let j = choose|j: int| 0 <= j < cs.len() && (#[trigger] cs[j]).name == n;
            if j < p {
                assert(cs2[j] == cs[j]);
            } else {
                assert(cs2[j + 1] == cs[j]);
            }
        }
        if n == c.name {
            assert(cs2[p] == c);
        }
    }
    assert(!s1.table.contains_key(c.name));
    assert(s2.table.dom() =~= s1.table.dom().insert(c.name));
    assert forall|n: Seq<char>| #[trigger] s1.table.contains_key(n) implies s2.table[n] == s1.table[n] by {
        lemma_last_cfg_insert(cs, p, c, n);
        assert(n != c.name);
    }
    lemma_last_cfg_insert(cs, p, c, c.name);
    assert(u2[c.name].id >= s1.next_id);
    if table_has_id(s1.table, s2.table[c.name].id) {
        let m = choose|m: Seq<char>| s1.table.contains_key(m) && (#[trigger] s1.table[m]).id == s2.table[c.name].id;
        assert(s1.table[m].id < s1.next_id);
    }
    assert forall|i: int| 0 <= i < s1.history.len()
    implies table_has_id(s2.table, (#[trigger] s1.history[i]).entry_id as int) by {
        let id = s1.history[i].entry_id as int;
        let m = choose|m: Seq<char>| s1.table.contains_key(m) && (#[trigger] s1.table[m]).id == id;
        assert(s2.table.contains_key(m) && s2.table[m].id == id);
    }
    lemma_cascade_all(s1.history, s2.table);
}

} // verus!
