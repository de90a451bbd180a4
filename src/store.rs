//! The persisted state: the entry table and the history of observations.
use vstd::prelude::*;
use crate::config::{Entry, EntryView, cfg_has, cfg_view, opt_view};

verus! {

/// A row of the entry table. `id` is the surrogate key, `name` the unique key.
#[derive(Clone, Debug)]
pub struct StoredEntry {
    pub id: i64,
    pub name: String,
    pub public_url: String,
    pub polling_url: Option<String>,
}

/// What the entry table holds under one name.
pub struct Row {
    pub id: int,
    pub public_url: Seq<char>,
    pub polling_url: Option<Seq<char>>,
}

impl StoredEntry {
    pub open spec fn row(self) -> Row {
        Row { id: self.id as int, public_url: self.public_url@, polling_url: opt_view(self.polling_url) }
    }
}

/// One observation of an entry: the status code seen at a time.
#[derive(Clone, Copy, Debug, PartialEq, Eq, Structural)]
pub struct HistoryRecord {
    pub entry_id: i64,
    pub status_code: i64,
    pub observed_at: i64,
}

/// Whether some row of `es` carries the name `n`.
pub open spec fn has_name(es: Seq<StoredEntry>, n: Seq<char>) -> bool {
    exists|i: int| 0 <= i < es.len() && (#[trigger] es[i]).name@ == n
}

/// No two rows of `es` share a name.
pub open spec fn names_unique(es: Seq<StoredEntry>) -> bool {
    forall|i: int, j: int|
        0 <= i < es.len() && 0 <= j < es.len() && (#[trigger] es[i]).name@ == (#[trigger] es[j]).name@
            ==> i == j
}

/// The position of the row named `n`.
pub open spec fn index_of_name(es: Seq<StoredEntry>, n: Seq<char>) -> int {
    choose|i: int| 0 <= i < es.len() && (#[trigger] es[i]).name@ == n
}

/// The entry table seen as a map from name to row.
pub open spec fn table_of(es: Seq<StoredEntry>) -> Map<Seq<char>, Row> {
    Map::new(|n: Seq<char>| has_name(es, n), |n: Seq<char>| es[index_of_name(es, n)].row())
}

/// Whether a row of the table has this id.
pub open spec fn table_has_id(t: Map<Seq<char>, Row>, id: int) -> bool {
    exists|n: Seq<char>| t.contains_key(n) && (#[trigger] t[n]).id == id
}

/// Ids are positive, below `next`, and no two names share one.
pub open spec fn ids_ok(t: Map<Seq<char>, Row>, next: int) -> bool {
    &&& forall|n: Seq<char>| t.contains_key(n) ==> 1 <= (#[trigger] t[n]).id < next
    &&& forall|n1: Seq<char>, n2: Seq<char>|
        t.contains_key(n1) && t.contains_key(n2) && (#[trigger] t[n1]).id == (#[trigger] t[n2]).id
            ==> n1 == n2
}

/// The persisted state in mathematical form.
pub struct StoreView {
    pub table: Map<Seq<char>, Row>,
    pub history: Seq<HistoryRecord>,
    pub next_id: int,
}

impl StoreView {
    /// The invariants of the persisted state: unique names (by the map),
    /// unique ids, and every history record refers to an existing entry.
    pub open spec fn wf(self) -> bool {
        &&& self.table.dom().finite()
        &&& 1 <= self.next_id <= i64::MAX
        &&& ids_ok(self.table, self.next_id)
        &&& forall|i: int| 0 <= i < self.history.len()
            ==> table_has_id(self.table, (#[trigger] self.history[i]).entry_id as int)
        &&& stamps_ordered(self.history)
    }
}

/// Stamps never decrease along the history.
pub open spec fn stamps_ordered(hs: Seq<HistoryRecord>) -> bool {
    forall|i: int, j: int| 0 <= i <= j < hs.len() ==> (#[trigger] hs[i]).observed_at <= (#[trigger] hs[j]).observed_at
}

/// Whether a tick may be stamped `at`: no earlier than the last stamp.
pub open spec fn stamp_allowed(hs: Seq<HistoryRecord>, at: i64) -> bool {
    hs.len() == 0 || hs.last().observed_at <= at
}

/// Insert-or-update by name: an existing name keeps its id and takes the new
/// URLs; a new name gets the id `next`.
pub open spec fn upsert_one(t: Map<Seq<char>, Row>, next: int, c: EntryView) -> (Map<Seq<char>, Row>, int) {
    if t.contains_key(c.name) {
        (t.insert(c.name, Row { id: t[c.name].id, public_url: c.public_url, polling_url: c.polling_url }), next)
    } else {
        (t.insert(c.name, Row { id: next, public_url: c.public_url, polling_url: c.polling_url }), next + 1)
    }
}

/// The upserts of all configured entries, in order.
pub open spec fn upsert_all(t: Map<Seq<char>, Row>, next: int, cs: Seq<EntryView>) -> (Map<Seq<char>, Row>, int)
    decreases cs.len(),
{
    if cs.len() == 0 {
        (t, next)
    } else {
        let p = upsert_all(t, next, cs.drop_last());
        upsert_one(p.0, p.1, cs.last())
    }
}

/// The history records whose entry is still in the table, in order.
pub open spec fn cascade(hs: Seq<HistoryRecord>, t: Map<Seq<char>, Row>) -> Seq<HistoryRecord>
    decreases hs.len(),
{
    if hs.len() == 0 {
        hs
    } else {
        let r = cascade(hs.drop_last(), t);
        if table_has_id(t, hs.last().entry_id as int) {
            r.push(hs.last())
        } else {
            r
        }
    }
}

/// The names that a configuration declares.
pub open spec fn cfg_names(cs: Seq<EntryView>) -> Set<Seq<char>> {
    Set::new(|n: Seq<char>| cfg_has(cs, n))
}

/// The state after reconciling `s` with the configuration `cs`: every
/// configured entry upserted, every other entry removed with its history.
pub open spec fn reconciled(s: StoreView, cs: Seq<EntryView>) -> StoreView {
    let u = upsert_all(s.table, s.next_id, cs);
    let t = u.0.restrict(cfg_names(cs));
    StoreView { table: t, history: cascade(s.history, t), next_id: u.1 }
}

/// Whether reconciling `s` with `cs` runs out of ids.
pub open spec fn ids_exhausted(s: StoreView, cs: Seq<EntryView>) -> bool {
    upsert_all(s.table, s.next_id, cs).1 > i64::MAX
}

proof fn lemma_index_of(es: Seq<StoredEntry>, i: int)
    requires
        names_unique(es),
        0 <= i < es.len(),
    ensures
        index_of_name(es, es[i].name@) == i,
        has_name(es, es[i].name@),
{
    assert(has_name(es, es[i].name@));
}

proof fn lemma_table_push(es: Seq<StoredEntry>, x: StoredEntry)
    requires
        names_unique(es),
        !has_name(es, x.name@),
    ensures
        names_unique(es.push(x)),
        table_of(es.push(x)) == table_of(es).insert(x.name@, x.row()),
{
    let es2 = es.push(x);
    assert(names_unique(es2)) by {
        assert forall|i: int, j: int|
            0 <= i < es2.len() && 0 <= j < es2.len() && (#[trigger] es2[i]).name@ == (#[trigger] es2[j]).name@
        implies i == j by {
            if i < es.len() && j == es.len() {
                assert(es[i].name@ == x.name@);
            } else if j < es.len() && i == es.len() {
                assert(es[j].name@ == x.name@);
            }
        }
    }
    let t1 = table_of(es2);
    let t2 = table_of(es).insert(x.name@, x.row());
    assert forall|n: Seq<char>| #[trigger] t1.contains_key(n) <==> t2.contains_key(n) by {
        if has_name(es, n) {
            let i = choose|i: int| 0 <= i < es.len() && (#[trigger] es[i]).name@ == n;
            assert(es2[i] == es[i]);
        }
        if has_name(es2, n) && n != x.name@ {
            let i = choose|i: int| 0 <= i < es2.len() && (#[trigger] es2[i]).name@ == n;
            assert(es2[i] == es[i]);
        }
        if n == x.name@ {
            assert(es2[es.len() as int] == x);
        }
    }
    assert forall|n: Seq<char>| t1.contains_key(n) implies #[trigger] t1[n] == t2[n] by {
        if n == x.name@ {
            assert(es2[es.len() as int] == x);
            lemma_index_of(es2, es.len() as int);
        } else {
            let i = choose|i: int| 0 <= i < es2.len() && (#[trigger] es2[i]).name@ == n;
            assert(es2[i] == es[i]);
            lemma_index_of(es2, i);
            lemma_index_of(es, i);
        }
    }
    assert(t1 =~= t2);
}

proof fn lemma_table_update(es: Seq<StoredEntry>, k: int, x: StoredEntry)
    requires
        names_unique(es),
        0 <= k < es.len(),
        es[k].name@ == x.name@,
    ensures
        names_unique(es.update(k, x)),
        table_of(es.update(k, x)) == table_of(es).insert(x.name@, x.row()),
{
    let es2 = es.update(k, x);
    assert(names_unique(es2)) by {
        assert forall|i: int, j: int|
            0 <= i < es2.len() && 0 <= j < es2.len() && (#[trigger] es2[i]).name@ == (#[trigger] es2[j]).name@
        implies i == j by {
            assert(es[i].name@ == es2[i].name@);
            assert(es[j].name@ == es2[j].name@);
        }
    }
    let t1 = table_of(es2);
    let t2 = table_of(es).insert(x.name@, x.row());
    assert forall|n: Seq<char>| #[trigger] t1.contains_key(n) <==> t2.contains_key(n) by {
        if has_name(es, n) {
            let i = choose|i: int| 0 <= i < es.len() && (#[trigger] es[i]).name@ == n;
            assert(es2[i].name@ == n);
        }
        if has_name(es2, n) {
            let i = choose|i: int| 0 <= i < es2.len() && (#[trigger] es2[i]).name@ == n;
            assert(es[i].name@ == n);
        }
    }
    assert forall|n: Seq<char>| t1.contains_key(n) implies #[trigger] t1[n] == t2[n] by {
        let i = choose|i: int| 0 <= i < es2.len() && (#[trigger] es2[i]).name@ == n;
        lemma_index_of(es2, i);
        assert(es[i].name@ == n);
        lemma_index_of(es, i);
    }
    assert(t1 =~= t2);
}

/// Copies an optional URL.
fn copy_opt(o: &Option<String>) -> (r: Option<String>)
    ensures
        r == *o,
{
    match o {
        Some(s) => Some(s.clone()),
        None => None,
    }
}

/// Copies a row of the entry table.
fn copy_entry(e: &StoredEntry) -> (r: StoredEntry)
    ensures
        r == *e,
{
    StoredEntry {
        id: e.id,
        name: e.name.clone(),
        public_url: e.public_url.clone(),
        polling_url: copy_opt(&e.polling_url),
    }
}

/// The position of the row named `name`, if any.
fn find_name(es: &Vec<StoredEntry>, name: &String) -> (r: Option<usize>)
    ensures
        match r {
            Some(i) => i < es.len() && es@[i as int].name@ == name@,
            None => !has_name(es@, name@),
        },
{
    let mut i: usize = 0;
    while i < es.len()
        invariant
            i <= es.len(),
            forall|j: int| 0 <= j < i ==> (#[trigger] es@[j]).name@ != name@,
        decreases es.len() - i,
    {
        if es[i].name == *name {
            return Some(i);
        }
        i = i + 1;
    }
    None
}


proof fn lemma_upsert_one(t: Map<Seq<char>, Row>, next: int, c: EntryView)
    requires
        t.dom().finite(),
        ids_ok(t, next),
        1 <= next,
    ensures
        ({
            let p = upsert_one(t, next, c);
            &&& p.0.dom().finite()
            &&& ids_ok(p.0, p.1)
            &&& next <= p.1 <= next + 1
            &&& p.0.dom() == t.dom().insert(c.name)
            &&& forall|n: Seq<char>| t.contains_key(n) ==> (#[trigger] p.0[n]).id == t[n].id
        }),
{
    let p = upsert_one(t, next, c);
    assert(p.0.dom() =~= t.dom().insert(c.name));
    assert forall|n1: Seq<char>, n2: Seq<char>|
        p.0.contains_key(n1) && p.0.contains_key(n2) && (#[trigger] p.0[n1]).id == (#[trigger] p.0[n2]).id
    implies n1 == n2 by {
        if n1 != c.name && n2 != c.name {
            assert(t[n1].id == t[n2].id);
        }
    }
}

pub(crate) proof fn lemma_upsert_all(t: Map<Seq<char>, Row>, next: int, cs: Seq<EntryView>)
    requires
        t.dom().finite(),
        ids_ok(t, next),
        1 <= next,
    ensures
        ({
            let p = upsert_all(t, next, cs);
            &&& p.0.dom().finite()
            &&& ids_ok(p.0, p.1)
            &&& next <= p.1
        }),
    decreases cs.len(),
{
    if cs.len() > 0 {
        lemma_upsert_all(t, next, cs.drop_last());
        let p = upsert_all(t, next, cs.drop_last());
        lemma_upsert_one(p.0, p.1, cs.last());
    }
}

proof fn lemma_upsert_all_prefix(t: Map<Seq<char>, Row>, next: int, cs: Seq<EntryView>, k: int)
    requires
        0 <= k <= cs.len(),
    ensures
        upsert_all(t, next, cs.take(k)).1 <= upsert_all(t, next, cs).1,
    decreases cs.len(),
{
    if k == cs.len() {
        assert(cs.take(k) =~= cs);
    } else {
        assert(cs.drop_last().take(k) =~= cs.take(k));
        lemma_upsert_all_prefix(t, next, cs.drop_last(), k);
    }
}

pub(crate) proof fn lemma_cascade(hs: Seq<HistoryRecord>, t: Map<Seq<char>, Row>)
    ensures
        forall|i: int| 0 <= i < cascade(hs, t).len()
            ==> table_has_id(t, (#[trigger] cascade(hs, t)[i]).entry_id as int),
        forall|k: int| 0 <= k < cascade(hs, t).len()
            ==> exists|i: int| 0 <= i < hs.len() && #[trigger] cascade(hs, t)[k] == hs[i],
        stamps_ordered(hs) ==> stamps_ordered(cascade(hs, t)),
    decreases hs.len(),
{
    if hs.len() > 0 {
        lemma_cascade(hs.drop_last(), t);
        let r = cascade(hs.drop_last(), t);
        let c = cascade(hs, t);
        let hd = hs.drop_last();
        assert forall|i: int| 0 <= i < c.len()
        implies table_has_id(t, (#[trigger] c[i]).entry_id as int) by {
            if i < r.len() {
                assert(c[i] == r[i]);
            }
        }
        assert forall|k: int| 0 <= k < c.len() implies exists|i: int| 0 <= i < hs.len() && #[trigger] c[k] == hs[i] by {
            if k < r.len() {
                assert(c[k] == r[k]);
                let i = choose|i: int| 0 <= i < hd.len() && r[k] == hd[i];
                assert(hs[i] == hd[i]);
            } else {
                assert(c[k] == hs[hs.len() - 1]);
            }
        }
        if stamps_ordered(hs) {
            assert(stamps_ordered(hd)) by {
                assert forall|i: int, j: int| 0 <= i <= j < hd.len()
                implies (#[trigger] hd[i]).observed_at <= (#[trigger] hd[j]).observed_at by {
                    assert(hd[i] == hs[i] && hd[j] == hs[j]);
                }
            }
            assert forall|i: int, j: int| 0 <= i <= j < c.len()
            implies (#[trigger] c[i]).observed_at <= (#[trigger] c[j]).observed_at by {
                if j < r.len() {
                    assert(c[i] == r[i] && c[j] == r[j]);
                } else {
                    assert(c[j] == hs[hs.len() - 1]);
                    if i < r.len() {
                        assert(c[i] == r[i]);
                        let a = choose|a: int| 0 <= a < hd.len() && r[i] == hd[a];
                        assert(hd[a] == hs[a]);
                    }
                }
            }
        }
    }
}

/// Whether a configured entry carries this name.
fn is_configured(entries: &Vec<Entry>, name: &String) -> (r: bool)
    ensures
        r == cfg_has(cfg_view(entries@), name@),
{
    let ghost cs = cfg_view(entries@);
    let mut j: usize = 0;
    while j < entries.len()
        invariant
            j <= entries.len(),
            cs == cfg_view(entries@),
            forall|k: int| 0 <= k < j ==> (#[trigger] cs[k]).name != name@,
        decreases entries.len() - j,
    {
        if entries[j].name == *name {
            assert(cs[j as int].name == name@);
            return true;
        }
        j = j + 1;
    }
    false
}

/// The position of the row with this id, if any.
fn find_id(es: &Vec<StoredEntry>, id: i64) -> (r: Option<usize>)
    requires
        names_unique(es@),
    ensures
        match r {
            Some(k) => k < es.len() && es@[k as int].id == id,
            None => !table_has_id(table_of(es@), id as int),
        },
        r is Some <==> table_has_id(table_of(es@), id as int),
{
    let mut j: usize = 0;
    while j < es.len()
        invariant
            j <= es.len(),
            names_unique(es@),
            forall|k: int| 0 <= k < j ==> (#[trigger] es@[k]).id != id,
        decreases es.len() - j,
    {
        if es[j].id == id {
            proof {
                lemma_index_of(es@, j as int);
                assert(table_of(es@)[es@[j as int].name@].id == id);
            }
            return Some(j);
        }
        j = j + 1;
    }
    proof {
        if table_has_id(table_of(es@), id as int) {
            let n = choose|n: Seq<char>| table_of(es@).contains_key(n) && (#[trigger] table_of(es@)[n]).id == id;
            let k = index_of_name(es@, n);
            assert(es@[k].id == id);
        }
    }
    None
}

/// Why a write to the store was refused. The store is left unchanged.
#[derive(Debug, PartialEq, Eq, Structural)]
pub enum StoreError {
    /// No id is left to give a new entry.
    IdsExhausted,
    /// A history record names an entry that does not exist.
    MissingEntry(i64),
}

/// The entry table and the history, kept in memory.
pub struct Store {
    entries: Vec<StoredEntry>,
    history: Vec<HistoryRecord>,
    next_id: i64,
}

impl View for Store {
    type V = StoreView;

    closed spec fn view(&self) -> StoreView {
        StoreView { table: table_of(self.entries@), history: self.history@, next_id: self.next_id as int }
    }
}

impl Store {
    /// The store is well formed: names unique, and the view's invariants.
    pub closed spec fn inv(&self) -> bool {
        names_unique(self.entries@) && self@.wf()
    }

    /// An empty store.
    pub fn new() -> (r: Store)
        ensures
            r.inv(),
            r@.table == Map::<Seq<char>, Row>::empty(),
            r@.history == Seq::<HistoryRecord>::empty(),
            r@.next_id == 1,
    {
        let r = Store { entries: Vec::new(), history: Vec::new(), next_id: 1 };
        assert(r@.table =~= Map::<Seq<char>, Row>::empty());
        r
    }
}

/// Makes the entry table match the configuration: each configured entry is
/// inserted, or updated in place by name (keeping its id and history); every
/// entry whose name is not configured is removed along with its history. The
/// change is all or nothing: when ids run out the store is left as it was.
pub fn init_statuses(store: &mut Store, entries: &Vec<Entry>) -> (r: Result<(), StoreError>)
    requires
        old(store).inv(),
    ensures
        final(store).inv(),
        r is Err <==> ids_exhausted(old(store)@, cfg_view(entries@)),
        r is Ok ==> final(store)@ == reconciled(old(store)@, cfg_view(entries@)),
        r is Err ==> final(store)@ == old(store)@ && r->Err_0 == StoreError::IdsExhausted,
{
    let ghost cs = cfg_view(entries@);
    let ghost t0 = store@.table;
    let ghost n0 = store@.next_id;
    // stage a copy of the entry table
    let mut staged: Vec<StoredEntry> = Vec::new();
    let mut i: usize = 0;
    while i < store.entries.len()
        invariant
            i <= store.entries.len(),
            staged@ == store.entries@.take(i as int),
            *store == *old(store),
        decreases store.entries.len() - i,
    {
        staged.push(copy_entry(&store.entries[i]));
        assert(staged@ =~= store.entries@.take(i + 1));
        i = i + 1;
    }
    assert(staged@ =~= store.entries@);
    // upsert every configured entry, in order
    let mut next: i64 = store.next_id;
    let mut j: usize = 0;
    assert(cs.take(0) =~= Seq::<EntryView>::empty());
    while j < entries.len()
        invariant
            j <= entries.len(),
            cs == cfg_view(entries@),
            names_unique(staged@),
            (table_of(staged@), next as int) == upsert_all(t0, n0, cs.take(j as int)),
            table_of(staged@).dom().finite(),
            ids_ok(table_of(staged@), next as int),
            1 <= next <= i64::MAX,
            *store == *old(store),
            old(store).inv(),
            t0 == old(store)@.table,
            n0 == old(store)@.next_id,
        decreases entries.len() - j,
    {
        let c = &entries[j];
        assert(cs.take(j + 1).drop_last() =~= cs.take(j as int));
        assert(cs.take(j + 1).last() == c@);
        proof {
            lemma_upsert_one(table_of(staged@), next as int, c@);
        }
        match find_name(&staged, &c.name) {
            Some(k) => {
                let x = StoredEntry {
                    id: staged[k].id,
                    name: c.name.clone(),
                    public_url: c.public_url.clone(),
                    polling_url: copy_opt(&c.polling_url),
                };
                proof {
                    lemma_index_of(staged@, k as int);
                    lemma_table_update(staged@, k as int, x);
                }
                staged.set(k, x);
            },
            None => {
                if next == i64::MAX {
                    proof {
                        lemma_upsert_all_prefix(t0, n0, cs, j + 1);
                    }
                    return Err(StoreError::IdsExhausted);
                }
                let x = StoredEntry {
                    id: next,
                    name: c.name.clone(),
                    public_url: c.public_url.clone(),
                    polling_url: copy_opt(&c.polling_url),
                };
                proof {
                    lemma_table_push(staged@, x);
                }
                staged.push(x);
                next = next + 1;
            },
        }
        j = j + 1;
    }
    assert(cs.take(entries.len() as int) =~= cs);
    // keep only configured names
    let ghost u = table_of(staged@);
    let mut kept: Vec<StoredEntry> = Vec::new();
    let ghost mut src: Seq<int> = Seq::empty();
    let mut i: usize = 0;
    while i < staged.len()
        invariant
            i <= staged.len(),
            cs == cfg_view(entries@),
            names_unique(staged@),
            kept@.len() == src.len(),
            *store == *old(store),
            forall|a: int| 0 <= a < src.len() ==> 0 <= #[trigger] src[a] < i,
            forall|a: int| 0 <= a < src.len() ==> kept@[a] == staged@[#[trigger] src[a]],
            forall|a: int| 0 <= a < src.len() ==> cfg_has(cs, (#[trigger] kept@[a]).name@),
            forall|a: int, b: int| 0 <= a < b < src.len() ==> #[trigger] src[a] < #[trigger] src[b],
            forall|x: int| 0 <= x < i && cfg_has(cs, (#[trigger] staged@[x]).name@)
                ==> exists|a: int| 0 <= a < src.len() && src[a] == x,
        decreases staged.len() - i,
    {
        if is_configured(entries, &staged[i].name) {
            kept.push(copy_entry(&staged[i]));
            proof {
                let ghost old_src = src;
                src = src.push(i as int);
                assert(src[src.len() - 1] == i);
                assert forall|x: int| 0 <= x < i + 1 && cfg_has(cs, (#[trigger] staged@[x]).name@)
                implies exists|a: int| 0 <= a < src.len() && src[a] == x by {
                    if x == i {
                        assert(src[src.len() - 1] == x);
                    } else {
                        let a = choose|a: int| 0 <= a < old_src.len() && old_src[a] == x;
                        assert(src[a] == x);
                    }
                }
            }
        }
        i = i + 1;
    }
    proof {
        assert(names_unique(kept@)) by {
            assert forall|a: int, b: int|
                0 <= a < kept@.len() && 0 <= b < kept@.len()
                    && (#[trigger] kept@[a]).name@ == (#[trigger] kept@[b]).name@
            implies a == b by {
                if a < b {
                    assert(src[a] < src[b]);
                } else if b < a {
                    assert(src[b] < src[a]);
                }
            }
        }
        let tk = table_of(kept@);
        let tr = u.restrict(cfg_names(cs));
        assert forall|n: Seq<char>| #[trigger] tk.contains_key(n) <==> tr.contains_key(n) by {
            if has_name(kept@, n) {
                let a = choose|a: int| 0 <= a < kept@.len() && (#[trigger] kept@[a]).name@ == n;
                assert(staged@[src[a]].name@ == n);
            }
            if tr.contains_key(n) {
                let x = choose|x: int| 0 <= x < staged@.len() && (#[trigger] staged@[x]).name@ == n;
                let a = choose|a: int| 0 <= a < src.len() && src[a] == x;
                assert(kept@[a].name@ == n);
            }
        }
        assert forall|n: Seq<char>| tk.contains_key(n) implies #[trigger] tk[n] == tr[n] by {
            let a = choose|a: int| 0 <= a < kept@.len() && (#[trigger] kept@[a]).name@ == n;
            lemma_index_of(kept@, a);
            lemma_index_of(staged@, src[a]);
        }
        assert(tk =~= tr);
        assert(tr.dom() =~= u.dom().intersect(cfg_names(cs)));
    }
    // drop the history of removed entries
    let mut hist: Vec<HistoryRecord> = Vec::new();
    let mut i: usize = 0;
    while i < store.history.len()
        invariant
            i <= store.history.len(),
            names_unique(kept@),
            *store == *old(store),
            hist@ == cascade(store.history@.take(i as int), table_of(kept@)),
        decreases store.history.len() - i,
    {
        let h = store.history[i];
        assert(store.history@.take(i + 1).drop_last() =~= store.history@.take(i as int));
        if find_id(&kept, h.entry_id).is_some() {
            hist.push(h);
        }
        i = i + 1;
    }
    assert(store.history@.take(store.history.len() as int) =~= store.history@);
    proof {
        lemma_cascade(store.history@, table_of(kept@));
        assert(ids_ok(table_of(kept@), next as int));
    }
    store.entries = kept;
    store.history = hist;
    store.next_id = next;
    Ok(())
}


proof fn lemma_table_len(es: Seq<StoredEntry>)
    requires
        names_unique(es),
    ensures
        table_of(es).dom().finite(),
        table_of(es).dom().len() == es.len(),
{
    let ns = es.map_values(|e: StoredEntry| e.name@);
    assert forall|n: Seq<char>| #[trigger] table_of(es).dom().contains(n) <==> ns.to_set().contains(n) by {
        if has_name(es, n) {
            let i = choose|i: int| 0 <= i < es.len() && (#[trigger] es[i]).name@ == n;
            assert(ns[i] == n);
        }
        if ns.contains(n) {
            let i = choose|i: int| 0 <= i < ns.len() && ns[i] == n;
            assert(es[i].name@ == n);
        }
    }
    assert(table_of(es).dom() =~= ns.to_set());
    assert(ns.no_duplicates()) by {
        assert forall|i: int, j: int| 0 <= i < ns.len() && 0 <= j < ns.len() && i != j
        implies ns[i] != ns[j] by {
            assert(ns[i] == es[i].name@);
            assert(ns[j] == es[j].name@);
        }
    }
    ns.unique_seq_to_set();
}

/// The URL that probes an entry: its polling URL where it has one, else its
/// public URL.
pub open spec fn probe_url(r: Row) -> Seq<char> {
    match r.polling_url {
        Some(u) => u,
        None => r.public_url,
    }
}

/// What one tick probes for one entry.
#[derive(Clone, Debug)]
pub struct ProbeTarget {
    pub entry_id: i64,
    pub url: String,
}

/// Whether `p` probes an entry of the table: one with its id, at its probe URL.
pub open spec fn probes_entry(t: Map<Seq<char>, Row>, p: ProbeTarget) -> bool {
    exists|n: Seq<char>| t.contains_key(n) && (#[trigger] t[n]).id == p.entry_id && p.url@ == probe_url(t[n])
}

/// One observation of a tick, before it is stamped with a time.
#[derive(Clone, Copy, Debug, PartialEq, Eq, Structural)]
pub struct Observation {
    pub entry_id: i64,
    pub status_code: i64,
}

/// The history records that a tick at time `at` appends, in order.
pub open spec fn stamped(obs: Seq<Observation>, at: i64) -> Seq<HistoryRecord> {
    obs.map_values(|o: Observation| HistoryRecord { entry_id: o.entry_id, status_code: o.status_code, observed_at: at })
}

/// An observation as the history query returns it.
#[derive(Clone, Copy, Debug, PartialEq, Eq, Structural)]
pub struct HistoryRow {
    pub status: i64,
    pub poll_time: i64,
}

/// One entry with its whole history, newest first.
#[derive(Clone, Debug)]
pub struct StatusDetails {
    pub id: i64,
    pub public_url: String,
    pub name: String,
    pub history: Vec<HistoryRow>,
}

/// The history of the entry `id`, newest first.
pub open spec fn history_newest_first(hs: Seq<HistoryRecord>, id: int) -> Seq<HistoryRow>
    decreases hs.len(),
{
    if hs.len() == 0 {
        Seq::empty()
    } else {
        let rest = history_newest_first(hs.drop_last(), id);
        if hs.last().entry_id == id {
            rest.insert(0, HistoryRow { status: hs.last().status_code, poll_time: hs.last().observed_at })
        } else {
            rest
        }
    }
}

/// The probe target of one row: its id and its probe URL.
pub fn probe_target_of(e: &StoredEntry) -> (r: ProbeTarget)
    ensures
        r.entry_id == e.id,
        r.url@ == probe_url(e.row()),
{
    let url = match &e.polling_url {
        Some(u) => u.clone(),
        None => e.public_url.clone(),
    };
    ProbeTarget { entry_id: e.id, url }
}

/// The id and the name of a row, as the reconciler reads them.
#[derive(Clone, Debug)]
pub struct EntryKey {
    pub id: i64,
    pub name: String,
}

/// The ids of the rows whose name no configured entry carries, in order.
pub open spec fn stale_ids(ks: Seq<EntryKey>, cs: Seq<EntryView>) -> Seq<i64>
    decreases ks.len(),
{
    if ks.len() == 0 {
        Seq::empty()
    } else {
        let r = stale_ids(ks.drop_last(), cs);
        if cfg_has(cs, ks.last().name@) {
            r
        } else {
            r.push(ks.last().id)
        }
    }
}

/// The rows that reconciling with `entries` removes: those whose name is not
/// configured.
pub fn stale_entries(existing: &Vec<EntryKey>, entries: &Vec<Entry>) -> (r: Vec<i64>)
    ensures
        r@ == stale_ids(existing@, cfg_view(entries@)),
{
    let mut r: Vec<i64> = Vec::new();
    let mut i: usize = 0;
    while i < existing.len()
        invariant
            i <= existing.len(),
            r@ == stale_ids(existing@.take(i as int), cfg_view(entries@)),
        decreases existing.len() - i,
    {
        assert(existing@.take(i + 1).drop_last() =~= existing@.take(i as int));
        if !is_configured(entries, &existing[i].name) {
            r.push(existing[i].id);
        }
        i = i + 1;
    }
    assert(existing@.take(existing.len() as int) =~= existing@);
    r
}

/// Rows sorted by time, newest first.
pub open spec fn newest_first_ordered(rows: Seq<HistoryRow>) -> bool {
    forall|i: int, j: int| 0 <= i <= j < rows.len() ==> (#[trigger] rows[i]).poll_time >= (#[trigger] rows[j]).poll_time
}

proof fn lemma_newest_first_ordered(hs: Seq<HistoryRecord>, id: int)
    requires
        stamps_ordered(hs),
    ensures
        newest_first_ordered(history_newest_first(hs, id)),
        forall|k: int| 0 <= k < history_newest_first(hs, id).len() ==> exists|i: int|
            0 <= i < hs.len() && (#[trigger] history_newest_first(hs, id)[k]).poll_time == hs[i].observed_at,
    decreases hs.len(),
{
    if hs.len() > 0 {
        let hd = hs.drop_last();
        assert(stamps_ordered(hd)) by {
            assert forall|i: int, j: int| 0 <= i <= j < hd.len()
            implies (#[trigger] hd[i]).observed_at <= (#[trigger] hd[j]).observed_at by {
                assert(hd[i] == hs[i] && hd[j] == hs[j]);
            }
        }
        lemma_newest_first_ordered(hd, id);
        let rest = history_newest_first(hd, id);
        let nf = history_newest_first(hs, id);
        let last = hs[hs.len() - 1];
        assert forall|k: int| 0 <= k < rest.len() implies (#[trigger] rest[k]).poll_time <= last.observed_at by {
            let i = choose|i: int| 0 <= i < hd.len() && rest[k].poll_time == hd[i].observed_at;
            assert(hd[i] == hs[i]);
        }
        if last.entry_id == id {
            assert forall|i: int, j: int| 0 <= i <= j < nf.len()
            implies (#[trigger] nf[i]).poll_time >= (#[trigger] nf[j]).poll_time by {
                if i > 0 {
                    assert(nf[i] == rest[i - 1] && nf[j] == rest[j - 1]);
                } else if j > 0 {
                    assert(nf[j] == rest[j - 1]);
                }
            }
            assert forall|k: int| 0 <= k < nf.len() implies exists|i: int|
                0 <= i < hs.len() && (#[trigger] nf[k]).poll_time == hs[i].observed_at by {
                if k > 0 {
                    assert(nf[k] == rest[k - 1]);
                    let i = choose|i: int| 0 <= i < hd.len() && rest[k - 1].poll_time == hd[i].observed_at;
                    assert(hd[i] == hs[i]);
                } else {
                    assert(nf[0].poll_time == hs[hs.len() - 1].observed_at);
                }
            }
        } else {
            assert forall|k: int| 0 <= k < nf.len() implies exists|i: int|
                0 <= i < hs.len() && (#[trigger] nf[k]).poll_time == hs[i].observed_at by {
                let i = choose|i: int| 0 <= i < hd.len() && rest[k].poll_time == hd[i].observed_at;
                assert(hd[i] == hs[i]);
            }
        }
    }
}

/// One row of the status listing: an entry and one of its observations.
#[derive(Clone, Debug)]
pub struct StatusRow {
    pub id: i64,
    pub public_url: String,
    pub name: String,
    pub last_status: i64,
    pub poll_time: i64,
}

/// The observation that a listing row carries.
pub open spec fn history_row_of(r: StatusRow) -> HistoryRow {
    HistoryRow { status: r.last_status, poll_time: r.poll_time }
}

/// The latest `limit` observations of the entry `id`, newest first.
pub open spec fn recent_history(hs: Seq<HistoryRecord>, id: int, limit: int) -> Seq<HistoryRow> {
    let h = history_newest_first(hs, id);
    if limit < h.len() {
        h.take(limit)
    } else {
        h
    }
}

/// Whether a listing row names an entry of the table, with its URL.
pub open spec fn row_of_entry(t: Map<Seq<char>, Row>, r: StatusRow) -> bool {
    t.contains_key(r.name@) && t[r.name@].id == r.id && t[r.name@].public_url == r.public_url@
}

/// The observations that the listing rows of the entry `id` carry, in order.
pub open spec fn rows_history(rs: Seq<StatusRow>, id: int) -> Seq<HistoryRow>
    decreases rs.len(),
{
    if rs.len() == 0 {
        Seq::empty()
    } else {
        let h = rows_history(rs.drop_last(), id);
        if rs.last().id == id {
            h.push(history_row_of(rs.last()))
        } else {
            h
        }
    }
}

proof fn lemma_rows_history_append(a: Seq<StatusRow>, b: Seq<StatusRow>, id: int)
    ensures
        rows_history(a + b, id) == rows_history(a, id) + rows_history(b, id),
    decreases b.len(),
{
    if b.len() == 0 {
        assert(a + b =~= a);
        assert(rows_history(a, id) + rows_history(b, id) =~= rows_history(a, id));
    } else {
        lemma_rows_history_append(a, b.drop_last(), id);
        assert((a + b).drop_last() =~= a + b.drop_last());
        assert((a + b).last() == b.last());
        let hb = rows_history(b.drop_last(), id);
        if b.last().id == id {
            assert(rows_history(a, id) + hb.push(history_row_of(b.last())) =~= (rows_history(a, id) + hb).push(
                history_row_of(b.last()),
            ));
        }
    }
}

proof fn lemma_rows_history_block(b: Seq<StatusRow>, id: int, h: Seq<HistoryRow>)
    requires
        b.len() == h.len(),
        forall|j: int| 0 <= j < b.len() ==> (#[trigger] b[j]).id == id && history_row_of(b[j]) == h[j],
    ensures
        rows_history(b, id) == h,
        forall|other: int| other != id ==> #[trigger] rows_history(b, other) == Seq::<HistoryRow>::empty(),
    decreases b.len(),
{
    if b.len() > 0 {
        lemma_rows_history_block(b.drop_last(), id, h.drop_last());
        assert(b[b.len() - 1].id == id);
        assert(h.drop_last().push(h.last()) =~= h);
        assert forall|other: int| other != id implies #[trigger] rows_history(b, other) == Seq::<HistoryRow>::empty() by {
            assert(rows_history(b, other) == rows_history(b.drop_last(), other));
        }
    }
}

impl Store {
    /// The rows of the entry table.
    pub fn entries(&self) -> (r: &Vec<StoredEntry>)
        requires
            self.inv(),
        ensures
            table_of(r@) == self@.table,
            names_unique(r@),
            r@.len() == self@.table.dom().len(),
    {
        proof {
            lemma_table_len(self.entries@);
        }
        &self.entries
    }

    /// The stamp of the latest observation, if any: a tick may be stamped no
    /// earlier.
    pub fn last_stamp(&self) -> (r: Option<i64>)
        ensures
            r == if self@.history.len() == 0 { None } else { Some(self@.history.last().observed_at) },
            r is None ==> stamp_allowed(self@.history, i64::MIN),
            r is Some ==> stamp_allowed(self@.history, r->Some_0),
    {
        if self.history.len() == 0 {
            None
        } else {
            Some(self.history[self.history.len() - 1].observed_at)
        }
    }

    /// The invariants of the persisted state hold of every well-formed store.
    pub proof fn lemma_inv_wf(&self)
        requires
            self.inv(),
        ensures
            self@.wf(),
    {
    }

    /// The history, oldest first.
    pub fn history(&self) -> (r: &Vec<HistoryRecord>)
        ensures
            r@ == self@.history,
    {
        &self.history
    }

    /// Snapshot of what a tick probes: one target per entry, with the entry's
    /// id and its probe URL.
    pub fn probe_targets(&self) -> (r: Vec<ProbeTarget>)
        requires
            self.inv(),
        ensures
            r@.len() == self@.table.dom().len(),
            forall|i: int| 0 <= i < r@.len() ==> probes_entry(self@.table, #[trigger] r@[i]),
            forall|n: Seq<char>| #[trigger] self@.table.contains_key(n) ==> exists|i: int|
                0 <= i < r@.len() && r@[i].entry_id == self@.table[n].id,
            forall|i: int, j: int| 0 <= i < r@.len() && 0 <= j < r@.len()
                && (#[trigger] r@[i]).entry_id == (#[trigger] r@[j]).entry_id ==> i == j,
    {
        let mut r: Vec<ProbeTarget> = Vec::new();
        let mut i: usize = 0;
        while i < self.entries.len()
            invariant
                i <= self.entries.len(),
                r@.len() == i,
                forall|k: int| 0 <= k < i ==> (#[trigger] r@[k]).entry_id == self.entries@[k].id
                    && r@[k].url@ == probe_url(self.entries@[k].row()),
            decreases self.entries.len() - i,
        {
            r.push(probe_target_of(&self.entries[i]));
            i = i + 1;
        }
        proof {
            let es = self.entries@;
            let t = self@.table;
            lemma_table_len(es);
            assert forall|k: int| 0 <= k < r@.len() implies probes_entry(t, #[trigger] r@[k]) by {
                lemma_index_of(es, k);
                let n = es[k].name@;
                assert(t.contains_key(n));
                assert(t[n] == es[k].row());
                assert(t[n].id == r@[k].entry_id && r@[k].url@ == probe_url(t[n]));
            }
            assert forall|n: Seq<char>| #[trigger] t.contains_key(n) implies exists|k: int|
                0 <= k < r@.len() && r@[k].entry_id == t[n].id by {
                let k = index_of_name(es, n);
                assert(r@[k].entry_id == t[n].id);
            }
            assert forall|a: int, b: int| 0 <= a < r@.len() && 0 <= b < r@.len()
                && (#[trigger] r@[a]).entry_id == (#[trigger] r@[b]).entry_id implies a == b by {
                lemma_index_of(es, a);
                lemma_index_of(es, b);
                assert(t[es[a].name@].id == t[es[b].name@].id);
            }
        }
        r
    }

    /// Appends the observations of one tick, all stamped with `observed_at`,
    /// or none of them: where one names an entry that no longer exists the
    /// store is left as it was.
    pub fn commit_tick(&mut self, obs: &Vec<Observation>, observed_at: i64) -> (r: Result<(), StoreError>)
        requires
            old(self).inv(),
            stamp_allowed(old(self)@.history, observed_at),
        ensures
            final(self).inv(),
            r is Ok <==> forall|i: int| 0 <= i < obs@.len()
                ==> table_has_id(old(self)@.table, (#[trigger] obs@[i]).entry_id as int),
            r is Ok ==> final(self)@ == (StoreView {
                history: old(self)@.history + stamped(obs@, observed_at),
                ..old(self)@
            }),
            r is Err ==> *final(self) == *old(self) && r->Err_0 is MissingEntry
                && !table_has_id(old(self)@.table, r->Err_0->MissingEntry_0 as int),
    {
        let mut i: usize = 0;
        while i < obs.len()
            invariant
                i <= obs.len(),
                self.inv(),
                forall|k: int| 0 <= k < i ==> table_has_id(self@.table, (#[trigger] obs@[k]).entry_id as int),
            decreases obs.len() - i,
        {
            if find_id(&self.entries, obs[i].entry_id).is_none() {
                return Err(StoreError::MissingEntry(obs[i].entry_id));
            }
            i = i + 1;
        }
        let ghost h0 = self.history@;
        let mut i: usize = 0;
        while i < obs.len()
            invariant
                i <= obs.len(),
                names_unique(self.entries@),
                self.entries == old(self).entries,
                self.next_id == old(self).next_id,
                h0 == old(self)@.history,
                old(self).inv(),
                self.history@ == h0 + stamped(obs@, observed_at).take(i as int),
                forall|k: int| 0 <= k < obs.len() ==> table_has_id(old(self)@.table, (#[trigger] obs@[k]).entry_id as int),
            decreases obs.len() - i,
        {
            let o = obs[i];
            self.history.push(HistoryRecord { entry_id: o.entry_id, status_code: o.status_code, observed_at });
            assert(stamped(obs@, observed_at).take(i + 1) =~= stamped(obs@, observed_at).take(i as int).push(
                stamped(obs@, observed_at)[i as int]));
            i = i + 1;
        }
        assert(stamped(obs@, observed_at).take(obs.len() as int) =~= stamped(obs@, observed_at));
        proof {
            let h = self.history@;
            assert forall|k: int| 0 <= k < h.len() implies table_has_id(self@.table, (#[trigger] h[k]).entry_id as int) by {
                if k >= h0.len() {
                    assert(h[k] == stamped(obs@, observed_at)[k - h0.len()]);
                    assert(table_has_id(old(self)@.table, obs@[k - h0.len()].entry_id as int));
                } else {
                    assert(h[k] == h0[k]);
                }
            }
            assert forall|a: int, b: int| 0 <= a <= b < h.len()
            implies (#[trigger] h[a]).observed_at <= (#[trigger] h[b]).observed_at by {
                if b >= h0.len() {
                    assert(h[b] == stamped(obs@, observed_at)[b - h0.len()]);
                    if a >= h0.len() {
                        assert(h[a] == stamped(obs@, observed_at)[a - h0.len()]);
                    } else {
                        assert(h[a] == h0[a]);
                        assert(h0[a].observed_at <= h0[h0.len() - 1].observed_at);
                    }
                } else {
                    assert(h[a] == h0[a] && h[b] == h0[b]);
                }
            }
        }
        Ok(())
    }

    /// The history of the entry `id`, newest first.
    fn history_rows_of(&self, id: i64) -> (r: Vec<HistoryRow>)
        ensures
            r@ == history_newest_first(self@.history, id as int),
    {
        let mut hist: Vec<HistoryRow> = Vec::new();
        let mut i: usize = 0;
        while i < self.history.len()
            invariant
                i <= self.history.len(),
                hist@ == history_newest_first(self.history@.take(i as int), id as int),
            decreases self.history.len() - i,
        {
            let h = self.history[i];
            assert(self.history@.take(i + 1).drop_last() =~= self.history@.take(i as int));
            if h.entry_id == id {
                hist.insert(0, HistoryRow { status: h.status_code, poll_time: h.observed_at });
            }
            i = i + 1;
        }
        assert(self.history@.take(self.history.len() as int) =~= self.history@);
        hist
    }

    /// The latest observations of one row, newest first, at most `limit`.
    fn recent_rows(&self, e: &StoredEntry, limit: usize) -> (r: Vec<StatusRow>)
        ensures
            r@.len() == recent_history(self@.history, e.id as int, limit as int).len(),
            forall|j: int| 0 <= j < r@.len() ==> {
                &&& (#[trigger] r@[j]).id == e.id
                &&& r@[j].name@ == e.name@
                &&& r@[j].public_url@ == e.public_url@
                &&& history_row_of(r@[j]) == recent_history(self@.history, e.id as int, limit as int)[j]
            },
    {
        let hist = self.history_rows_of(e.id);
        let n = if limit < hist.len() { limit } else { hist.len() };
        let mut r: Vec<StatusRow> = Vec::new();
        let mut j: usize = 0;
        while j < n
            invariant
                j <= n <= hist.len(),
                n == if limit < hist@.len() { limit as int } else { hist@.len() as int },
                hist@ == history_newest_first(self@.history, e.id as int),
                r@.len() == j,
                forall|k: int| 0 <= k < j ==> {
                    &&& (#[trigger] r@[k]).id == e.id
                    &&& r@[k].name@ == e.name@
                    &&& r@[k].public_url@ == e.public_url@
                    &&& history_row_of(r@[k]) == hist@[k]
                },
            decreases n - j,
        {
            r.push(StatusRow {
                id: e.id,
                public_url: e.public_url.clone(),
                name: e.name.clone(),
                last_status: hist[j].status,
                poll_time: hist[j].poll_time,
            });
            j = j + 1;
        }
        r
    }

    /// Every entry with its latest observations, newest first, at most
    /// `limit` each; an entry without history has no row.
    pub fn list_statuses(&self, limit: usize) -> (r: Vec<StatusRow>)
        requires
            self.inv(),
        ensures
            forall|i: int| 0 <= i < r@.len() ==> row_of_entry(self@.table, #[trigger] r@[i]),
            forall|n: Seq<char>| #[trigger] self@.table.contains_key(n)
                ==> rows_history(r@, self@.table[n].id) == recent_history(self@.history, self@.table[n].id, limit as int),
            forall|i: int, j: int, l: int| 0 <= i < j < l < r@.len() && (#[trigger] r@[i]).id == (#[trigger] r@[l]).id
                ==> (#[trigger] r@[j]).id == r@[i].id,
            forall|i: int, j: int| 0 <= i < j < r@.len() && (#[trigger] r@[i]).id == (#[trigger] r@[j]).id
                ==> r@[i].poll_time >= r@[j].poll_time,
    {
        let ghost es = self.entries@;
        let ghost t = self@.table;
        let mut r: Vec<StatusRow> = Vec::new();
        let mut k: usize = 0;
        while k < self.entries.len()
            invariant
                k <= self.entries.len(),
                self.inv(),
                es == self.entries@,
                t == self@.table,
                forall|i: int| 0 <= i < r@.len() ==> row_of_entry(t, #[trigger] r@[i]),
                forall|x: int| 0 <= x < es.len() ==> rows_history(r@, (#[trigger] es[x]).id as int)
                    == if x < k { recent_history(self@.history, es[x].id as int, limit as int) } else { Seq::empty() },
                forall|i: int| 0 <= i < r@.len() ==> exists|x: int| 0 <= x < k && (#[trigger] r@[i]).id == es[x].id,
                forall|i: int, j: int, l: int| 0 <= i < j < l < r@.len() && (#[trigger] r@[i]).id == (#[trigger] r@[l]).id
                    ==> (#[trigger] r@[j]).id == r@[i].id,
                forall|i: int, j: int| 0 <= i < j < r@.len() && (#[trigger] r@[i]).id == (#[trigger] r@[j]).id
                    ==> r@[i].poll_time >= r@[j].poll_time,
            decreases self.entries.len() - k,
        {
            let e = &self.entries[k];
            let b = self.recent_rows(e, limit);
            proof {
                let rb = r@ + b@;
                let rec = recent_history(self@.history, e.id as int, limit as int);
                lemma_newest_first_ordered(self@.history, e.id as int);
                assert(newest_first_ordered(rec)) by {
                    let nf = history_newest_first(self@.history, e.id as int);
                    assert forall|i: int, j: int| 0 <= i <= j < rec.len()
                    implies (#[trigger] rec[i]).poll_time >= (#[trigger] rec[j]).poll_time by {
                        assert(rec[i] == nf[i] && rec[j] == nf[j]);
                    }
                }
                assert forall|i: int| 0 <= i < r@.len() implies (#[trigger] r@[i]).id != e.id by {
                    let x = choose|x: int| 0 <= x < k && r@[i].id == es[x].id;
                    lemma_index_of(es, x);
                    lemma_index_of(es, k as int);
                    if r@[i].id == e.id {
                        assert(t[es[x].name@].id == t[es[k as int].name@].id);
                        assert(es[x].name@ != es[k as int].name@);
                    }
                }
                assert forall|i: int| 0 <= i < rb.len() implies exists|x: int| 0 <= x < k + 1 && (#[trigger] rb[i]).id == es[x].id by {
                    if i < r@.len() {
                        assert(rb[i] == r@[i]);
                    } else {
                        assert(rb[i] == b@[i - r@.len()]);
                    }
                }
                assert forall|i: int, j: int, l: int| 0 <= i < j < l < rb.len() && (#[trigger] rb[i]).id == (#[trigger] rb[l]).id
                implies (#[trigger] rb[j]).id == rb[i].id by {
                    if l < r@.len() {
                        assert(rb[i] == r@[i] && rb[j] == r@[j] && rb[l] == r@[l]);
                    } else if i >= r@.len() {
                        assert(rb[i] == b@[i - r@.len()] && rb[j] == b@[j - r@.len()] && rb[l] == b@[l - r@.len()]);
                    } else {
                        assert(rb[i] == r@[i] && rb[l] == b@[l - r@.len()]);
                    }
                }
                assert forall|i: int, j: int| 0 <= i < j < rb.len() && (#[trigger] rb[i]).id == (#[trigger] rb[j]).id
                implies rb[i].poll_time >= rb[j].poll_time by {
                    if j < r@.len() {
                        assert(rb[i] == r@[i] && rb[j] == r@[j]);
                    } else if i >= r@.len() {
                        assert(rb[i] == b@[i - r@.len()] && rb[j] == b@[j - r@.len()]);
                        assert(history_row_of(b@[i - r@.len()]) == rec[i - r@.len()]);
                        assert(history_row_of(b@[j - r@.len()]) == rec[j - r@.len()]);
                    } else {
                        assert(rb[i] == r@[i] && rb[j] == b@[j - r@.len()]);
                    }
                }
                lemma_index_of(es, k as int);
                assert(t[es[k as int].name@] == es[k as int].row());
                assert forall|i: int| 0 <= i < b@.len() implies row_of_entry(t, #[trigger] b@[i]) by {
                    assert(t.contains_key(es[k as int].name@));
                }
                lemma_rows_history_block(b@, e.id as int, recent_history(self@.history, e.id as int, limit as int));
                assert forall|x: int| 0 <= x < es.len() implies rows_history(r@ + b@, (#[trigger] es[x]).id as int)
                    == if x < k + 1 { recent_history(self@.history, es[x].id as int, limit as int) } else { Seq::empty() } by {
                    lemma_rows_history_append(r@, b@, es[x].id as int);
                    if x != k {
                        lemma_index_of(es, x);
                        if es[x].id == es[k as int].id {
                            assert(t[es[x].name@].id == t[es[k as int].name@].id);
                        }
                    }
                }
                assert forall|i: int| 0 <= i < r@.len() + b@.len() implies row_of_entry(t, #[trigger] (r@ + b@)[i]) by {
                    if i >= r@.len() {
                        assert((r@ + b@)[i] == b@[i - r@.len()]);
                    } else {
                        assert((r@ + b@)[i] == r@[i]);
                    }
                }
            }
            let mut b = b;
            r.append(&mut b);
            k = k + 1;
        }
        proof {
            assert forall|n: Seq<char>| #[trigger] t.contains_key(n)
            implies rows_history(r@, t[n].id) == recent_history(self@.history, t[n].id, limit as int) by {
                let x = index_of_name(es, n);
                assert(es[x].id == t[n].id);
            }
        }
        r
    }

    /// One entry by id with its whole history, newest first; `None` where no
    /// entry has that id.
    pub fn get_status_details(&self, id: i64) -> (r: Option<StatusDetails>)
        requires
            self.inv(),
        ensures
            r is None <==> !table_has_id(self@.table, id as int),
            r is Some ==> {
                let d = r->Some_0;
                &&& d.id == id
                &&& self@.table.contains_key(d.name@)
                &&& self@.table[d.name@].id == id
                &&& d.public_url@ == self@.table[d.name@].public_url
                &&& d.history@ == history_newest_first(self@.history, id as int)
                &&& newest_first_ordered(d.history@)
            },
    {
        proof {
            lemma_newest_first_ordered(self@.history, id as int);
        }
        let k = match find_id(&self.entries, id) {
            Some(k) => k,
            None => {
                return None;
            },
        };
        let e = &self.entries[k];
        proof {
            lemma_index_of(self.entries@, k as int);
            assert(self@.table.contains_key(e.name@));
            assert(self@.table[e.name@] == e.row());
        }
        let hist = self.history_rows_of(id);
        Some(StatusDetails { id, public_url: e.public_url.clone(), name: e.name.clone(), history: hist })
    }
}
} // verus!
