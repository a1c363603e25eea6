//! The settings collection: the one shared, mutable resource of the system.
//!
//! The store owns the canonical list of entries. Its well-formedness is that
//! no two entries share an identifier. Replacing an entry that is marked
//! favourite clears every other entry's favourite flag within the same
//! mutation, which keeps the collection's at-most-one-favourite invariant.

use vstd::prelude::*;
use crate::settings::{Setting, SettingView};

verus! {

broadcast use vstd::seq_lib::group_to_multiset_ensures;

/// The views of a list of entries, in the same order.
pub open spec fn views_of(s: Seq<Setting>) -> Seq<SettingView> {
    s.map_values(|x: Setting| x@)
}

/// No two entries share an identifier.
pub open spec fn unique_ids(s: Seq<SettingView>) -> bool {
    forall|i: int, j: int| 0 <= i < j < s.len() ==> s[i].id != s[j].id
}

/// Some entry carries the identifier.
pub open spec fn contains_id(s: Seq<SettingView>, id: Seq<char>) -> bool {
    exists|i: int| 0 <= i < s.len() && s[i].id == id
}

/// At most one entry is marked favourite.
pub open spec fn at_most_one_favourite(s: Seq<SettingView>) -> bool {
    forall|i: int, j: int|
        0 <= i < s.len() && 0 <= j < s.len() && s[i].favourite && s[j].favourite ==> i == j
}

/// The entry with its favourite flag cleared.
pub open spec fn cleared(v: SettingView) -> SettingView {
    SettingView { favourite: false, ..v }
}

/// Every entry with its favourite flag cleared.
pub open spec fn clear_favourites(s: Seq<SettingView>) -> Seq<SettingView> {
    s.map_values(|v: SettingView| cleared(v))
}

/// The first position holding the identifier, or -1 if none does.
pub open spec fn first_index_of(s: Seq<SettingView>, id: Seq<char>) -> int
    decreases s.len(),
{
    if s.len() == 0 {
        -1
    } else if s[0].id == id {
        0
    } else {
        let r = first_index_of(s.drop_first(), id);
        if r < 0 {
            -1
        } else {
            r + 1
        }
    }
}

/// What `update` does to the collection: if the incoming entry is a
/// favourite, every other entry is cleared first; then the entry with the
/// matching identifier is replaced in place, or the entry is appended if the
/// identifier is new.
pub open spec fn upsert(s: Seq<SettingView>, v: SettingView) -> Seq<SettingView> {
    let base = if v.favourite {
        clear_favourites(s)
    } else {
        s
    };
    let i = first_index_of(s, v.id);
    if 0 <= i {
        base.update(i, v)
    } else {
        base.push(v)
    }
}

/// What `delete` does to the collection: the entry with the identifier is
/// removed; nothing changes if the identifier is absent.
pub open spec fn remove_id(s: Seq<SettingView>, id: Seq<char>) -> Seq<SettingView> {
    let i = first_index_of(s, id);
    if 0 <= i {
        s.remove(i)
    } else {
        s
    }
}

/// Entries come in ascending display order.
pub open spec fn sorted_by_order(s: Seq<SettingView>) -> bool {
    forall|i: int, j: int| 0 <= i <= j < s.len() ==> s[i].order <= s[j].order
}

/// `first_index_of` finds the first position of the identifier and only
/// that: -1 exactly when the identifier is absent.
pub proof fn lemma_first_index_of(s: Seq<SettingView>, id: Seq<char>)
    ensures
        first_index_of(s, id) == -1 <==> !contains_id(s, id),
        contains_id(s, id) ==> {
            let fi = first_index_of(s, id);
            &&& 0 <= fi < s.len()
            &&& s[fi].id == id
            &&& forall|j: int| 0 <= j < fi ==> s[j].id != id
        },
    decreases s.len(),
{
    if s.len() == 0 {
    } else if s[0].id == id {
    } else {
        lemma_first_index_of(s.drop_first(), id);
        assert forall|i: int| 0 <= i < s.len() && s[i].id == id implies contains_id(
            s.drop_first(),
            id,
        ) by {
            assert(s.drop_first()[i - 1] == s[i]);
        }
        if contains_id(s, id) {
            let fi = first_index_of(s, id);
            assert forall|j: int| 0 <= j < fi implies s[j].id != id by {
                if j > 0 {
                    assert(s.drop_first()[j - 1] == s[j]);
                }
            }
        }
    }
}

/// A position that matches and is preceded by no match is the first one.
pub proof fn lemma_first_match_is_first_index(s: Seq<SettingView>, id: Seq<char>, i: int)
    requires
        0 <= i < s.len(),
        s[i].id == id,
        forall|j: int| 0 <= j < i ==> s[j].id != id,
    ensures
        first_index_of(s, id) == i,
{
    lemma_first_index_of(s, id);
    let fi = first_index_of(s, id);
    assert(contains_id(s, id));
    if fi < i {
        assert(s[fi].id != id);
    }
    if i < fi {
        assert(s[i].id != id);
    }
}

/// Law: one `update` never leaves two favourites behind. If the collection
/// had at most one favourite, or the incoming entry is itself a favourite
/// (which clears every other entry), the result has at most one favourite.
/// By induction over a chain of calls, no sequence of `update`s ever yields
/// a collection with two favourite entries.
pub proof fn lemma_update_preserves_at_most_one_favourite(s: Seq<SettingView>, v: SettingView)
    requires
        at_most_one_favourite(s) || v.favourite,
    ensures
        at_most_one_favourite(upsert(s, v)),
{
    lemma_first_index_of(s, v.id);
    let r = upsert(s, v);
    if v.favourite {
        let base = clear_favourites(s);
        assert forall|i: int, j: int|
            0 <= i < r.len() && 0 <= j < r.len() && r[i].favourite && r[j].favourite implies i
            == j by {
            assert(forall|k: int| 0 <= k < base.len() ==> !base[k].favourite);
        }
    } else {
        assert forall|i: int, j: int|
            0 <= i < r.len() && 0 <= j < r.len() && r[i].favourite && r[j].favourite implies i
            == j by {
            assert(r[i].favourite ==> 0 <= i < s.len() && s[i].favourite);
            assert(r[j].favourite ==> 0 <= j < s.len() && s[j].favourite);
        }
    }
}

/// Law: deleting a present identifier shrinks the collection by exactly one
/// entry and removes that identifier; every other identifier stays; deleting
/// an absent identifier changes nothing.
pub proof fn lemma_delete_removes_exactly(s: Seq<SettingView>, id: Seq<char>)
    requires
        unique_ids(s),
    ensures
        contains_id(s, id) ==> remove_id(s, id).len() == s.len() - 1,
        !contains_id(remove_id(s, id), id),
        forall|other: Seq<char>|
            other != id ==> (contains_id(remove_id(s, id), other) <==> contains_id(s, other)),
        !contains_id(s, id) ==> remove_id(s, id) == s,
{
    lemma_first_index_of(s, id);
    let fi = first_index_of(s, id);
    let r = remove_id(s, id);
    if contains_id(s, id) {
        assert forall|i: int| 0 <= i < r.len() implies r[i].id != id by {
            if i < fi {
                assert(r[i] == s[i]);
            } else {
                assert(r[i] == s[i + 1]);
            }
        }
        assert forall|other: Seq<char>| other != id && contains_id(s, other) implies contains_id(
            r,
            other,
        ) by {
            let k = choose|k: int| 0 <= k < s.len() && s[k].id == other;
            if k < fi {
                assert(r[k] == s[k]);
            } else {
                assert(k != fi);
                assert(r[k - 1] == s[k]);
            }
        }
        assert forall|other: Seq<char>| other != id && contains_id(r, other) implies contains_id(
            s,
            other,
        ) by {
            let k = choose|k: int| 0 <= k < r.len() && r[k].id == other;
            if k < fi {
                assert(r[k] == s[k]);
            } else {
                assert(r[k] == s[k + 1]);
            }
        }
    }
}

/// Law: collections whose views form equal multisets hold exactly the same
/// entries. Two snapshots of an unchanged store have equal multisets, so two
/// read cycles without an intervening mutation speak about the same set of
/// entries, and of identifiers.
pub proof fn lemma_same_entries(a: Seq<SettingView>, b: Seq<SettingView>)
    requires
        a.to_multiset() == b.to_multiset(),
    ensures
        forall|v: SettingView| a.contains(v) <==> b.contains(v),
        a.len() == b.len(),
{
    vstd::seq_lib::to_multiset_len(a);
    vstd::seq_lib::to_multiset_len(b);
    assert forall|v: SettingView| a.contains(v) <==> b.contains(v) by {
        vstd::seq_lib::to_multiset_contains(a, v);
        vstd::seq_lib::to_multiset_contains(b, v);
        assert(a.to_multiset().count(v) == b.to_multiset().count(v));
    }
}

/// The settings collection. Exclusive access for a mutation and shared
/// access for a snapshot are the caller's to arrange; every operation here
/// applies one whole change to the in-memory collection.
pub struct SettingsStore {
    entries: Vec<Setting>,
}

impl View for SettingsStore {
    type V = Seq<SettingView>;

    closed spec fn view(&self) -> Seq<SettingView> {
        views_of(self.entries@)
    }
}

impl SettingsStore {
    /// No two entries of the store share an identifier.
    pub open spec fn wf(&self) -> bool {
        unique_ids(self@)
    }

    /// The empty collection: what a missing or malformed persisted file
    /// falls back to.
    pub fn new() -> (r: SettingsStore)
        ensures
            r@ =~= Seq::<SettingView>::empty(),
            r.wf(),
    {
        SettingsStore { entries: Vec::new() }
    }

    /// Builds the store from a decoded list, keeping the first entry of any
    /// repeated identifier. A list with unique identifiers is kept as it is.
    pub fn from_settings(list: Vec<Setting>) -> (r: SettingsStore)
        ensures
            r.wf(),
            unique_ids(views_of(list@)) ==> r@ == views_of(list@),
    {
        let ghost lv = views_of(list@);
        let mut store = SettingsStore::new();
        let n = list.len();
        let mut i: usize = 0;
        while i < n
            invariant
                n == list@.len(),
                0 <= i <= n,
                store.wf(),
                unique_ids(lv) ==> store@ =~= lv.take(i as int),
                lv == views_of(list@),
            decreases n - i,
        {
            proof {
                if unique_ids(lv) {
                    assert forall|k: int| 0 <= k < store@.len() implies store@[k].id
                        != lv[i as int].id by {
                        assert(store@[k] == lv[k]);
                    }
                    assert(!contains_id(store@, lv[i as int].id));
                }
            }
            let s = list[i].clone();
            store.create(s);
            proof {
                if unique_ids(lv) {
                    assert(store@ =~= lv.take(i as int).push(lv[i as int]));
                    assert(lv.take(i as int).push(lv[i as int]) =~= lv.take((i + 1) as int));
                }
            }
            i = i + 1;
        }
        proof {
            if unique_ids(lv) {
                assert(lv.take(n as int) =~= lv);
            }
        }
        store
    }

    pub fn len(&self) -> (n: usize)
        ensures
            n == self@.len(),
    {
        self.entries.len()
    }

    /// The first position of the identifier, characterized exactly.
    fn index_of(&self, id: &String) -> (r: Option<usize>)
        ensures
            match r {
                Some(i) => i == first_index_of(self@, id@),
                None => !contains_id(self@, id@),
            },
            r is Some <==> contains_id(self@, id@),
    {
        let n = self.entries.len();
        let mut i: usize = 0;
        while i < n
            invariant
                n == self.entries@.len(),
                0 <= i <= n,
                forall|j: int| 0 <= j < i ==> self@[j].id != id@,
            decreases n - i,
        {
            if eq_string(self.entries[i].id(), id) {
                proof {
                    assert(self@[i as int].id == id@);
                    assert(contains_id(self@, id@));
                    lemma_first_match_is_first_index(self@, id@, i as int);
                }
                return Some(i);
            }
            i = i + 1;
        }
        proof {
            lemma_first_index_of(self@, id@);
        }
        None
    }

    /// Whether some entry carries the identifier.
    pub fn contains(&self, id: &String) -> (r: bool)
        ensures
            r == contains_id(self@, id@),
    {
        self.index_of(id).is_some()
    }

    /// Inserts a new entry. An entry whose identifier is already present
    /// leaves the collection unchanged.
    pub fn create(&mut self, s: Setting)
        requires
            old(self).wf(),
        ensures
            final(self).wf(),
            contains_id(old(self)@, s@.id) ==> final(self)@ == old(self)@,
            !contains_id(old(self)@, s@.id) ==> final(self)@ =~= old(self)@.push(s@),
    {
        if self.index_of(s.id()).is_none() {
            self.entries.push(s);
            proof {
                assert(views_of(self.entries@) =~= views_of(old(self).entries@).push(s@));
            }
        }
    }

    /// Replaces the entry whose identifier matches, or appends the entry if
    /// its identifier is new. An incoming favourite clears every other
    /// entry's favourite flag within the same mutation, so the collection
    /// never gains a second favourite through `update`.
    pub fn update(&mut self, s: Setting)
        requires
            old(self).wf(),
        ensures
            final(self).wf(),
            final(self)@ == upsert(old(self)@, s@),
            at_most_one_favourite(old(self)@) || s@.favourite ==> at_most_one_favourite(final(self)@),
    {
        let ghost orig = self@;
        let idx = self.index_of(s.id());
        let fav = s.favourite();
        let n = self.entries.len();
        let mut out: Vec<Setting> = Vec::new();
        let mut i: usize = 0;
        while i < n
            invariant
                n == self.entries@.len(),
                views_of(self.entries@) == orig,
                0 <= i <= n,
                out@.len() == i,
                fav == s@.favourite,
                match idx {
                    Some(k) => k == first_index_of(orig, s@.id),
                    None => !contains_id(orig, s@.id),
                },
                forall|j: int|
                    0 <= j < i ==> views_of(out@)[j] == (if idx == Some(j as usize) {
                        s@
                    } else if fav {
                        cleared(orig[j])
                    } else {
                        orig[j]
                    }),
            decreases n - i,
        {
            let replace_here = match idx {
                Some(k) => k == i,
                None => false,
            };
            let item: Setting = if replace_here {
                s.clone()
            } else if fav {
                self.entries[i].with_favourite(false)
            } else {
                self.entries[i].clone()
            };
            let ghost iv = item@;
            let ghost prev = views_of(out@);
            out.push(item);
            proof {
                assert(orig[i as int] == self.entries@[i as int]@);
                assert(views_of(out@) =~= prev.push(iv));
                assert forall|j: int| 0 <= j < i + 1 implies views_of(out@)[j] == (if idx == Some(
                    j as usize,
                ) {
                    s@
                } else if fav {
                    cleared(orig[j])
                } else {
                    orig[j]
                }) by {
                    if j < i {
                        assert(views_of(out@)[j] == prev[j]);
                    } else {
                        assert(views_of(out@)[j] == iv);
                    }
                }
            }
            i = i + 1;
        }
        let ghost loop_views = views_of(out@);
        if idx.is_none() {
            out.push(s);
            proof {
                assert(views_of(out@) =~= loop_views.push(s@));
            }
        }
        self.entries = out;
        proof {
            lemma_first_index_of(orig, s@.id);
            assert(self@ =~= upsert(orig, s@));
            if at_most_one_favourite(orig) || s@.favourite {
                lemma_update_preserves_at_most_one_favourite(orig, s@);
            }
            assert forall|a: int, b: int| 0 <= a < b < self@.len() implies self@[a].id
                != self@[b].id by {
                let fi = first_index_of(orig, s@.id);
                if 0 <= fi {
                    assert(orig[fi].id == s@.id);
                    if a != fi {
                        assert(self@[a].id == orig[a].id);
                    }
                    if b != fi {
                        assert(self@[b].id == orig[b].id);
                    }
                } else {
                    if a < orig.len() {
                        assert(self@[a].id == orig[a].id);
                    }
                    if b < orig.len() {
                        assert(self@[b].id == orig[b].id);
                    }
                }
            }
        }
    }

    /// Removes the entry with the identifier; a no-op if it is absent. The
    /// identifier never remains in the collection afterwards.
    pub fn delete(&mut self, id: &String)
        requires
            old(self).wf(),
        ensures
            final(self).wf(),
            final(self)@ == remove_id(old(self)@, id@),
            !contains_id(final(self)@, id@),
            contains_id(old(self)@, id@) ==> final(self)@.len() == old(self)@.len() - 1,
            !contains_id(old(self)@, id@) ==> final(self)@ == old(self)@,
    {
        let ghost orig = self@;
        match self.index_of(id) {
            None => {
                proof {
                    lemma_first_index_of(orig, id@);
                    lemma_delete_removes_exactly(orig, id@);
                }
            },
            Some(i) => {
                proof {
                    lemma_first_index_of(orig, id@);
                }
                self.entries.remove(i);
                proof {
                    assert(self@ =~= orig.remove(i as int));
                    lemma_delete_removes_exactly(orig, id@);
                    assert forall|a: int, b: int| 0 <= a < b < self@.len() implies self@[a].id
                        != self@[b].id by {
                        if a < i as int {
                            assert(self@[a] == orig[a]);
                        } else {
                            assert(self@[a] == orig[a + 1]);
                        }
                        if b < i as int {
                            assert(self@[b] == orig[b]);
                        } else {
                            assert(self@[b] == orig[b + 1]);
                        }
                    }
                }
            },
        }
    }

    /// A read-only copy of the collection in display order: ascending by
    /// `order`, the same entries as the store.
    pub fn snapshot(&self) -> (r: Vec<Setting>)
        ensures
            sorted_by_order(views_of(r@)),
            views_of(r@).to_multiset() == self@.to_multiset(),
            r@.len() == self@.len(),
    {
        let mut work: Vec<Setting> = Vec::new();
        let n = self.entries.len();
        let mut i: usize = 0;
        while i < n
            invariant
                n == self.entries@.len(),
                0 <= i <= n,
                views_of(work@) =~= views_of(self.entries@).take(i as int),
            decreases n - i,
        {
            let ghost prev = views_of(work@);
            work.push(self.entries[i].clone());
            proof {
                assert(views_of(work@) =~= prev.push(self.entries@[i as int]@));
                assert(views_of(work@) =~= views_of(self.entries@).take((i + 1) as int));
            }
            i = i + 1;
        }
        proof {
            assert(views_of(self.entries@).take(n as int) =~= self@);
        }
        let mut out: Vec<Setting> = Vec::new();
        while work.len() > 0
            invariant
                sorted_by_order(views_of(out@)),
                forall|a: int, b: int|
                    0 <= a < views_of(out@).len() && 0 <= b < views_of(work@).len() ==> views_of(
                        out@,
                    )[a].order <= views_of(work@)[b].order,
                views_of(out@).to_multiset().add(views_of(work@).to_multiset()) == self@
                    .to_multiset(),
                out@.len() + work@.len() == self@.len(),
            decreases work@.len(),
        {
            let m = min_order_index(&work);
            let ghost wv = views_of(work@);
            let x = work.remove(m);
            let ghost ov = views_of(out@);
            out.push(x);
            proof {
                assert(views_of(work@) =~= wv.remove(m as int));
                assert(views_of(out@) =~= ov.push(wv[m as int]));
                assert(views_of(out@).to_multiset().add(views_of(work@).to_multiset()) =~= ov
                    .to_multiset().insert(wv[m as int]).add(
                    wv.to_multiset().remove(wv[m as int]),
                ));
                assert(wv.to_multiset().count(wv[m as int]) > 0);
                assert(ov.to_multiset().insert(wv[m as int]).add(
                    wv.to_multiset().remove(wv[m as int]),
                ) =~= ov.to_multiset().add(wv.to_multiset()));
                assert forall|a: int, b: int|
                    0 <= a < views_of(out@).len() && 0 <= b < views_of(
                        work@,
                    ).len() implies views_of(out@)[a].order <= views_of(work@)[b].order by {
                    assert(views_of(work@)[b] == if b < m as int {
                        wv[b]
                    } else {
                        wv[b + 1]
                    });
                    if a < ov.len() {
                        assert(views_of(out@)[a] == ov[a]);
                    } else {
                        assert(views_of(out@)[a] == wv[m as int]);
                    }
                }
            }
        }
        out
    }
}

/// Whether two strings hold the same characters.
pub(crate) fn eq_string(a: &String, b: &String) -> (r: bool)
    ensures
        r == (a@ == b@),
{
    *a == *b
}

/// The position of a least `order` value.
fn min_order_index(v: &Vec<Setting>) -> (r: usize)
    requires
        v@.len() > 0,
    ensures
        r < v@.len(),
        forall|j: int| 0 <= j < v@.len() ==> v@[r as int]@.order <= v@[j]@.order,
{
    let n = v.len();
    let mut best: usize = 0;
    let mut i: usize = 1;
    while i < n
        invariant
            n == v@.len(),
            0 < n,
            i <= n,
            best < n,
            forall|j: int| 0 <= j < i ==> v@[best as int]@.order <= v@[j]@.order,
        decreases n - i,
    {
        if v[i].order() < v[best].order() {
            best = i;
        }
        i = i + 1;
    }
    best
}

} // verus!
