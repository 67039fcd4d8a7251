//! The update map: package name to reported version pair, at most one
//! entry per name.  When two report lines name the same package, the entry
//! whose new-version string is lexicographically greater is retained (the
//! comparison is on the raw strings, not on parsed version numbers, so
//! `"2.0"` outranks `"10.0"`; that mirrors how the reports are consumed).
//! Entries are kept sorted by package name, which is the order rendering
//! uses.

use vstd::prelude::*;
use crate::order::lex_le;
use crate::order::lex_lt;
use crate::order::lemma_lex_le_refl;
use crate::order::lemma_lex_le_total;
use crate::order::lemma_lex_le_trans;
use crate::order::str_eq;
use crate::order::str_lex_le;
use crate::installed::PackageSet;

verus! {

/// One reported update: the packaged version and the upstream version.
pub struct PackageUpdate {
    pub current_version: String,
    pub new_version: String,
}

impl View for PackageUpdate {
    type V = (Seq<char>, Seq<char>);

    open spec fn view(&self) -> (Seq<char>, Seq<char>) {
        (self.current_version@, self.new_version@)
    }
}

/// Entry list as a sequence of (name, (current, new)) triples.
pub type EntrySeq = Seq<(Seq<char>, (Seq<char>, Seq<char>))>;

/// The ghost triples a vector of entries stands for.
pub open spec fn entry_views(v: Seq<(String, PackageUpdate)>) -> EntrySeq {
    Seq::new(v.len(), |i: int| (v[i].0@, v[i].1@))
}

/// Entry names strictly increase, so names are unique.
pub open spec fn entry_keys_sorted(es: EntrySeq) -> bool {
    forall|p: int, q: int| 0 <= p < q < es.len() ==> lex_lt(es[p].0, es[q].0)
}

/// Whether some entry carries the name `k`.
pub open spec fn has_name(es: EntrySeq, k: Seq<char>) -> bool {
    exists|i: int| 0 <= i < es.len() && es[i].0 == k
}

/// The index of the entry carrying the name `k`.
pub open spec fn index_of_name(es: EntrySeq, k: Seq<char>) -> int {
    choose|i: int| 0 <= i < es.len() && es[i].0 == k
}

/// The finite map an entry list stands for.
pub open spec fn entries_map(es: EntrySeq) -> Map<Seq<char>, (Seq<char>, Seq<char>)> {
    Map::new(|k: Seq<char>| has_name(es, k), |k: Seq<char>| es[index_of_name(es, k)].1)
}

/// Inserting a version pair for `name` keeps an existing entry whose
/// new-version string is lexicographically greater or equal; otherwise
/// the new pair wins.
pub open spec fn upsert(
    m: Map<Seq<char>, (Seq<char>, Seq<char>)>,
    name: Seq<char>,
    vers: (Seq<char>, Seq<char>),
) -> Map<Seq<char>, (Seq<char>, Seq<char>)> {
    if m.dom().contains(name) && lex_le(vers.1, m[name].1) {
        m
    } else {
        m.insert(name, vers)
    }
}

/// With unique names, the entry at `i` is what the map holds at its name.
proof fn lemma_entries_map_at(es: EntrySeq, i: int)
    requires
        entry_keys_sorted(es),
        0 <= i < es.len(),
    ensures
        entries_map(es).dom().contains(es[i].0),
        entries_map(es)[es[i].0] == es[i].1,
{
    assert(has_name(es, es[i].0));
    let j = index_of_name(es, es[i].0);
    assert(0 <= j < es.len() && es[j].0 == es[i].0);
    if i < j {
        assert(lex_lt(es[i].0, es[j].0));
    } else if j < i {
        assert(lex_lt(es[j].0, es[i].0));
    }
}

/// A deduplicated mapping from package name to its reported update,
/// stored sorted by name.
pub struct UpdateMap {
    entries: Vec<(String, PackageUpdate)>,
}

impl View for UpdateMap {
    type V = Map<Seq<char>, (Seq<char>, Seq<char>)>;

    open spec fn view(&self) -> Map<Seq<char>, (Seq<char>, Seq<char>)> {
        entries_map(self.entries_seq())
    }
}

impl UpdateMap {
    /// The entries, as ghost triples, in storage (and rendering) order.
    pub closed spec fn entries_seq(&self) -> EntrySeq {
        entry_views(self.entries@)
    }

    /// The entry list is sorted strictly by name.
    pub open spec fn wf(&self) -> bool {
        entry_keys_sorted(self.entries_seq())
    }

    /// An empty map.
    pub fn new() -> (m: UpdateMap)
        ensures
            m.wf(),
            m@ == Map::<Seq<char>, (Seq<char>, Seq<char>)>::empty(),
            m.entries_seq() == Seq::<(Seq<char>, (Seq<char>, Seq<char>))>::empty(),
    {
        let m = UpdateMap { entries: Vec::new() };
        proof {
            assert(m.entries_seq() =~= Seq::<(Seq<char>, (Seq<char>, Seq<char>))>::empty());
            assert(m@ =~= Map::<Seq<char>, (Seq<char>, Seq<char>)>::empty());
        }
        m
    }

    /// Whether the map holds no entry.
    pub fn is_empty(&self) -> (r: bool)
        ensures
            r == (self@ == Map::<Seq<char>, (Seq<char>, Seq<char>)>::empty()),
    {
        if self.entries.len() == 0 {
            proof {
                assert(self@ =~= Map::<Seq<char>, (Seq<char>, Seq<char>)>::empty());
            }
            true
        } else {
            proof {
                assert(self.entries_seq()[0].0 == self.entries@[0].0@);
                assert(has_name(self.entries_seq(), self.entries_seq()[0].0));
                assert(self@.dom().contains(self.entries_seq()[0].0));
            }
            false
        }
    }

    /// Whether the map holds an entry for `name`.
    pub fn contains_key(&self, name: &str) -> (r: bool)
        ensures
            r == self@.dom().contains(name@),
    {
        let mut i: usize = 0;
        while i < self.entries.len()
            invariant
                i <= self.entries@.len(),
                forall|j: int| 0 <= j < i ==> self.entries_seq()[j].0 != name@,
            decreases self.entries@.len() - i,
        {
            if str_eq(self.entries[i].0.as_str(), name) {
                proof {
                    assert(self.entries_seq()[i as int].0 == name@);
                    assert(has_name(self.entries_seq(), name@));
                }
                return true;
            }
            i += 1;
        }
        proof {
            assert(!has_name(self.entries_seq(), name@));
        }
        false
    }

    /// The entry for `name`, if any.
    pub fn get(&self, name: &str) -> (r: Option<&PackageUpdate>)
        requires
            self.wf(),
        ensures
            match r {
                Some(u) => self@.dom().contains(name@) && u@ == self@[name@],
                None => !self@.dom().contains(name@),
            },
    {
        let mut i: usize = 0;
        while i < self.entries.len()
            invariant
                i <= self.entries@.len(),
                self.wf(),
                forall|j: int| 0 <= j < i ==> self.entries_seq()[j].0 != name@,
            decreases self.entries@.len() - i,
        {
            if str_eq(self.entries[i].0.as_str(), name) {
                proof {
                    assert(self.entries_seq()[i as int].0 == name@);
                    lemma_entries_map_at(self.entries_seq(), i as int);
                }
                return Some(&self.entries[i].1);
            }
            i += 1;
        }
        proof {
            assert(!has_name(self.entries_seq(), name@));
        }
        None
    }

    /// Insert a reported update, resolving a duplicate name in favour of
    /// the lexicographically greater new-version string.
    pub fn insert_update(&mut self, name: String, update: PackageUpdate)
        requires
            old(self).wf(),
        ensures
            final(self).wf(),
            final(self)@ == upsert(old(self)@, name@, update@),
    {
        let ghost es0 = old(self).entries_seq();
        let mut idx: usize = 0;
        loop
            invariant
                idx <= self.entries@.len(),
                *self == *old(self),
                self.wf(),
                forall|j: int| 0 <= j < idx ==> lex_lt(self.entries_seq()[j].0, name@),
            ensures
                idx <= self.entries@.len(),
                *self == *old(self),
                forall|j: int| 0 <= j < idx ==> lex_lt(self.entries_seq()[j].0, name@),
                idx < self.entries@.len() ==> lex_le(name@, self.entries_seq()[idx as int].0),
            decreases self.entries@.len() - idx,
        {
            if idx == self.entries.len() {
                break;
            }
            if str_lex_le(name.as_str(), self.entries[idx].0.as_str()) {
                break;
            }
            proof {
                lemma_lex_le_total(name@, self.entries_seq()[idx as int].0);
                lemma_lex_le_refl(name@);
            }
            idx += 1;
        }
        if idx < self.entries.len() && str_eq(name.as_str(), self.entries[idx].0.as_str()) {
            proof {
                lemma_entries_map_at(es0, idx as int);
            }
            if str_lex_le(
                update.new_version.as_str(),
                self.entries[idx].1.new_version.as_str(),
            ) {
                // the existing entry outranks the new one; nothing changes
                proof {
                    assert(final(self)@ =~= upsert(old(self)@, name@, update@));
                }
            } else {
                let _ = self.entries.remove(idx);
                self.entries.insert(idx, (name, update));
                proof {
                    let es1 = self.entries_seq();
                    assert(es1 =~= es0.update(idx as int, (name@, update@)));
                    assert forall|p: int, q: int|
                        0 <= p < q < es1.len() implies lex_lt(es1[p].0, es1[q].0) by {
                        assert(lex_lt(es0[p].0, es0[q].0));
                    }
                    assert forall|k: Seq<char>|
                        entries_map(es1).dom().contains(k) == upsert(
                            old(self)@,
                            name@,
                            update@,
                        ).dom().contains(k) by {
                        if has_name(es1, k) {
                            let i = index_of_name(es1, k);
                            assert(es0[i].0 == k || k == name@);
                            assert(has_name(es0, k) || k == name@);
                        }
                        if has_name(es0, k) {
                            let i = index_of_name(es0, k);
                            assert(es1[i].0 == k || k == name@);
                        }
                        if k == name@ {
                            assert(es1[idx as int].0 == k);
                        }
                    }
                    assert forall|k: Seq<char>|
                        entries_map(es1).dom().contains(k) implies entries_map(es1)[k] == upsert(
                        old(self)@,
                        name@,
                        update@,
                    )[k] by {
                        let i = index_of_name(es1, k);
                        assert(0 <= i < es1.len() && es1[i].0 == k);
                        lemma_entries_map_at(es1, i);
                        if k == name@ {
                            if i != idx {
                                assert(es0[i].0 == name@);
                                assert(es0[idx as int].0 == name@);
                                if i < idx {
                                    assert(lex_lt(es0[i].0, es0[idx as int].0));
                                } else {
                                    assert(lex_lt(es0[idx as int].0, es0[i].0));
                                }
                            }
                            assert(entries_map(es1)[k] == update@);
                        } else {
                            assert(es0[i].0 == k);
                            lemma_entries_map_at(es0, i);
                        }
                    }
                    assert(final(self)@ =~= upsert(old(self)@, name@, update@));
                }
            }
        } else {
            proof {
                if idx < self.entries@.len() {
                    assert(name@ != self.entries_seq()[idx as int].0);
                }
                if has_name(es0, name@) {
                    let i = index_of_name(es0, name@);
                    assert(0 <= i < es0.len() && es0[i].0 == name@);
                    if i < idx {
                        assert(lex_lt(es0[i].0, name@));
                    } else {
                        assert(idx < es0.len());
                        assert(name@ != es0[idx as int].0);
                        assert(lex_le(name@, es0[idx as int].0));
                        if i > idx {
                            assert(lex_lt(es0[idx as int].0, es0[i].0));
                            crate::order::lemma_lex_le_antisymm(name@, es0[idx as int].0);
                        }
                    }
                }
                assert(!has_name(es0, name@));
                assert(!old(self)@.dom().contains(name@));
            }
            self.entries.insert(idx, (name, update));
            proof {
                let es1 = self.entries_seq();
                assert(es1 =~= es0.insert(idx as int, (name@, update@)));
                assert forall|p: int, q: int|
                    0 <= p < q < es1.len() implies lex_lt(es1[p].0, es1[q].0) by {
                    if q < idx {
                        assert(lex_lt(es0[p].0, es0[q].0));
                    } else if idx < p {
                        assert(lex_lt(es0[p - 1].0, es0[q - 1].0));
                    } else if p < idx && q == idx {
                        assert(lex_lt(es0[p].0, name@));
                    } else if p < idx && q > idx {
                        assert(lex_lt(es0[p].0, es0[q - 1].0));
                    } else if p == idx && q > idx {
                        assert(lex_le(name@, es0[idx as int].0));
                        if es0[idx as int].0 == name@ {
                            assert(has_name(es0, name@));
                        }
                        assert(lex_lt(name@, es0[idx as int].0));
                        if q == idx + 1 {
                        } else {
                            assert(lex_lt(es0[idx as int].0, es0[q - 1].0));
                            lemma_lex_le_trans(name@, es0[idx as int].0, es0[q - 1].0);
                        }
                    }
                }
                assert forall|k: Seq<char>|
                    entries_map(es1).dom().contains(k) == old(self)@.insert(
                        name@,
                        update@,
                    ).dom().contains(k) by {
                    if has_name(es1, k) {
                        let i = index_of_name(es1, k);
                        if i < idx {
                            assert(es0[i].0 == k);
                        } else if i > idx {
                            assert(es0[i - 1].0 == k);
                        }
                    }
                    if has_name(es0, k) {
                        let i = index_of_name(es0, k);
                        if i < idx {
                            assert(es1[i].0 == k);
                        } else {
                            assert(es1[i + 1].0 == k);
                        }
                    }
                    if k == name@ {
                        assert(es1[idx as int].0 == k);
                    }
                }
                assert forall|k: Seq<char>|
                    entries_map(es1).dom().contains(k) implies entries_map(es1)[k] == old(
                    self,
                )@.insert(name@, update@)[k] by {
                    let i = index_of_name(es1, k);
                    assert(0 <= i < es1.len() && es1[i].0 == k);
                    lemma_entries_map_at(es1, i);
                    if k == name@ {
                        if i != idx {
                            if i < idx {
                                assert(es0[i].0 == name@);
                            } else {
                                assert(es0[i - 1].0 == name@);
                            }
                            assert(has_name(es0, name@));
                        }
                        assert(entries_map(es1)[k] == update@);
                    } else {
                        if i < idx {
                            assert(es0[i].0 == k);
                            lemma_entries_map_at(es0, i);
                        } else {
                            assert(i != idx);
                            assert(es0[i - 1].0 == k);
                            lemma_entries_map_at(es0, i - 1);
                        }
                    }
                }
                assert(final(self)@ =~= upsert(old(self)@, name@, update@));
            }
        }
    }

    /// Keep only the entries whose package is installed and not already
    /// covered by the maintainer map.
    pub fn retain_installed(&mut self, installed: &PackageSet, maintained: &UpdateMap)
        requires
            old(self).wf(),
        ensures
            final(self).wf(),
            final(self)@ == (Map::new(
                |k: Seq<char>|
                    old(self)@.dom().contains(k) && installed@.contains(k)
                        && !maintained@.dom().contains(k),
                |k: Seq<char>| old(self)@[k],
            )),
    {
        let ghost es0 = old(self).entries_seq();
        let mut kept: Vec<(String, PackageUpdate)> = Vec::new();
        let mut i: usize = 0;
        while i < self.entries.len()
            invariant
                i <= self.entries@.len(),
                *self == *old(self),
                self.wf(),
                es0 == old(self).entries_seq(),
                entry_keys_sorted(entry_views(kept@)),
                forall|p: int|
                    0 <= p < kept@.len() ==> has_name(es0, (#[trigger] entry_views(kept@)[p]).0)
                        && installed@.contains(entry_views(kept@)[p].0)
                        && !maintained@.dom().contains(entry_views(kept@)[p].0)
                        && entry_views(kept@)[p].1 == entries_map(es0)[entry_views(kept@)[p].0],
                forall|q: int|
                    0 <= q < i && installed@.contains(#[trigger] es0[q].0)
                        && !maintained@.dom().contains(es0[q].0) ==> has_name(
                        entry_views(kept@),
                        es0[q].0,
                    ),
                forall|p: int, q: int|
                    0 <= p < kept@.len() && i <= q < es0.len() ==> lex_lt(
                        #[trigger] entry_views(kept@)[p].0,
                        #[trigger] es0[q].0,
                    ),
            decreases self.entries@.len() - i,
        {
            let keep_it = installed.contains(self.entries[i].0.as_str()) && !maintained
                .contains_key(self.entries[i].0.as_str());
            if keep_it {
                let ghost ks0 = entry_views(kept@);
                let entry = &self.entries[i];
                let name = entry.0.clone();
                let cur = entry.1.current_version.clone();
                let nv = entry.1.new_version.clone();
                proof {
                    assert(*entry == self.entries@[i as int]);
                    assert(es0[i as int] == (self.entries@[i as int].0@, self.entries@[i as int].1@));
                    assert(name@ == es0[i as int].0);
                    assert(cur@ == es0[i as int].1.0);
                    assert(nv@ == es0[i as int].1.1);
                }
                kept.push((name, PackageUpdate { current_version: cur, new_version: nv }));
                proof {
                    assert(entry_views(kept@) =~= ks0.push(es0[i as int]));
                    assert forall|p: int|
                        0 <= p < kept@.len() implies has_name(
                        es0,
                        (#[trigger] entry_views(kept@)[p]).0,
                    ) && installed@.contains(entry_views(kept@)[p].0) && !maintained@.dom().contains(
                        entry_views(kept@)[p].0,
                    ) && entry_views(kept@)[p].1 == entries_map(es0)[entry_views(kept@)[p].0] by {
                        if p < ks0.len() {
                            assert(entry_views(kept@)[p] == ks0[p]);
                        } else {
                            assert(entry_views(kept@)[p] == es0[i as int]);
                            assert(has_name(es0, es0[i as int].0));
                            lemma_entries_map_at(es0, i as int);
                        }
                    }
                    assert forall|p: int, q: int|
                        0 <= p < q < entry_views(kept@).len() implies lex_lt(
                        entry_views(kept@)[p].0,
                        entry_views(kept@)[q].0,
                    ) by {
                        assert(entry_views(kept@)[p] == ks0[p]);
                        if q < ks0.len() {
                            assert(entry_views(kept@)[q] == ks0[q]);
                        } else {
                            assert(entry_views(kept@)[q] == es0[i as int]);
                            assert(lex_lt(ks0[p].0, es0[i as int].0));
                        }
                    }
                    assert forall|q: int|
                        0 <= q < i + 1 && installed@.contains(#[trigger] es0[q].0)
                            && !maintained@.dom().contains(es0[q].0) implies has_name(
                        entry_views(kept@),
                        es0[q].0,
                    ) by {
                        if q < i {
                            let p = choose|p: int| 0 <= p < ks0.len() && ks0[p].0 == es0[q].0;
                            assert(entry_views(kept@)[p].0 == es0[q].0);
                        } else {
                            assert(entry_views(kept@)[ks0.len() as int].0 == es0[i as int].0);
                        }
                    }
                    assert forall|p: int, q: int|
                        0 <= p < entry_views(kept@).len() && i + 1 <= q < es0.len() implies lex_lt(
                        entry_views(kept@)[p].0,
                        es0[q].0,
                    ) by {
                        if p < ks0.len() {
                            assert(entry_views(kept@)[p] == ks0[p]);
                        } else {
                            assert(entry_views(kept@)[p] == es0[i as int]);
                            assert(lex_lt(es0[i as int].0, es0[q].0));
                        }
                    }
                }
            }
            i += 1;
        }
        let ghost ksv = entry_views(kept@);
        self.entries = kept;
        proof {
            let ks = final(self).entries_seq();
            assert(ks == ksv);
            assert forall|k: Seq<char>|
                entries_map(ks).dom().contains(k) == (old(self)@.dom().contains(k)
                    && installed@.contains(k) && !maintained@.dom().contains(k)) by {
                if has_name(ks, k) {
                    let p = index_of_name(ks, k);
                    assert(0 <= p < ks.len() && ks[p].0 == k);
                    assert(has_name(es0, k));
                }
                if has_name(es0, k) && installed@.contains(k) && !maintained@.dom().contains(k) {
                    let q = index_of_name(es0, k);
                    assert(0 <= q < es0.len() && es0[q].0 == k);
                    assert(has_name(ks, es0[q].0));
                }
            }
            assert forall|k: Seq<char>|
                entries_map(ks).dom().contains(k) implies entries_map(ks)[k] == old(self)@[k] by {
                let p = index_of_name(ks, k);
                assert(0 <= p < ks.len() && ks[p].0 == k);
                lemma_entries_map_at(ks, p);
                assert(ks[p].1 == entries_map(es0)[k]);
            }
            assert(final(self)@ =~= Map::new(
                |k: Seq<char>|
                    old(self)@.dom().contains(k) && installed@.contains(k)
                        && !maintained@.dom().contains(k),
                |k: Seq<char>| old(self)@[k],
            ));
        }
    }

    /// Render one `name<TAB>current -> new` line per entry, in the stored
    /// (sorted) name order.
    pub fn render(&self) -> (out: String)
        ensures
            out@ == render_entries(self.entries_seq()),
    {
        let ghost es = self.entries_seq();
        let mut out = String::new();
        let mut i: usize = 0;
        proof {
            assert(es.take(0) =~= Seq::<(Seq<char>, (Seq<char>, Seq<char>))>::empty());
        }
        while i < self.entries.len()
            invariant
                i <= self.entries@.len(),
                es == self.entries_seq(),
                out@ == render_entries(es.take(i as int)),
            decreases self.entries@.len() - i,
        {
            out.append(self.entries[i].0.as_str());
            out.append("\t");
            out.append(self.entries[i].1.current_version.as_str());
            out.append(" -> ");
            out.append(self.entries[i].1.new_version.as_str());
            out.append("\n");
            proof {
                reveal_strlit("\t");
                reveal_strlit(" -> ");
                reveal_strlit("\n");
                assert("\t"@ =~= seq!['\t']);
                assert(" -> "@ =~= seq![' ', '-', '>', ' ']);
                assert("\n"@ =~= seq!['\n']);
                assert(es.take(i + 1).drop_last() =~= es.take(i as int));
                assert(es.take(i + 1).last() == es[i as int]);
                assert(out@ =~= render_entries(es.take(i + 1)));
            }
            i += 1;
        }
        proof {
            assert(es.take(self.entries@.len() as int) =~= es);
        }
        out
    }
}

/// The rendered form of one entry: `name<TAB>current -> new` and a
/// newline.
pub open spec fn render_line(name: Seq<char>, vers: (Seq<char>, Seq<char>)) -> Seq<char> {
    name + seq!['\t'] + vers.0 + seq![' ', '-', '>', ' '] + vers.1 + seq!['\n']
}

/// The rendered form of an entry list, one line per entry, in list order.
pub open spec fn render_entries(es: EntrySeq) -> Seq<char>
    decreases es.len(),
{
    if es.len() == 0 {
        Seq::empty()
    } else {
        render_entries(es.drop_last()) + render_line(es.last().0, es.last().1)
    }
}

/// Dropping the last entry of a sorted list removes exactly its name
/// from the map the list stands for.
proof fn lemma_entries_map_drop_last(es: EntrySeq)
    requires
        entry_keys_sorted(es),
        es.len() > 0,
    ensures
        entry_keys_sorted(es.drop_last()),
        entries_map(es.drop_last()) == entries_map(es).remove(es.last().0),
{
    let es1 = es.drop_last();
    let k0 = es.last().0;
    assert forall|p: int, q: int| 0 <= p < q < es1.len() implies lex_lt(es1[p].0, es1[q].0) by {
        assert(es1[p] == es[p]);
        assert(es1[q] == es[q]);
    }
    assert forall|k: Seq<char>|
        entries_map(es1).dom().contains(k) == (entries_map(es).dom().contains(k) && k != k0) by {
        if has_name(es1, k) {
            let i = index_of_name(es1, k);
            assert(0 <= i < es1.len() && es1[i].0 == k);
            assert(es[i].0 == k);
            assert(lex_lt(es[i].0, k0));
        }
        if has_name(es, k) && k != k0 {
            let i = index_of_name(es, k);
            assert(0 <= i < es.len() && es[i].0 == k);
            assert(i != es.len() - 1);
            assert(es1[i].0 == k);
        }
    }
    assert forall|k: Seq<char>|
        entries_map(es1).dom().contains(k) implies entries_map(es1)[k] == entries_map(es)[k] by {
        let i = index_of_name(es1, k);
        assert(0 <= i < es1.len() && es1[i].0 == k);
        lemma_entries_map_at(es1, i);
        assert(es[i].0 == k);
        lemma_entries_map_at(es, i);
    }
    assert(entries_map(es1) =~= entries_map(es).remove(k0));
}

/// Two sorted entry lists that stand for the same map are the same
/// list: the lexicographic order fixes the enumeration completely.
pub proof fn lemma_sorted_entries_unique(a: EntrySeq, b: EntrySeq)
    requires
        entry_keys_sorted(a),
        entry_keys_sorted(b),
        entries_map(a) == entries_map(b),
    ensures
        a == b,
    decreases a.len(),
{
    if a.len() == 0 {
        if b.len() > 0 {
            lemma_entries_map_at(b, b.len() - 1);
            assert(has_name(a, b.last().0));
            assert(false);
        }
        assert(a =~= b);
    } else if b.len() == 0 {
        lemma_entries_map_at(a, a.len() - 1);
        assert(has_name(b, a.last().0));
        assert(false);
    } else {
        let ka = a.last().0;
        let kb = b.last().0;
        lemma_entries_map_at(a, a.len() - 1);
        lemma_entries_map_at(b, b.len() - 1);
        assert(has_name(b, ka));
        let ja = index_of_name(b, ka);
        assert(0 <= ja < b.len() && b[ja].0 == ka);
        assert(has_name(a, kb));
        let jb = index_of_name(a, kb);
        assert(0 <= jb < a.len() && a[jb].0 == kb);
        if ja < b.len() - 1 && jb < a.len() - 1 {
            assert(lex_lt(ka, kb));
            assert(lex_lt(kb, ka));
            crate::order::lemma_lex_le_antisymm(ka, kb);
            assert(false);
        }
        assert(ka == kb);
        assert(entries_map(a)[ka] == a.last().1);
        assert(entries_map(b)[ka] == b.last().1);
        assert(a.last() == b.last());
        lemma_entries_map_drop_last(a);
        lemma_entries_map_drop_last(b);
        lemma_sorted_entries_unique(a.drop_last(), b.drop_last());
        assert(a.len() == b.len());
        assert forall|i: int| 0 <= i < a.len() implies a[i] == b[i] by {
            if i < a.len() - 1 {
                assert(a.drop_last()[i] == a[i]);
                assert(b.drop_last()[i] == b[i]);
            }
        }
        assert(a =~= b);
    }
}

/// The printed form depends only on the map: two well-formed update
/// maps with the same contents render to the same text.
pub proof fn lemma_render_determined(a: &UpdateMap, b: &UpdateMap)
    requires
        a.wf(),
        b.wf(),
        a@ == b@,
    ensures
        render_entries(a.entries_seq()) == render_entries(b.entries_seq()),
{
    lemma_sorted_entries_unique(a.entries_seq(), b.entries_seq());
}

} // verus!
