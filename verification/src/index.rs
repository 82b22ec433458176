//! The in-memory index: the latest live record for each key. Tombstones are
//! never held here. The view is the map from keys to records.

use vstd::prelude::*;

use crate::buffer::{is_tombstone, model_bounds, BufModel, Buffer};

verus! {

broadcast use vstd::utf8::encode_utf8_decode_utf8;

/// Whether two strings hold the same characters.
pub fn str_eq(a: &str, b: &str) -> (r: bool)
    ensures
        r == (a@ == b@),
{
    let ab = a.as_bytes();
    let bb = b.as_bytes();
    if ab.len() != bb.len() {
        return false;
    }
    let mut i: usize = 0;
    while i < ab.len()
        invariant
            ab@ == vstd::utf8::encode_utf8(a@),
            bb@ == vstd::utf8::encode_utf8(b@),
            ab@.len() == bb@.len(),
            i <= ab@.len(),
            forall|j: int| 0 <= j < i ==> ab@[j] == bb@[j],
        decreases ab@.len() - i,
    {
        if ab[i] != bb[i] {
            return false;
        }
        i = i + 1;
    }
    proof {
        assert(ab@ =~= bb@);
        assert(vstd::utf8::decode_utf8(vstd::utf8::encode_utf8(a@)) == a@);
        assert(vstd::utf8::decode_utf8(vstd::utf8::encode_utf8(b@)) == b@);
    }
    true
}

/// The map described by a sequence of records, later entries winning.
pub open spec fn entries_map(s: Seq<BufModel>) -> Map<Seq<char>, BufModel>
    decreases s.len(),
{
    if s.len() == 0 {
        Map::empty()
    } else {
        entries_map(s.drop_last()).insert(s.last().key, s.last())
    }
}

/// A record fit to be held: live and within the model bounds.
pub open spec fn entry_ok(m: BufModel) -> bool {
    &&& !is_tombstone(m)
    &&& model_bounds(m)
}

/// The latest live record for each key.
pub struct Index {
    entries: Vec<Buffer>,
}

impl View for Index {
    type V = Map<Seq<char>, BufModel>;

    closed spec fn view(&self) -> Map<Seq<char>, BufModel> {
        entries_map(self.entries@.map_values(|b: Buffer| b@))
    }
}

impl Index {
    /// The records held, one per key.
    pub closed spec fn models(&self) -> Seq<BufModel> {
        self.entries@.map_values(|b: Buffer| b@)
    }

    /// Every entry is fit to hold, keyed once, under its own key.
    pub closed spec fn wf(&self) -> bool {
        &&& forall|i: int|
            #![trigger self.models()[i]]
            0 <= i < self.models().len() ==> entry_ok(self.models()[i])
        &&& forall|i: int, j: int|
            #![trigger self.models()[i], self.models()[j]]
            0 <= i < j < self.models().len() ==> self.models()[i].key != self.models()[j].key
    }

    /// With every key held once, each entry is the one its key maps to, and
    /// the map holds exactly one key per entry.
    pub proof fn lemma_entries_lookup(s: Seq<BufModel>)
        requires
            forall|a: int, b: int|
                #![trigger s[a], s[b]]
                0 <= a < b < s.len() ==> s[a].key != s[b].key,
        ensures
            forall|i: int|
                #![trigger s[i]]
                0 <= i < s.len() ==> entries_map(s).contains_key(s[i].key) && entries_map(s)[
                    s[i].key] == s[i],
            forall|k: Seq<char>| #[trigger]
                entries_map(s).contains_key(k) ==> exists|i: int|
                    0 <= i < s.len() && (#[trigger] s[i]).key == k,
            entries_map(s).dom().len() == s.len(),
            entries_map(s).dom().finite(),
        decreases s.len(),
    {
        if s.len() == 0 {
            assert(entries_map(s).dom() =~= Set::<Seq<char>>::empty());
        } else {
            let t = s.drop_last();
            let last = s.last();
            assert(forall|a: int, b: int|
                #![trigger t[a], t[b]]
                0 <= a < b < t.len() ==> t[a].key != t[b].key) by {
                assert(forall|a: int| 0 <= a < t.len() ==> t[a] == s[a]);
            }
            Self::lemma_entries_lookup(t);
            assert forall|i: int| #![trigger s[i]] 0 <= i < s.len() implies entries_map(
                s,
            ).contains_key(s[i].key) && entries_map(s)[s[i].key] == s[i] by {
                if i < s.len() - 1 {
                    assert(t[i] == s[i]);
                    assert(s[i].key != last.key);
                }
            }
            assert forall|k: Seq<char>| #[trigger]
                entries_map(s).contains_key(k) implies exists|i: int|
                0 <= i < s.len() && (#[trigger] s[i]).key == k by {
                if k == last.key {
                    assert(0 <= s.len() - 1 < s.len() && s[s.len() - 1].key == k);
                } else {
                    assert(entries_map(t).contains_key(k));
                    let i = choose|i: int| 0 <= i < t.len() && (#[trigger] t[i]).key == k;
                    assert(s[i] == t[i]);
                    assert(0 <= i < s.len() && s[i].key == k);
                }
            }
            assert(!entries_map(t).contains_key(last.key)) by {
                if entries_map(t).contains_key(last.key) {
                    let i = choose|i: int| 0 <= i < t.len() && (#[trigger] t[i]).key == last.key;
                    assert(s[i] == t[i]);
                    assert(s[i].key != s[s.len() - 1].key);
                }
            }
            assert(entries_map(s).dom() =~= entries_map(t).dom().insert(last.key));
            vstd::set::axiom_set_insert_finite(entries_map(t).dom(), last.key);
            vstd::set::axiom_set_insert_len(entries_map(t).dom(), last.key);
        }
    }

    /// With every key held once, each entry is the one its key maps to.
    pub proof fn lemma_wf_lookup(&self)
        requires
            self.wf(),
        ensures
            forall|i: int|
                #![trigger self.models()[i]]
                0 <= i < self.models().len() ==> self@.contains_key(self.models()[i].key)
                    && self@[self.models()[i].key] == self.models()[i],
            forall|k: Seq<char>| #[trigger]
                self@.contains_key(k) ==> exists|i: int|
                    0 <= i < self.models().len() && (#[trigger] self.models()[i]).key == k,
            self@.dom().len() == self.models().len(),
    {
        Self::lemma_entries_lookup(self.models());
    }

    /// What well-formedness gives a caller: the view is the entries' map,
    /// every entry is fit to hold, and no key is held twice.
    pub proof fn lemma_wf_facts(&self)
        requires
            self.wf(),
        ensures
            self@ == entries_map(self.models()),
            forall|i: int|
                #![trigger self.models()[i]]
                0 <= i < self.models().len() ==> entry_ok(self.models()[i]),
            forall|i: int, j: int|
                #![trigger self.models()[i], self.models()[j]]
                0 <= i < j < self.models().len() ==> self.models()[i].key != self.models()[j].key,
    {
    }

    /// An empty index.
    pub fn new() -> (r: Self)
        ensures
            r.wf(),
            r@ == Map::<Seq<char>, BufModel>::empty(),
            r.models() == Seq::<BufModel>::empty(),
    {
        let r = Index { entries: Vec::new() };
        proof {
            assert(r.models() =~= Seq::<BufModel>::empty());
        }
        r
    }

    /// How many keys are held.
    pub fn len(&self) -> (r: usize)
        requires
            self.wf(),
        ensures
            r == self@.dom().len(),
    {
        proof {
            self.lemma_wf_lookup();
        }
        self.entries.len()
    }

    /// The record under `key`, if one is held.
    pub fn get(&self, key: &str) -> (r: Option<&Buffer>)
        requires
            self.wf(),
        ensures
            match r {
                Some(b) => self@.contains_key(key@) && self@[key@] == b@,
                None => !self@.contains_key(key@),
            },
    {
        proof {
            self.lemma_wf_lookup();
        }
        let mut i: usize = 0;
        while i < self.entries.len()
            invariant
                self.wf(),
                i <= self.models().len(),
                forall|j: int| 0 <= j < i ==> self.models()[j].key != key@,
                forall|j: int|
                    0 <= j < self.models().len() ==> self@.contains_key(
                        #[trigger] self.models()[j].key,
                    ) && self@[self.models()[j].key] == self.models()[j],
                forall|k: Seq<char>| #[trigger]
                    self@.contains_key(k) ==> exists|j: int|
                        0 <= j < self.models().len() && #[trigger] self.models()[j].key == k,
            decreases self.models().len() - i,
        {
            if str_eq(self.entries[i].key(), key) {
                proof {
                    assert(self.models()[i as int] == self.entries@[i as int]@);
                }
                return Some(&self.entries[i]);
            }
            i = i + 1;
        }
        None
    }

    /// Puts `buffer` under its key, replacing what was there; reports whether
    /// the key was already held.
    pub fn insert(&mut self, buffer: Buffer) -> (duplicated: bool)
        requires
            old(self).wf(),
            entry_ok(buffer@),
        ensures
            final(self).wf(),
            final(self)@ == old(self)@.insert(buffer@.key, buffer@),
            duplicated == old(self)@.contains_key(buffer@.key),
    {
        proof {
            self.lemma_wf_lookup();
        }
        let ghost before = self.models();
        let mut i: usize = 0;
        while i < self.entries.len()
            invariant
                self.wf(),
                old(self).wf(),
                entry_ok(buffer@),
                self.models() == before,
                old(self).models() == before,
                old(self)@ == entries_map(before),
                i <= before.len(),
                forall|j: int| 0 <= j < i ==> before[j].key != buffer@.key,
                forall|j: int|
                    0 <= j < before.len() ==> self@.contains_key(#[trigger] before[j].key)
                        && self@[before[j].key] == before[j],
                forall|k: Seq<char>| #[trigger]
                    self@.contains_key(k) ==> exists|j: int|
                        0 <= j < before.len() && #[trigger] before[j].key == k,
            decreases before.len() - i,
        {
            if str_eq(self.entries[i].key(), buffer.key()) {
                proof {
                    assert(self.models()[i as int] == self.entries@[i as int]@);
                }
                self.entries.set(i, buffer);
                proof {
                    assert(self.models() =~= before.update(i as int, buffer@));
                    Self::lemma_update_map(before, i as int, buffer@);
                    assert(forall|j: int|
                        0 <= j < self.models().len() ==> (#[trigger] self.models()[j]).key
                            == before[j].key);
                    assert forall|j: int| 0 <= j < self.models().len() implies entry_ok(
                        #[trigger] self.models()[j],
                    ) by {
                        if j == i as int {
                            assert(self.models()[j] == buffer@);
                        } else {
                            assert(self.models()[j] == before[j]);
                            assert(before[j] == old(self).models()[j]);
                        }
                    }
                    assert forall|a: int, b: int|
                        0 <= a < b < self.models().len() implies (#[trigger] self.models()[a]).key
                        != (#[trigger] self.models()[b]).key by {
                        assert(old(self).models()[a].key != old(self).models()[b].key);
                    }
                }
                return true;
            }
            i = i + 1;
        }
        self.entries.push(buffer);
        proof {
            assert(self.models() =~= before.push(buffer@));
            assert(self.models().drop_last() =~= before);
            assert(self@ =~= old(self)@.insert(buffer@.key, buffer@));
        }
        false
    }

    proof fn lemma_update_map(s: Seq<BufModel>, i: int, m: BufModel)
        requires
            0 <= i < s.len(),
            s[i].key == m.key,
            forall|a: int, b: int| 0 <= a < b < s.len() ==> s[a].key != s[b].key,
        ensures
            entries_map(s.update(i, m)) == entries_map(s).insert(m.key, m),
        decreases s.len(),
    {
        let t = s.update(i, m);
        if i == s.len() - 1 {
            assert(t.drop_last() =~= s.drop_last());
            assert(t.last() == m);
            assert(entries_map(t) =~= entries_map(s).insert(m.key, m));
        } else {
            assert(t.drop_last() =~= s.drop_last().update(i, m));
            Self::lemma_update_map(s.drop_last(), i, m);
            assert(t.last() == s.last());
            assert(entries_map(t) =~= entries_map(s).insert(m.key, m));
        }
    }

    proof fn lemma_remove_map(s: Seq<BufModel>, i: int)
        requires
            0 <= i < s.len(),
            forall|a: int, b: int| 0 <= a < b < s.len() ==> s[a].key != s[b].key,
        ensures
            entries_map(s.remove(i)) == entries_map(s).remove(s[i].key),
        decreases s.len(),
    {
        let t = s.remove(i);
        if i == s.len() - 1 {
            assert(t =~= s.drop_last());
            let u = s.drop_last();
            assert(forall|a: int, b: int|
                #![trigger u[a], u[b]]
                0 <= a < b < u.len() ==> u[a].key != u[b].key) by {
                assert(forall|a: int| 0 <= a < u.len() ==> u[a] == s[a]);
            }
            Self::lemma_entries_lookup(u);
            assert(!entries_map(u).contains_key(s.last().key)) by {
                if entries_map(u).contains_key(s.last().key) {
                    let w = choose|w: int| 0 <= w < u.len() && (#[trigger] u[w]).key == s.last().key;
                    assert(s[w] == u[w]);
                    assert(s[w].key != s[s.len() - 1].key);
                }
            }
            assert(entries_map(t) =~= entries_map(s).remove(s[i].key));
        } else {
            assert(t.drop_last() =~= s.drop_last().remove(i));
            Self::lemma_remove_map(s.drop_last(), i);
            assert(t.last() == s.last());
            assert(entries_map(t) =~= entries_map(s).remove(s[i].key));
        }
    }

    /// Takes the record under `key` out, if one is held.
    pub fn remove(&mut self, key: &str) -> (present: bool)
        requires
            old(self).wf(),
        ensures
            final(self).wf(),
            final(self)@ == old(self)@.remove(key@),
            present == old(self)@.contains_key(key@),
    {
        proof {
            self.lemma_wf_lookup();
        }
        let ghost before = self.models();
        let mut i: usize = 0;
        while i < self.entries.len()
            invariant
                self.wf(),
                self.models() == before,
                old(self).models() == before,
                old(self)@ == entries_map(before),
                i <= before.len(),
                forall|j: int| 0 <= j < i ==> before[j].key != key@,
                forall|j: int|
                    0 <= j < before.len() ==> self@.contains_key(#[trigger] before[j].key)
                        && self@[before[j].key] == before[j],
                forall|k: Seq<char>| #[trigger]
                    self@.contains_key(k) ==> exists|j: int|
                        0 <= j < before.len() && #[trigger] before[j].key == k,
            decreases before.len() - i,
        {
            if str_eq(self.entries[i].key(), key) {
                self.entries.remove(i);
                proof {
                    assert(self.models() =~= before.remove(i as int));
                    Self::lemma_remove_map(before, i as int);
                }
                return true;
            }
            i = i + 1;
        }
        proof {
            assert(self@ =~= old(self)@.remove(key@));
        }
        false
    }

    /// How many records are held, as entries.
    pub fn entry_count(&self) -> (r: usize)
        ensures
            r == self.models().len(),
    {
        self.entries.len()
    }

    /// The `i`th record held.
    pub fn entry_at(&self, i: usize) -> (r: &Buffer)
        requires
            i < self.models().len(),
        ensures
            r@ == self.models()[i as int],
    {
        &self.entries[i]
    }

    /// Clears the index.
    pub fn clear(&mut self)
        ensures
            final(self).wf(),
            final(self)@ == Map::<Seq<char>, BufModel>::empty(),
            final(self).models() == Seq::<BufModel>::empty(),
    {
        self.entries = Vec::new();
        proof {
            assert(self.models() =~= Seq::<BufModel>::empty());
        }
    }
}

} // verus!
