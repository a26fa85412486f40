//! The alias map: alias name to utility string, with a mathematical map of
//! character sequences as its view.

use vstd::prelude::*;

verus! {

/// The mathematical map described by a sequence of key/value pairs; a later
/// pair with the same key overrides an earlier one.
pub open spec fn map_of(kv: Seq<(Seq<char>, Seq<char>)>) -> Map<Seq<char>, Seq<char>>
    decreases kv.len(),
{
    if kv.len() == 0 {
        Map::empty()
    } else {
        map_of(kv.drop_last()).insert(kv.last().0, kv.last().1)
    }
}

pub proof fn lemma_map_of_last(kv: Seq<(Seq<char>, Seq<char>)>, i: int)
    requires
        0 <= i < kv.len(),
        forall|j: int| i < j < kv.len() ==> kv[j].0 != kv[i].0,
    ensures
        map_of(kv).dom().contains(kv[i].0),
        map_of(kv)[kv[i].0] == kv[i].1,
    decreases kv.len(),
{
    if i < kv.len() - 1 {
        assert(forall|j: int| 0 <= j < kv.len() - 1 ==> kv.drop_last()[j] == kv[j]);
        lemma_map_of_last(kv.drop_last(), i);
    }
}

pub proof fn lemma_map_of_absent(kv: Seq<(Seq<char>, Seq<char>)>, k: Seq<char>)
    requires
        forall|j: int| 0 <= j < kv.len() ==> kv[j].0 != k,
    ensures
        !map_of(kv).dom().contains(k),
    decreases kv.len(),
{
    if kv.len() > 0 {
        assert(forall|j: int| 0 <= j < kv.len() - 1 ==> kv.drop_last()[j] == kv[j]);
        lemma_map_of_absent(kv.drop_last(), k);
    }
}

pub proof fn lemma_map_of_dom(kv: Seq<(Seq<char>, Seq<char>)>)
    ensures
        forall|k: Seq<char>|
            #[trigger] map_of(kv).dom().contains(k) <==> exists|j: int|
                0 <= j < kv.len() && kv[j].0 == k,
    decreases kv.len(),
{
    if kv.len() > 0 {
        assert(forall|j: int| 0 <= j < kv.len() - 1 ==> kv.drop_last()[j] == kv[j]);
        lemma_map_of_dom(kv.drop_last());
        assert forall|k: Seq<char>| #[trigger] map_of(kv).dom().contains(k) implies exists|j: int|
            0 <= j < kv.len() && kv[j].0 == k by {
            if k == kv.last().0 {
                assert(kv[kv.len() - 1].0 == k);
            } else {
                assert(map_of(kv.drop_last()).dom().contains(k));
            }
        }
        assert forall|k: Seq<char>| (exists|j: int| 0 <= j < kv.len() && kv[j].0 == k)
            implies #[trigger] map_of(kv).dom().contains(k) by {
            let j = choose|j: int| 0 <= j < kv.len() && kv[j].0 == k;
            if j < kv.len() - 1 {
                assert(kv.drop_last()[j].0 == k);
                assert(map_of(kv.drop_last()).dom().contains(k));
            }
        }
    }
}

pub proof fn lemma_map_of_finite(kv: Seq<(Seq<char>, Seq<char>)>)
    ensures
        map_of(kv).dom().finite(),
    decreases kv.len(),
{
    if kv.len() > 0 {
        lemma_map_of_finite(kv.drop_last());
    }
}

pub proof fn lemma_map_of_update(kv: Seq<(Seq<char>, Seq<char>)>, i: int, v: Seq<char>)
    requires
        0 <= i < kv.len(),
        forall|j: int| i < j < kv.len() ==> kv[j].0 != kv[i].0,
    ensures
        map_of(kv.update(i, (kv[i].0, v))) =~= map_of(kv).insert(kv[i].0, v),
    decreases kv.len(),
{
    let upd = kv.update(i, (kv[i].0, v));
    if i == kv.len() - 1 {
        assert(upd.drop_last() =~= kv.drop_last());
        assert(upd.last() == (kv[i].0, v));
    } else {
        assert(forall|j: int| 0 <= j < kv.len() - 1 ==> kv.drop_last()[j] == kv[j]);
        lemma_map_of_update(kv.drop_last(), i, v);
        assert(upd.drop_last() =~= kv.drop_last().update(i, (kv[i].0, v)));
        assert(upd.last() == kv.last());
        assert(map_of(upd) =~= map_of(kv.drop_last()).insert(kv[i].0, v).insert(
            kv.last().0,
            kv.last().1,
        ));
    }
}

/// A mapping from alias names to utility strings, stored as a vector of
/// pairs.  A later entry with the same key overrides an earlier one, so the
/// view is [`map_of`] over the entries.
pub struct AliasMap {
    entries: Vec<(String, String)>,
}

impl AliasMap {
    /// The entries, as views, in storage order.
    pub closed spec fn kv(&self) -> Seq<(Seq<char>, Seq<char>)> {
        self.entries@.map_values(|e: (String, String)| (e.0@, e.1@))
    }

    /// The number of stored entries.
    pub fn num_entries(&self) -> (n: usize)
        ensures
            n == self.kv().len(),
    {
        self.entries.len()
    }

    /// The key of the entry at `i`.
    pub fn key_at(&self, i: usize) -> (k: &String)
        requires
            i < self.kv().len(),
        ensures
            k@ == self.kv()[i as int].0,
    {
        &self.entries[i].0
    }

    /// The value of the entry at `i`.
    pub fn value_at(&self, i: usize) -> (v: &String)
        requires
            i < self.kv().len(),
        ensures
            v@ == self.kv()[i as int].1,
    {
        &self.entries[i].1
    }

    /// The view is the map described by the entries.
    pub proof fn lemma_view(&self)
        ensures
            self@ == map_of(self.kv()),
    {
    }

    pub proof fn lemma_view_finite(&self)
        ensures
            self@.dom().finite(),
    {
        lemma_map_of_finite(self.kv());
    }

    /// An empty map.
    pub fn new() -> (m: AliasMap)
        ensures
            m@ =~= Map::<Seq<char>, Seq<char>>::empty(),
            m.kv() =~= Seq::<(Seq<char>, Seq<char>)>::empty(),
    {
        let m = AliasMap { entries: Vec::new() };
        proof {
            assert(m.kv() =~= Seq::<(Seq<char>, Seq<char>)>::empty());
        }
        m
    }

    /// Adds or replaces the binding of `key`.
    pub fn insert(&mut self, key: String, value: String)
        ensures
            final(self)@ =~= old(self)@.insert(key@, value@),
            final(self).kv() =~= old(self).kv().push((key@, value@)),
    {
        let ghost k = key@;
        let ghost v = value@;
        self.entries.push((key, value));
        proof {
            assert(self.kv() =~= old(self).kv().push((k, v)));
            assert(self.kv().drop_last() =~= old(self).kv());
        }
    }

    /// The index of the last entry whose key is `key`, if any.
    fn find_last_idx(&self, key: &str) -> (r: Option<usize>)
        ensures
            match r {
                Some(i) => i < self.kv().len() && self.kv()[i as int].0 == key@ && forall|j: int|
                    i < j < self.kv().len() ==> self.kv()[j].0 != key@,
                None => forall|j: int| 0 <= j < self.kv().len() ==> self.kv()[j].0 != key@,
            },
    {
        let n = self.entries.len();
        let mut i = n;
        while i > 0
            invariant
                0 <= i <= n,
                n == self.kv().len(),
                forall|j: int| i <= j < n ==> self.kv()[j].0 != key@,
            decreases i,
        {
            if crate::text::str_eq(self.entries[i - 1].0.as_str(), key) {
                return Some(i - 1);
            }
            i = i - 1;
        }
        None
    }

    /// Looks `key` up; `Some` exactly when the view's domain has it.
    pub fn get(&self, key: &str) -> (r: Option<&String>)
        ensures
            match r {
                Some(v) => self@.dom().contains(key@) && v@ == self@[key@],
                None => !self@.dom().contains(key@),
            },
    {
        match self.find_last_idx(key) {
            Some(i) => {
                proof {
                    lemma_map_of_last(self.kv(), i as int);
                }
                Some(&self.entries[i].1)
            },
            None => {
                proof {
                    lemma_map_of_absent(self.kv(), key@);
                }
                None
            },
        }
    }

    /// Whether the map binds `key`.
    pub fn contains_key(&self, key: &str) -> (r: bool)
        ensures
            r == self@.dom().contains(key@),
    {
        match self.get(key) {
            Some(_) => true,
            None => false,
        }
    }

    /// Appends a utility list to the raw value of `key`, behind a single
    /// space; a first list starts from the empty value.
    pub(crate) fn append_value(&mut self, key: &str, utilities: &str)
        ensures
            final(self)@ =~= old(self)@.insert(
                key@,
                (if old(self)@.dom().contains(key@) {
                    old(self)@[key@]
                } else {
                    Seq::<char>::empty()
                }) + seq![' '] + utilities@,
            ),
    {
        proof {
            reveal_strlit(" ");
            assert(" "@ =~= seq![' ']);
        }
        match self.find_last_idx(key) {
            Some(i) => {
                proof {
                    lemma_map_of_last(self.kv(), i as int);
                }
                let ghost old_kv = self.kv();
                let k = self.entries[i].0.clone();
                let mut nv = self.entries[i].1.clone();
                nv.append(" ");
                nv.append(utilities);
                self.entries[i] = (k, nv);
                proof {
                    assert(self.kv() =~= old_kv.update(
                        i as int,
                        (old_kv[i as int].0, old_kv[i as int].1 + seq![' '] + utilities@),
                    ));
                    lemma_map_of_update(
                        old_kv,
                        i as int,
                        old_kv[i as int].1 + seq![' '] + utilities@,
                    );
                }
            },
            None => {
                proof {
                    lemma_map_of_absent(self.kv(), key@);
                }
                let mut nv = String::new();
                nv.append(" ");
                nv.append(utilities);
                proof {
                    assert(nv@ =~= Seq::<char>::empty() + seq![' '] + utilities@);
                }
                self.insert(key.to_owned(), nv);
            },
        }
    }
}

impl View for AliasMap {
    type V = Map<Seq<char>, Seq<char>>;

    closed spec fn view(&self) -> Map<Seq<char>, Seq<char>> {
        map_of(self.kv())
    }
}

} // verus!
