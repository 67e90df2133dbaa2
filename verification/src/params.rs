//! Query parameters: values for the `{name}` placeholders of a template.
use vstd::prelude::*;

verus! {

/// No key occurs twice.
pub open spec fn keys_distinct(entries: Seq<(Seq<char>, Seq<char>)>) -> bool {
    forall|i: int, j: int|
        0 <= i < entries.len() && 0 <= j < entries.len() && i != j ==> #[trigger] entries[i].0
            != #[trigger] entries[j].0
}

/// Some entry has key `k`.
pub open spec fn has_key(entries: Seq<(Seq<char>, Seq<char>)>, k: Seq<char>) -> bool {
    exists|i: int| 0 <= i < entries.len() && (#[trigger] entries[i]).0 == k
}

/// The value of the entry named `k`, or `None` when no entry is.
pub open spec fn value_of(entries: Seq<(Seq<char>, Seq<char>)>, k: Seq<char>) -> Option<Seq<char>> {
    if has_key(entries, k) {
        Some(entries[choose|i: int| 0 <= i < entries.len() && (#[trigger] entries[i]).0 == k].1)
    } else {
        None
    }
}

/// `after` is `before` with `k` set to `v`: the entry of `k` takes the new
/// value in its place, or a new entry goes at the end.
pub open spec fn inserted(
    before: Seq<(Seq<char>, Seq<char>)>,
    after: Seq<(Seq<char>, Seq<char>)>,
    k: Seq<char>,
    v: Seq<char>,
) -> bool {
    &&& has_key(before, k) ==> exists|i: int|
        0 <= i < before.len() && before[i].0 == k && after == before.update(i, (k, v))
    &&& !has_key(before, k) ==> after == before.push((k, v))
}

/// A map from parameter names to values that keeps the order in which the
/// names were first set. No name occurs twice.
#[derive(Debug)]
pub struct ParamMap {
    entries: Vec<(String, String)>,
}

impl View for ParamMap {
    type V = Seq<(Seq<char>, Seq<char>)>;

    /// The (name, value) pairs in the order the names were first set.
    closed spec fn view(&self) -> Seq<(Seq<char>, Seq<char>)> {
        self.entries@.map_values(|e: (String, String)| (e.0@, e.1@))
    }
}

impl ParamMap {
    #[verifier::type_invariant]
    closed spec fn wf(&self) -> bool {
        keys_distinct(self@)
    }

    /// The map with no entries.
    pub fn new() -> (r: Self)
        ensures
            r@ == Seq::<(Seq<char>, Seq<char>)>::empty(),
    {
        let r = ParamMap { entries: Vec::new() };
        assert(r@ =~= Seq::<(Seq<char>, Seq<char>)>::empty());
        r
    }

    /// The number of entries (and: no name occurs twice).
    pub fn len(&self) -> (r: usize)
        ensures
            r == self@.len(),
            keys_distinct(self@),
    {
        proof {
            use_type_invariant(self);
        }
        self.entries.len()
    }

    /// The entry at position `i`.
    pub fn entry(&self, i: usize) -> (r: (&String, &String))
        requires
            i < self@.len(),
        ensures
            r.0@ == self@[i as int].0,
            r.1@ == self@[i as int].1,
    {
        let e = &self.entries[i];
        (&e.0, &e.1)
    }

    /// The position of the entry named `key`.
    pub fn position(&self, key: &String) -> (r: Option<usize>)
        ensures
            match r {
                Some(i) => i < self@.len() && self@[i as int].0 == key@,
                None => !has_key(self@, key@),
            },
    {
        let mut i: usize = 0;
        while i < self.entries.len()
            invariant
                i <= self.entries.len(),
                forall|j: int| 0 <= j < i ==> self@[j].0 != key@,
            decreases self.entries.len() - i,
        {
            if self.entries[i].0 == *key {
                return Some(i);
            }
            i = i + 1;
        }
        proof {
            assert forall|j: int| 0 <= j < self@.len() implies (#[trigger] self@[j]).0 != key@ by {}
        }
        None
    }

    /// Whether some entry is named `key`.
    pub fn contains_key(&self, key: &String) -> (r: bool)
        ensures
            r == has_key(self@, key@),
    {
        self.position(key).is_some()
    }

    /// The value of the entry named `key`.
    pub fn get(&self, key: &String) -> (r: Option<&String>)
        ensures
            match r {
                Some(v) => value_of(self@, key@) == Some(v@),
                None => value_of(self@, key@) is None,
            },
    {
        proof {
            use_type_invariant(self);
        }
        match self.position(key) {
            Some(i) => {
                proof {
                    let j = choose|j: int| 0 <= j < self@.len() && (#[trigger] self@[j]).0 == key@;
                    assert(self@[i as int].0 == self@[j].0);
                }
                Some(&self.entries[i].1)
            },
            None => None,
        }
    }

    /// Sets the value of `key`: an existing entry keeps its place and takes the
    /// new value; a new name is added at the end.
    pub fn insert(&mut self, key: String, value: String)
        ensures
            inserted(old(self)@, final(self)@, key@, value@),
    {
        proof {
            use_type_invariant(&*self);
        }
        match self.position(&key) {
            Some(i) => {
                let ghost before = self@;
                let mut entries = Vec::new();
                std::mem::swap(&mut entries, &mut self.entries);
                entries.set(i, (key, value));
                proof {
                    assert(entries@.map_values(|e: (String, String)| (e.0@, e.1@)) =~= before.update(
                        i as int,
                        (key@, value@),
                    ));
                }
                self.entries = entries;
            },
            None => {
                let ghost before = self@;
                let mut entries = Vec::new();
                std::mem::swap(&mut entries, &mut self.entries);
                entries.push((key, value));
                proof {
                    assert(entries@.map_values(|e: (String, String)| (e.0@, e.1@)) =~= before.push(
                        (key@, value@),
                    ));
                }
                self.entries = entries;
            },
        }
    }

    /// Removes every entry.
    pub fn clear(&mut self)
        ensures
            final(self)@ == Seq::<(Seq<char>, Seq<char>)>::empty(),
    {
        self.entries = Vec::new();
        assert(self@ =~= Seq::<(Seq<char>, Seq<char>)>::empty());
    }

    /// A copy of the map.
    pub fn copy(&self) -> (r: ParamMap)
        ensures
            r@ == self@,
    {
        let mut entries: Vec<(String, String)> = Vec::new();
        let mut i: usize = 0;
        while i < self.entries.len()
            invariant
                i <= self.entries.len(),
                entries@.map_values(|e: (String, String)| (e.0@, e.1@)) == self@.take(i as int),
            decreases self.entries.len() - i,
        {
            let e = &self.entries[i];
            let k = e.0.clone();
            let v = e.1.clone();
            assert(self@[i as int] == (k@, v@));
            let ghost before = entries@;
            entries.push((k, v));
            assert(entries@.map_values(|e: (String, String)| (e.0@, e.1@)) =~= before.map_values(
                |e: (String, String)| (e.0@, e.1@),
            ).push((k@, v@)));
            i = i + 1;
            assert(entries@.map_values(|e: (String, String)| (e.0@, e.1@)) =~= self@.take(
                i as int,
            ));
        }
        assert(self@.take(self.entries.len() as int) =~= self@);
        proof {
            use_type_invariant(self);
        }
        ParamMap { entries }
    }
}

/// Some entry names `k` with value `w`.
pub open spec fn has_entry(entries: Seq<(Seq<char>, Seq<char>)>, k: Seq<char>, w: Seq<char>) -> bool {
    exists|i: int| 0 <= i < entries.len() && #[trigger] entries[i] == (k, w)
}

/// Setting a parameter: afterwards its name reads back the new value only,
/// every other name reads what it read before, and no name occurs twice.
pub proof fn lemma_insert_then_read(
    before: Seq<(Seq<char>, Seq<char>)>,
    after: Seq<(Seq<char>, Seq<char>)>,
    k: Seq<char>,
    v: Seq<char>,
)
    requires
        keys_distinct(before),
        inserted(before, after, k, v),
    ensures
        keys_distinct(after),
        has_entry(after, k, v),
        forall|w: Seq<char>| #[trigger] has_entry(after, k, w) ==> w == v,
        forall|k2: Seq<char>, w: Seq<char>|
            k2 != k ==> (#[trigger] has_entry(after, k2, w) <==> has_entry(before, k2, w)),
        value_of(after, k) == Some(v),
        forall|k2: Seq<char>| k2 != k ==> #[trigger] value_of(after, k2) == value_of(before, k2),
{
    lemma_insert_entries(before, after, k, v);
    let j = choose|j: int| 0 <= j < after.len() && (#[trigger] after[j]).0 == k;
    assert(has_entry(after, k, after[j].1));
    assert forall|k2: Seq<char>| k2 != k implies #[trigger] value_of(after, k2) == value_of(before, k2) by {
        if has_key(after, k2) {
            let ja = choose|ja: int| 0 <= ja < after.len() && (#[trigger] after[ja]).0 == k2;
            assert(has_entry(after, k2, after[ja].1));
            let i = choose|i: int| 0 <= i < before.len() && #[trigger] before[i] == (k2, after[ja].1);
            let ib = choose|ib: int| 0 <= ib < before.len() && (#[trigger] before[ib]).0 == k2;
            assert(before[i].0 == before[ib].0);
        } else if has_key(before, k2) {
            let ib = choose|ib: int| 0 <= ib < before.len() && (#[trigger] before[ib]).0 == k2;
            assert(before[ib] == (k2, before[ib].1));
            assert(has_entry(before, k2, before[ib].1));
            assert(has_entry(after, k2, before[ib].1));
            let ja = choose|ja: int| 0 <= ja < after.len() && #[trigger] after[ja] == (k2, before[ib].1);
            assert(after[ja].0 == k2);
        }
    }
}

/// The entries after setting a parameter, as `lemma_insert_then_read` states them.
proof fn lemma_insert_entries(
    before: Seq<(Seq<char>, Seq<char>)>,
    after: Seq<(Seq<char>, Seq<char>)>,
    k: Seq<char>,
    v: Seq<char>,
)
    requires
        keys_distinct(before),
        inserted(before, after, k, v),
    ensures
        keys_distinct(after),
        has_entry(after, k, v),
        forall|w: Seq<char>| #[trigger] has_entry(after, k, w) ==> w == v,
        forall|k2: Seq<char>, w: Seq<char>|
            k2 != k ==> (#[trigger] has_entry(after, k2, w) <==> has_entry(before, k2, w)),
{
    if has_key(before, k) {
        let i = choose|i: int|
            0 <= i < before.len() && before[i].0 == k && after == before.update(i, (k, v));
        assert(after[i] == (k, v));
        assert forall|w: Seq<char>| #[trigger] has_entry(after, k, w) implies w == v by {
            let j = choose|j: int| 0 <= j < after.len() && #[trigger] after[j] == (k, w);
            if j != i {
                assert(before[j].0 == before[i].0);
            }
        }
        assert forall|k2: Seq<char>, w: Seq<char>|
            k2 != k implies (#[trigger] has_entry(after, k2, w) <==> has_entry(before, k2, w)) by {
            if has_entry(after, k2, w) {
                let j = choose|j: int| 0 <= j < after.len() && #[trigger] after[j] == (k2, w);
                assert(before[j] == after[j]);
            }
            if has_entry(before, k2, w) {
                let j = choose|j: int| 0 <= j < before.len() && #[trigger] before[j] == (k2, w);
                assert(after[j] == before[j]);
            }
        }
        assert forall|a: int, b: int|
            0 <= a < after.len() && 0 <= b < after.len() && a != b implies #[trigger] after[a].0
            != #[trigger] after[b].0 by {
            if a != i && b != i {
                assert(before[a].0 != before[b].0);
            } else if a == i {
                assert(before[b].0 != before[i].0);
            } else {
                assert(before[a].0 != before[i].0);
            }
        }
    } else {
        let n = before.len() as int;
        assert(after[n] == (k, v));
        assert forall|w: Seq<char>| #[trigger] has_entry(after, k, w) implies w == v by {
            let j = choose|j: int| 0 <= j < after.len() && #[trigger] after[j] == (k, w);
            if j != n {
                assert(before[j].0 == k);
                assert(!has_key(before, k));
            }
        }
        assert forall|k2: Seq<char>, w: Seq<char>|
            k2 != k implies (#[trigger] has_entry(after, k2, w) <==> has_entry(before, k2, w)) by {
            if has_entry(after, k2, w) {
                let j = choose|j: int| 0 <= j < after.len() && #[trigger] after[j] == (k2, w);
                assert(before[j] == after[j]);
            }
            if has_entry(before, k2, w) {
                let j = choose|j: int| 0 <= j < before.len() && #[trigger] before[j] == (k2, w);
                assert(after[j] == before[j]);
            }
        }
        assert forall|a: int, b: int|
            0 <= a < after.len() && 0 <= b < after.len() && a != b implies #[trigger] after[a].0
            != #[trigger] after[b].0 by {
            if a != n && b != n {
                assert(before[a].0 != before[b].0);
            } else if a == n {
                assert(before[b] == after[b]);
                assert(!has_key(before, k));
            } else {
                assert(before[a] == after[a]);
                assert(!has_key(before, k));
            }
        }
    }
}

} // verus!
