use vstd::prelude::*;

verus! {

/// The map that a sequence of (key, value) pairs describes; a later pair wins.
pub open spec fn map_of(s: Seq<(Seq<char>, Seq<char>)>) -> Map<Seq<char>, Seq<char>>
    decreases s.len(),
{
    if s.len() == 0 {
        Map::empty()
    } else {
        map_of(s.drop_last()).insert(s.last().0, s.last().1)
    }
}

/// No key occurs twice.
pub open spec fn keys_unique(s: Seq<(Seq<char>, Seq<char>)>) -> bool {
    forall|i: int, j: int| 0 <= i < j < s.len() ==> #[trigger] s[i].0 != #[trigger] s[j].0
}

pub proof fn lemma_map_of(s: Seq<(Seq<char>, Seq<char>)>)
    requires
        keys_unique(s),
    ensures
        forall|k: Seq<char>|
            #[trigger] map_of(s).contains_key(k) <==> exists|i: int| 0 <= i < s.len() && s[i].0 == k,
        forall|i: int| 0 <= i < s.len() ==> #[trigger] map_of(s)[s[i].0] == s[i].1,
        map_of(s).dom().finite(),
        map_of(s).dom().len() == s.len(),
    decreases s.len(),
{
    if s.len() > 0 {
        let t = s.drop_last();
        assert(keys_unique(t));
        lemma_map_of(t);
        assert forall|k: Seq<char>| #[trigger]
            map_of(s).contains_key(k) <==> exists|i: int| 0 <= i < s.len() && s[i].0 == k by {
            if map_of(s).contains_key(k) && k != s.last().0 {
                let i = choose|i: int| 0 <= i < t.len() && t[i].0 == k;
                assert(s[i].0 == k);
            }
            if exists|i: int| 0 <= i < s.len() && s[i].0 == k {
                let i = choose|i: int| 0 <= i < s.len() && s[i].0 == k;
                if i < t.len() {
                    assert(t[i].0 == k);
                }
            }
        }
        assert forall|i: int| 0 <= i < s.len() implies #[trigger] map_of(s)[s[i].0] == s[i].1 by {
            if i < t.len() {
                assert(t[i].0 == s[i].0);
                assert(s[i].0 != s.last().0);
            }
        }
        assert(!map_of(t).contains_key(s.last().0)) by {
            if map_of(t).contains_key(s.last().0) {
                let i = choose|i: int| 0 <= i < t.len() && t[i].0 == s.last().0;
                assert(s[i].0 == s[s.len() - 1].0);
            }
        }
    }
}

pub open spec fn pairs_of(v: Seq<(String, String)>) -> Seq<(Seq<char>, Seq<char>)> {
    v.map_values(|e: (String, String)| (e.0@, e.1@))
}

/// A map from strings to strings that keeps the order in which keys first came.
pub struct StringMap {
    entries: Vec<(String, String)>,
}

impl StringMap {
    /// The entries as (key, value) pairs, in order.
    pub closed spec fn pairs(&self) -> Seq<(Seq<char>, Seq<char>)> {
        pairs_of(self.entries@)
    }

    pub open spec fn view(&self) -> Map<Seq<char>, Seq<char>> {
        map_of(self.pairs())
    }

    #[verifier::type_invariant]
    pub closed spec fn inv(&self) -> bool {
        keys_unique(self.pairs())
    }

    /// Facts that relate the view to the entries.
    pub proof fn lemma_view(&self)
        requires
            keys_unique(self.pairs()),
        ensures
            forall|k: Seq<char>|
                #[trigger] self@.contains_key(k) <==> exists|i: int|
                    0 <= i < self.pairs().len() && self.pairs()[i].0 == k,
            forall|i: int|
                0 <= i < self.pairs().len() ==> #[trigger] self@[self.pairs()[i].0]
                    == self.pairs()[i].1,
            self@.dom().finite(),
            self@.dom().len() == self.pairs().len(),
    {
        lemma_map_of(self.pairs());
    }

    pub fn new() -> (r: StringMap)
        ensures
            r@ == Map::<Seq<char>, Seq<char>>::empty(),
            r.pairs().len() == 0,
    {
        let r = StringMap { entries: Vec::new() };
        assert(r.pairs() =~= Seq::empty());
        r
    }

    pub fn len(&self) -> (r: usize)
        ensures
            r == self.pairs().len(),
            r == self@.dom().len(),
            keys_unique(self.pairs()),
    {
        proof {
            use_type_invariant(self);
            self.lemma_view();
        }
        self.entries.len()
    }

    pub fn is_empty(&self) -> (r: bool)
        ensures
            r == (self@.dom().len() == 0),
            r == (self@ == Map::<Seq<char>, Seq<char>>::empty()),
    {
        proof {
            use_type_invariant(self);
            self.lemma_view();
            if self.pairs().len() > 0 {
                assert(self@.contains_key(self.pairs()[0].0));
            } else {
                assert(self@ =~= Map::<Seq<char>, Seq<char>>::empty());
            }
        }
        self.entries.len() == 0
    }

    pub fn key_at(&self, i: usize) -> (r: &String)
        requires
            i < self.pairs().len(),
        ensures
            r@ == self.pairs()[i as int].0,
    {
        &self.entries[i].0
    }

    pub fn value_at(&self, i: usize) -> (r: &String)
        requires
            i < self.pairs().len(),
        ensures
            r@ == self.pairs()[i as int].1,
    {
        &self.entries[i].1
    }

    /// Position of `key` among the entries.
    fn find(&self, key: &str) -> (r: Option<usize>)
        ensures
            match r {
                Some(i) => i < self.pairs().len() && self.pairs()[i as int].0 == key@,
                None => !self@.contains_key(key@),
            },
    {
        proof {
            use_type_invariant(self);
            self.lemma_view();
        }
        let mut i: usize = 0;
        while i < self.entries.len()
            invariant
                i <= self.pairs().len(),
                self.pairs().len() == self.entries@.len(),
                forall|j: int| 0 <= j < i ==> self.pairs()[j].0 != key@,
            decreases self.entries@.len() - i,
        {
            if crate::text::str_eq(self.entries[i].0.as_str(), key) {
                return Some(i);
            }
            i = i + 1;
        }
        None
    }

    pub fn contains_key(&self, key: &str) -> (r: bool)
        ensures
            r == self@.contains_key(key@),
    {
        proof {
            use_type_invariant(self);
            self.lemma_view();
        }
        self.find(key).is_some()
    }

    pub fn get(&self, key: &str) -> (r: Option<&String>)
        ensures
            match r {
                Some(v) => self@.contains_key(key@) && v@ == self@[key@],
                None => !self@.contains_key(key@),
            },
    {
        proof {
            use_type_invariant(self);
            self.lemma_view();
        }
        match self.find(key) {
            Some(i) => Some(&self.entries[i].1),
            None => None,
        }
    }

    /// A copy of this map, entries in the same order.
    pub fn copy(&self) -> (r: StringMap)
        ensures
            r@ == self@,
            r.pairs() == self.pairs(),
    {
        proof {
            use_type_invariant(self);
        }
        let mut r = StringMap::new();
        let mut i: usize = 0;
        while i < self.entries.len()
            invariant
                i <= self.pairs().len(),
                self.pairs().len() == self.entries@.len(),
                keys_unique(self.pairs()),
                r.pairs() == self.pairs().subrange(0, i as int),
            decreases self.entries@.len() - i,
        {
            let k = self.entries[i].0.clone();
            let v = self.entries[i].1.clone();
            let ghost before = r.pairs();
            proof {
                use_type_invariant(&r);
                lemma_map_of(before);
                if r@.contains_key(k@) {
                    let j = choose|j: int| 0 <= j < before.len() && before[j].0 == k@;
                    assert(self.pairs()[j].0 == self.pairs()[i as int].0);
                }
            }
            r.push_new(k, v);
            proof {
                assert(r.pairs() =~= self.pairs().subrange(0, i + 1));
            }
            i = i + 1;
        }
        proof {
            assert(self.pairs().subrange(0, self.pairs().len() as int) =~= self.pairs());
        }
        r
    }

    /// Appends a key that is not in the map yet.
    fn push_new(&mut self, key: String, value: String)
        requires
            !old(self)@.contains_key(key@),
        ensures
            final(self).pairs() == old(self).pairs().push((key@, value@)),
            final(self)@ == old(self)@.insert(key@, value@),
    {
        proof {
            use_type_invariant(&*self);
        }
        let ghost old_pairs = self.pairs();
        let mut entries: Vec<(String, String)> = Vec::new();
        std::mem::swap(&mut self.entries, &mut entries);
        entries.push((key, value));
        proof {
            assert(pairs_of(entries@) =~= old_pairs.push((key@, value@)));
            lemma_push(old_pairs, key@, value@);
        }
        std::mem::swap(&mut self.entries, &mut entries);
    }

    /// Sets `key` to `value`: an existing key keeps its place, a new one goes last.
    pub fn insert(&mut self, key: String, value: String)
        ensures
            final(self)@ == old(self)@.insert(key@, value@),
    {
        proof {
            use_type_invariant(&*self);
            self.lemma_view();
        }
        let pos = self.find(key.as_str());
        let ghost old_pairs = self.pairs();
        let mut entries: Vec<(String, String)> = Vec::new();
        std::mem::swap(&mut self.entries, &mut entries);
        match pos {
            Some(i) => {
                entries.set(i, (key, value));
                proof {
                    assert(pairs_of(entries@) =~= old_pairs.update(i as int, (key@, value@)));
                    lemma_update(old_pairs, i as int, key@, value@);
                }
            },
            None => {
                entries.push((key, value));
                proof {
                    assert(pairs_of(entries@) =~= old_pairs.push((key@, value@)));
                    lemma_push(old_pairs, key@, value@);
                }
            },
        }
        std::mem::swap(&mut self.entries, &mut entries);
    }
}

proof fn lemma_update(s: Seq<(Seq<char>, Seq<char>)>, i: int, key: Seq<char>, value: Seq<char>)
    requires
        keys_unique(s),
        0 <= i < s.len(),
        s[i].0 == key,
    ensures
        keys_unique(s.update(i, (key, value))),
        map_of(s.update(i, (key, value))) == map_of(s).insert(key, value),
{
    let t = s.update(i, (key, value));
    assert(keys_unique(t)) by {
        assert forall|a: int, b: int| 0 <= a < b < t.len() implies #[trigger] t[a].0
            != #[trigger] t[b].0 by {
            assert(s[a].0 != s[b].0);
        }
    }
    lemma_map_of(s);
    lemma_map_of(t);
    assert forall|k: Seq<char>| #[trigger]
        map_of(t).contains_key(k) == map_of(s).insert(key, value).contains_key(k) by {
        if map_of(t).contains_key(k) {
            let j = choose|j: int| 0 <= j < t.len() && t[j].0 == k;
            if j != i {
                assert(s[j].0 == k);
            }
        }
        if map_of(s).contains_key(k) {
            let j = choose|j: int| 0 <= j < s.len() && s[j].0 == k;
            assert(t[j].0 == k);
        }
    }
    assert forall|k: Seq<char>| #[trigger] map_of(t).contains_key(k) implies map_of(t)[k]
        == map_of(s).insert(key, value)[k] by {
        let j = choose|j: int| 0 <= j < t.len() && t[j].0 == k;
        assert(map_of(t)[t[j].0] == t[j].1);
        if j != i {
            assert(map_of(s)[s[j].0] == s[j].1);
        }
    }
    assert(map_of(t) =~= map_of(s).insert(key, value));
}

proof fn lemma_push(s: Seq<(Seq<char>, Seq<char>)>, key: Seq<char>, value: Seq<char>)
    requires
        keys_unique(s),
        !map_of(s).contains_key(key),
    ensures
        keys_unique(s.push((key, value))),
        map_of(s.push((key, value))) == map_of(s).insert(key, value),
{
    let t = s.push((key, value));
    assert(t.drop_last() =~= s);
    lemma_map_of(s);
    assert forall|a: int, b: int| 0 <= a < b < t.len() implies #[trigger] t[a].0
        != #[trigger] t[b].0 by {
        if b == s.len() {
            assert(s[a].0 == t[a].0);
        }
    }
}

} // verus!
