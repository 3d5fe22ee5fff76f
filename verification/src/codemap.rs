//! A verified association map from instrument codes to values.

use vstd::prelude::*;

verus! {

/// All bindings except `k` agree between `m1` and `m2`.
pub open spec fn map_unchanged_except<V>(
    m1: Map<Seq<char>, V>,
    m2: Map<Seq<char>, V>,
    k: Seq<char>,
) -> bool {
    forall|x: Seq<char>|
        x != k ==> ((m1.contains_key(x) <==> m2.contains_key(x)) && (m2.contains_key(x)
            ==> #[trigger] m1[x] == m2[x]))
}

/// Mathematical contents of a pair of parallel key/value sequences,
/// later entries shadowing earlier ones (irrelevant once keys are distinct).
pub open spec fn kv_map<V>(keys: Seq<Seq<char>>, vals: Seq<V>) -> Map<Seq<char>, V>
    decreases keys.len(),
{
    if keys.len() == 0 || keys.len() != vals.len() {
        Map::empty()
    } else {
        kv_map(keys.drop_last(), vals.drop_last()).insert(keys.last(), vals.last())
    }
}

/// Association map from instrument codes to values, keyed by the code's
/// character sequence. Keys stay pairwise distinct, so the abstract value
/// is a finite `Map<Seq<char>, V>`.
pub struct CodeMap<V> {
    keys: Vec<String>,
    vals: Vec<V>,
}

impl<V> View for CodeMap<V> {
    type V = Map<Seq<char>, V>;

    closed spec fn view(&self) -> Map<Seq<char>, V> {
        kv_map(self.key_view(), self.vals@)
    }
}

proof fn lemma_kv_contains<V>(keys: Seq<Seq<char>>, vals: Seq<V>, k: Seq<char>)
    requires
        keys.len() == vals.len(),
    ensures
        kv_map(keys, vals).contains_key(k) <==> keys.contains(k),
    decreases keys.len(),
{
    if keys.len() > 0 {
        lemma_kv_contains(keys.drop_last(), vals.drop_last(), k);
        if keys.contains(k) {
            let i = choose|i: int| 0 <= i < keys.len() && keys[i] == k;
            if i < keys.len() - 1 {
                assert(keys.drop_last().contains(k)) by {
                    assert(keys.drop_last()[i] == k);
                }
            }
        } else {
            assert(keys.last() != k) by {
                assert(keys[keys.len() - 1] == keys.last());
            }
            assert(!keys.drop_last().contains(k)) by {
                if keys.drop_last().contains(k) {
                    let i = choose|i: int| 0 <= i < keys.len() - 1 && keys.drop_last()[i] == k;
                    assert(keys[i] == k);
                }
            }
        }
    }
}

proof fn lemma_kv_finite<V>(keys: Seq<Seq<char>>, vals: Seq<V>)
    ensures
        kv_map(keys, vals).dom().finite(),
    decreases keys.len(),
{
    if keys.len() == 0 || keys.len() != vals.len() {
    } else {
        lemma_kv_finite(keys.drop_last(), vals.drop_last());
    }
}

spec fn distinct_keys(keys: Seq<Seq<char>>) -> bool {
    forall|i: int, j: int| 0 <= i < j < keys.len() ==> keys[i] != keys[j]
}

proof fn lemma_distinct_drop_last(keys: Seq<Seq<char>>)
    requires
        keys.len() > 0,
        distinct_keys(keys),
    ensures
        distinct_keys(keys.drop_last()),
        !keys.drop_last().contains(keys.last()),
{
    assert forall|i: int, j: int| 0 <= i < j < keys.len() - 1 implies keys.drop_last()[i]
        != keys.drop_last()[j] by {
        assert(keys[i] != keys[j]);
    }
    if keys.drop_last().contains(keys.last()) {
        let i = choose|i: int| 0 <= i < keys.len() - 1 && keys.drop_last()[i] == keys.last();
        assert(keys[i] == keys[keys.len() - 1]);
    }
}

proof fn lemma_kv_index<V>(keys: Seq<Seq<char>>, vals: Seq<V>, i: int)
    requires
        keys.len() == vals.len(),
        distinct_keys(keys),
        0 <= i < keys.len(),
    ensures
        kv_map(keys, vals)[keys[i]] == vals[i],
    decreases keys.len(),
{
    lemma_distinct_drop_last(keys);
    if i == keys.len() - 1 {
    } else {
        lemma_kv_index(keys.drop_last(), vals.drop_last(), i);
        assert(keys[i] != keys.last());
    }
}

proof fn lemma_kv_update<V>(keys: Seq<Seq<char>>, vals: Seq<V>, i: int, v: V)
    requires
        keys.len() == vals.len(),
        distinct_keys(keys),
        0 <= i < keys.len(),
    ensures
        kv_map(keys, vals.update(i, v)) == kv_map(keys, vals).insert(keys[i], v),
    decreases keys.len(),
{
    lemma_distinct_drop_last(keys);
    let n = keys.len();
    if i == n - 1 {
        assert(vals.update(i, v).drop_last() =~= vals.drop_last());
        assert(kv_map(keys, vals.update(i, v)) =~= kv_map(keys, vals).insert(keys[i], v));
    } else {
        lemma_kv_update(keys.drop_last(), vals.drop_last(), i, v);
        assert(vals.update(i, v).drop_last() =~= vals.drop_last().update(i, v));
        assert(vals.update(i, v).last() == vals.last());
        assert(kv_map(keys, vals.update(i, v)) == kv_map(keys.drop_last(),
            vals.drop_last().update(i, v)).insert(keys.last(), vals.last()));
        assert(kv_map(keys, vals.update(i, v)) =~= kv_map(keys, vals).insert(keys[i], v));
    }
}

proof fn lemma_kv_update_all<V>(keys: Seq<Seq<char>>, vals: Seq<V>, i: int)
    requires
        keys.len() == vals.len(),
        distinct_keys(keys),
        0 <= i < keys.len(),
    ensures
        forall|v: V| kv_map(keys, #[trigger] vals.update(i, v)) == kv_map(keys, vals).insert(
            keys[i],
            v,
        ),
{
    assert forall|v: V| kv_map(keys, #[trigger] vals.update(i, v)) == kv_map(keys,
        vals).insert(keys[i], v) by {
        lemma_kv_update(keys, vals, i, v);
    }
}

proof fn lemma_kv_push<V>(keys: Seq<Seq<char>>, vals: Seq<V>, k: Seq<char>, v: V)
    requires
        keys.len() == vals.len(),
    ensures
        kv_map(keys.push(k), vals.push(v)) == kv_map(keys, vals).insert(k, v),
{
    assert(keys.push(k).drop_last() =~= keys);
    assert(vals.push(v).drop_last() =~= vals);
    assert(keys.push(k).last() == k);
    assert(vals.push(v).last() == v);
}

proof fn lemma_kv_absent_remove<V>(keys: Seq<Seq<char>>, vals: Seq<V>, k: Seq<char>)
    requires
        keys.len() == vals.len(),
        !keys.contains(k),
    ensures
        kv_map(keys, vals).remove(k) == kv_map(keys, vals),
{
    lemma_kv_contains(keys, vals, k);
    assert(kv_map(keys, vals).remove(k) =~= kv_map(keys, vals));
}

proof fn lemma_kv_remove<V>(keys: Seq<Seq<char>>, vals: Seq<V>, i: int)
    requires
        keys.len() == vals.len(),
        distinct_keys(keys),
        0 <= i < keys.len(),
    ensures
        kv_map(keys.remove(i), vals.remove(i)) == kv_map(keys, vals).remove(keys[i]),
    decreases keys.len(),
{
    lemma_distinct_drop_last(keys);
    let n = keys.len();
    if i == n - 1 {
        assert(keys.remove(i) =~= keys.drop_last());
        assert(vals.remove(i) =~= vals.drop_last());
        lemma_kv_absent_remove(keys.drop_last(), vals.drop_last(), keys[i]);
        assert(kv_map(keys, vals).remove(keys[i]) =~= kv_map(keys.drop_last(),
            vals.drop_last()));
    } else {
        lemma_kv_remove(keys.drop_last(), vals.drop_last(), i);
        assert(keys.remove(i).drop_last() =~= keys.drop_last().remove(i));
        assert(vals.remove(i).drop_last() =~= vals.drop_last().remove(i));
        assert(keys.remove(i).last() == keys.last());
        assert(vals.remove(i).last() == vals.last());
        assert(kv_map(keys.remove(i), vals.remove(i)) == kv_map(keys.drop_last(),
            vals.drop_last()).remove(keys[i]).insert(keys.last(), vals.last()));
        assert(keys[i] != keys.last());
        assert(kv_map(keys.remove(i), vals.remove(i)) =~= kv_map(keys, vals).remove(keys[i]));
    }
}

proof fn lemma_kv_card<V>(keys: Seq<Seq<char>>, vals: Seq<V>)
    requires
        keys.len() == vals.len(),
        distinct_keys(keys),
    ensures
        kv_map(keys, vals).dom().finite(),
        kv_map(keys, vals).dom().len() == keys.len(),
    decreases keys.len(),
{
    lemma_kv_finite(keys, vals);
    if keys.len() > 0 {
        lemma_distinct_drop_last(keys);
        lemma_kv_card(keys.drop_last(), vals.drop_last());
        lemma_kv_contains(keys.drop_last(), vals.drop_last(), keys.last());
    }
}

impl<V> CodeMap<V> {
    spec fn key_view(&self) -> Seq<Seq<char>> {
        self.keys@.map_values(|k: String| k@)
    }

    /// Keys are distinct and the two columns line up.
    pub closed spec fn wf(&self) -> bool {
        &&& self.keys@.len() == self.vals@.len()
        &&& distinct_keys(self.key_view())
    }

    pub fn new() -> (r: Self)
        ensures
            r.wf(),
            r@ == Map::<Seq<char>, V>::empty(),
    {
        CodeMap { keys: Vec::new(), vals: Vec::new() }
    }

    pub fn len(&self) -> (r: usize)
        requires
            self.wf(),
        ensures
            self@.dom().finite(),
            r == self@.dom().len(),
    {
        proof {
            lemma_kv_card(self.key_view(), self.vals@);
        }
        self.keys.len()
    }

    /// Index of `code` among the keys, if present.
    fn index_of(&self, code: &str) -> (r: Option<usize>)
        requires
            self.wf(),
        ensures
            match r {
                Some(i) => i < self.keys@.len() && self.key_view()[i as int] == code@,
                None => !self@.contains_key(code@),
            },
    {
        let key = code.to_owned();
        let n = self.keys.len();
        let mut i: usize = 0;
        while i < n
            invariant
                self.wf(),
                n == self.keys@.len(),
                i <= n,
                key@ == code@,
                forall|j: int| 0 <= j < i ==> self.key_view()[j] != code@,
            decreases n - i,
        {
            if self.keys[i] == key {
                return Some(i);
            }
            i += 1;
        }
        proof {
            lemma_kv_contains(self.key_view(), self.vals@, code@);
            if self.key_view().contains(code@) {
                let j = choose|j: int|
                    0 <= j < self.key_view().len() && self.key_view()[j] == code@;
                assert(self.key_view()[j] != code@);
            }
        }
        None
    }

    pub fn contains(&self, code: &str) -> (r: bool)
        requires
            self.wf(),
        ensures
            r == self@.contains_key(code@),
    {
        proof {
            lemma_kv_contains(self.key_view(), self.vals@, code@);
        }
        match self.index_of(code) {
            Some(i) => {
                proof {
                    assert(self.key_view().contains(code@)) by {
                        assert(self.key_view()[i as int] == code@);
                    }
                }
                true
            },
            None => false,
        }
    }

    pub fn get(&self, code: &str) -> (r: Option<&V>)
        requires
            self.wf(),
        ensures
            match r {
                Some(v) => self@.contains_key(code@) && *v == self@[code@],
                None => !self@.contains_key(code@),
            },
    {
        match self.index_of(code) {
            Some(i) => {
                proof {
                    lemma_kv_contains(self.key_view(), self.vals@, code@);
                    lemma_kv_index(self.key_view(), self.vals@, i as int);
                }
                Some(&self.vals[i])
            },
            None => None,
        }
    }

    /// Insert or replace the value bound to `code`.
    pub fn insert(&mut self, code: &str, v: V)
        requires
            old(self).wf(),
        ensures
            final(self).wf(),
            final(self)@ == old(self)@.insert(code@, v),
    {
        match self.index_of(code) {
            Some(i) => {
                proof {
                    lemma_kv_update(self.key_view(), self.vals@, i as int, v);
                }
                self.vals[i] = v;
            },
            None => {
                proof {
                    lemma_kv_push(self.key_view(), self.vals@, code@, v);
                    lemma_kv_contains(self.key_view(), self.vals@, code@);
                }
                let key = code.to_owned();
                self.keys.push(key);
                self.vals.push(v);
                proof {
                    assert(self.key_view() =~= old(self).key_view().push(code@));
                    assert forall|i: int, j: int|
                        0 <= i < j < self.key_view().len() implies self.key_view()[i]
                        != self.key_view()[j] by {
                        if j == self.key_view().len() - 1 {
                            assert(old(self).key_view()[i] == self.key_view()[i]);
                            if self.key_view()[i] == code@ {
                                assert(old(self).key_view().contains(code@));
                            }
                        }
                    }
                }
            },
        }
    }

    /// Remove the binding for `code`, returning its value if it was present.
    pub fn remove(&mut self, code: &str) -> (r: Option<V>)
        requires
            old(self).wf(),
        ensures
            final(self).wf(),
            final(self)@ == old(self)@.remove(code@),
            match r {
                Some(v) => old(self)@.contains_key(code@) && v == old(self)@[code@],
                None => !old(self)@.contains_key(code@) && final(self)@ == old(self)@,
            },
    {
        match self.index_of(code) {
            Some(i) => {
                proof {
                    lemma_kv_contains(self.key_view(), self.vals@, code@);
                    lemma_kv_index(self.key_view(), self.vals@, i as int);
                    lemma_kv_remove(self.key_view(), self.vals@, i as int);
                    lemma_distinct_remove(self.key_view(), i as int);
                    assert(self.key_view().contains(code@));
                }
                self.keys.remove(i);
                let v = self.vals.remove(i);
                proof {
                    assert(self.key_view() =~= old(self).key_view().remove(i as int));
                }
                Some(v)
            },
            None => {
                proof {
                    lemma_kv_contains(self.key_view(), self.vals@, code@);
                    lemma_kv_absent_remove(self.key_view(), self.vals@, code@);
                }
                None
            },
        }
    }

    /// A mutable borrow of the value bound to `code`; the map afterwards
    /// binds `code` to whatever the caller leaves behind the borrow.
    pub fn get_mut(&mut self, code: &str) -> (r: Option<&mut V>)
        requires
            old(self).wf(),
        ensures
            final(self).wf(),
            match r {
                Some(v) => old(self)@.contains_key(code@) && *v == old(self)@[code@]
                    && final(self)@ == old(self)@.insert(code@, *final(v)),
                None => !old(self)@.contains_key(code@) && final(self)@ == old(self)@,
            },
    {
        match self.index_of(code) {
            Some(i) => {
                proof {
                    lemma_kv_contains(self.key_view(), self.vals@, code@);
                    assert(self.key_view().contains(code@)) by {
                        assert(self.key_view()[i as int] == code@);
                    }
                    lemma_kv_index(self.key_view(), self.vals@, i as int);
                    lemma_kv_update_all(self.key_view(), self.vals@, i as int);
                }
                Some(&mut self.vals[i])
            },
            None => None,
        }
    }

    /// Drop every binding whose code is not in `codes`.
    pub fn retain_codes(&mut self, codes: &Vec<String>)
        requires
            old(self).wf(),
        ensures
            final(self).wf(),
            spec_retained(final(self)@, old(self)@, codes@),
    {
        let ghost m0 = self@;
        let mine = self.codes();
        let n = mine.len();
        let mut i: usize = 0;
        while i < n
            invariant
                i <= n,
                n == mine@.len(),
                self.wf(),
                forall|a: int, b: int| 0 <= a < b < n ==> mine@[a]@ != mine@[b]@,
                forall|j: int| 0 <= j < n ==> m0.contains_key(#[trigger] mine@[j]@),
                forall|k: Seq<char>| m0.contains_key(k) ==> exists|j: int|
                    0 <= j < n && #[trigger] mine@[j]@ == k,
                forall|k: Seq<char>|
                    #[trigger] self@.contains_key(k) ==> m0.contains_key(k) && self@[k]
                        == m0[k],
                forall|k: Seq<char>|
                    m0.contains_key(k) && spec_has_code(codes@, k) ==> self@.contains_key(k),
                forall|j: int|
                    0 <= j < i ==> (self@.contains_key(#[trigger] mine@[j]@) ==> spec_has_code(
                        codes@,
                        mine@[j]@,
                    )),
                forall|j: int|
                    i <= j < n ==> (m0.contains_key(#[trigger] mine@[j]@)
                        ==> self@.contains_key(mine@[j]@)),
            decreases n - i,
        {
            let ghost before = self@;
            let code = &mine[i];
            if !has_code(codes, code.as_str()) {
                self.remove(code.as_str());
                proof {
                    assert forall|k: Seq<char>| #[trigger] self@.contains_key(k) implies
                        before.contains_key(k) && self@[k] == before[k] by {
                        assert(self@[k] == before.remove(mine@[i as int]@)[k]);
                    }
                }
            }
            i += 1;
        }
        proof {
            assert forall|k: Seq<char>|
                self@.contains_key(k) implies m0.contains_key(k) && spec_has_code(
                codes@,
                k,
            ) by {
                let j = choose|j: int| 0 <= j < n && #[trigger] mine@[j]@ == k;
            }
        }
    }

    /// All codes currently bound, without duplicates.
    pub fn codes(&self) -> (r: Vec<String>)
        requires
            self.wf(),
        ensures
            r@.len() == self@.dom().len(),
            forall|i: int| 0 <= i < r@.len() ==> self@.contains_key(#[trigger] r@[i]@),
            forall|i: int, j: int| 0 <= i < j < r@.len() ==> r@[i]@ != r@[j]@,
            forall|k: Seq<char>| self@.contains_key(k) ==> exists|i: int|
                0 <= i < r@.len() && #[trigger] r@[i]@ == k,
    {
        proof {
            lemma_kv_card(self.key_view(), self.vals@);
        }
        let n = self.keys.len();
        let mut r: Vec<String> = Vec::new();
        let mut i: usize = 0;
        while i < n
            invariant
                self.wf(),
                n == self.keys@.len(),
                i <= n,
                r@.len() == i,
                forall|j: int| 0 <= j < i ==> #[trigger] r@[j]@ == self.key_view()[j],
            decreases n - i,
        {
            r.push(self.keys[i].clone());
            i += 1;
        }
        proof {
            assert forall|i: int| 0 <= i < r@.len() implies self@.contains_key(r@[i]@) by {
                lemma_kv_contains(self.key_view(), self.vals@, r@[i]@);
                assert(self.key_view().contains(r@[i]@)) by {
                    assert(self.key_view()[i] == r@[i]@);
                }
            }
            assert forall|k: Seq<char>| self@.contains_key(k) implies exists|i: int|
                0 <= i < r@.len() && #[trigger] r@[i]@ == k by {
                lemma_kv_contains(self.key_view(), self.vals@, k);
                let i = choose|i: int|
                    0 <= i < self.key_view().len() && self.key_view()[i] == k;
                assert(r@[i]@ == k);
            }
        }
        r
    }
}

/// `m1` is `m0` narrowed to the codes listed in `codes`.
pub open spec fn spec_retained<V>(
    m1: Map<Seq<char>, V>,
    m0: Map<Seq<char>, V>,
    codes: Seq<String>,
) -> bool {
    &&& forall|k: Seq<char>|
        #[trigger] m1.contains_key(k) <==> m0.contains_key(k) && spec_has_code(codes, k)
    &&& forall|k: Seq<char>| #[trigger] m1.contains_key(k) ==> m1[k] == m0[k]
}

/// Whether some entry of `codes` reads `k`.
pub open spec fn spec_has_code(codes: Seq<String>, k: Seq<char>) -> bool {
    exists|i: int| 0 <= i < codes.len() && (#[trigger] codes[i])@ == k
}

/// Linear membership test among code strings.
pub fn has_code(codes: &Vec<String>, code: &str) -> (r: bool)
    ensures
        r == spec_has_code(codes@, code@),
{
    let key = code.to_owned();
    let n = codes.len();
    let mut i: usize = 0;
    while i < n
        invariant
            i <= n,
            n == codes@.len(),
            key@ == code@,
            forall|j: int| 0 <= j < i ==> (#[trigger] codes@[j])@ != code@,
        decreases n - i,
    {
        if codes[i] == key {
            return true;
        }
        i += 1;
    }
    false
}

proof fn lemma_distinct_remove(keys: Seq<Seq<char>>, i: int)
    requires
        distinct_keys(keys),
        0 <= i < keys.len(),
    ensures
        distinct_keys(keys.remove(i)),
{
    assert forall|a: int, b: int| 0 <= a < b < keys.remove(i).len() implies keys.remove(i)[a]
        != keys.remove(i)[b] by {
        let a0 = if a < i { a } else { a + 1 };
        let b0 = if b < i { b } else { b + 1 };
        assert(keys[a0] != keys[b0]);
    }
}

} // verus!
