use vstd::prelude::*;

verus! {

/// Identifier handed out by a [`Registry`] for component types, named types and entities.
pub type DynamicId = u32;

} // verus!

verus! {

/// A map from ids to values, held in ascending order of id and searched by bisection.
pub struct SortedMap<V> {
    keys: Vec<DynamicId>,
    values: Vec<V>,
}

/// Whether the ids are in ascending order.
pub open spec fn ascending(keys: Seq<DynamicId>) -> bool {
    forall|i: int, j: int| 0 <= i <= j < keys.len() ==> keys[i] <= keys[j]
}

impl<V> SortedMap<V> {
    /// The entries in ascending order of id.
    pub closed spec fn entries(&self) -> Seq<(DynamicId, V)> {
        Seq::new(self.keys@.len(), |i: int| (self.keys@[i], self.values@[i]))
    }

    /// The ids in ascending order.
    pub closed spec fn ids(&self) -> Seq<DynamicId> {
        self.keys@
    }

    pub closed spec fn wf(&self) -> bool {
        &&& self.keys@.len() == self.values@.len()
        &&& ascending(self.keys@)
    }

    /// Whether some entry carries the id.
    pub open spec fn has(&self, key: DynamicId) -> bool {
        exists|i: int| 0 <= i < self.entries().len() && (#[trigger] self.entries()[i]).0 == key
    }

    pub proof fn lemma_entries_pub(&self)
        requires
            self.wf(),
        ensures
            self.entries().len() == self.ids().len(),
            forall|i: int| 0 <= i < self.ids().len() ==> (#[trigger] self.entries()[i]).0 == self.ids()[i],
            forall|i: int| 0 <= i < self.ids().len() ==> (#[trigger] self.ids()[i]) == self.entries()[i].0,
            ascending(self.ids()),
    {
    }

    proof fn lemma_entries(&self)
        requires
            self.wf(),
        ensures
            self.entries().len() == self.ids().len(),
            forall|i: int| 0 <= i < self.ids().len() ==> (#[trigger] self.entries()[i]).0 == self.ids()[i],
            ascending(self.ids()),
    {
    }

    /// Sorts the entries by id; entries with equal ids may come in any order.
    #[verifier::rlimit(30)]
    pub fn new(map: Vec<(DynamicId, V)>) -> (s: Self)
        ensures
            s.wf(),
            s.entries().to_multiset() == map@.to_multiset(),
    {
        broadcast use vstd::seq_lib::group_to_multiset_ensures;
        let mut items = map;
        let ghost all = items@;
        let mut keys: Vec<DynamicId> = Vec::new();
        let mut values: Vec<V> = Vec::new();
        proof {
            let e = Seq::new(0, |i: int| (keys@[i], values@[i]));
            assert(e =~= Seq::empty());
            assert(items@ == all);
        }
        while items.len() > 0
            invariant
                keys@.len() == values@.len(),
                ascending(keys@),
                Seq::new(keys@.len(), |i: int| (keys@[i], values@[i])).to_multiset().add(
                    items@.to_multiset(),
                ) == all.to_multiset(),
            decreases items@.len(),
        {
            let ghost before_items = items@;
            let ghost before = Seq::new(keys@.len(), |i: int| (keys@[i], values@[i]));
            let (k, v) = items.pop().unwrap();
            assert(before_items =~= items@.push((k, v)));
            let mut pos: usize = 0;
            while pos < keys.len() && keys[pos] <= k
                invariant
                    pos <= keys@.len(),
                    forall|i: int| 0 <= i < pos ==> keys@[i] <= k,
                decreases keys@.len() - pos,
            {
                pos = pos + 1;
            }
            let ghost old_keys = keys@;
            keys.insert(pos, k);
            values.insert(pos, v);
            proof {
                let after = Seq::new(keys@.len(), |i: int| (keys@[i], values@[i]));
                old_keys.insert_ensures(pos as int, k);
                assert(after =~= before.insert(pos as int, (k, v)));
                assert(after.remove(pos as int) =~= before);
                assert(after[pos as int] == (k, v));
                after.to_multiset_ensures();
                assert(after.remove(pos as int).to_multiset() =~= after.to_multiset().remove(after[pos as int]));
                assert(after.to_multiset().remove((k, v)) =~= before.to_multiset());
                assert(after.contains((k, v)));
                assert(after.to_multiset().count((k, v)) > 0);
                assert(after.to_multiset() =~= before.to_multiset().insert((k, v)));
                items@.to_multiset_ensures();
                assert(before_items.to_multiset() =~= items@.to_multiset().insert((k, v)));
                assert(after.to_multiset().add(items@.to_multiset()) =~= before.to_multiset().add(before_items.to_multiset()));
                assert forall|i: int, j: int| 0 <= i <= j < keys@.len() implies keys@[i] <= keys@[j] by {
                    if j < pos {
                    } else if i > pos {
                        assert(keys@[i] == old_keys[i - 1]);
                        assert(keys@[j] == old_keys[j - 1]);
                    } else if i == pos {
                        if j > pos {
                            assert(keys@[j] == old_keys[j - 1]);
                            assert(old_keys[pos as int] > k);
                        }
                    } else {
                        if j > pos {
                            assert(keys@[j] == old_keys[j - 1]);
                        }
                    }
                }
            }
        }
        proof {
            assert(items@.to_multiset() =~= vstd::multiset::Multiset::empty());
        }
        SortedMap { keys, values }
    }

    /// Bisects for an entry carrying the id.
    pub(crate) fn search(&self, key: &DynamicId) -> (r: Option<usize>)
        requires
            self.wf(),
        ensures
            r is None <==> !self.has(*key),
            r matches Some(i) ==> i < self.entries().len() && self.entries()[i as int].0 == *key,
    {
        proof {
            self.lemma_entries();
        }
        let k = *key;
        let mut lo: usize = 0;
        let mut hi: usize = self.keys.len();
        while lo < hi
            invariant
                self.wf(),
                k == *key,
                lo <= hi <= self.keys@.len(),
                forall|i: int| 0 <= i < lo ==> self.keys@[i] < k,
                forall|i: int| hi <= i < self.keys@.len() ==> self.keys@[i] > k,
            decreases hi - lo,
        {
            let mid = lo + (hi - lo) / 2;
            if self.keys[mid] < k {
                lo = mid + 1;
            } else if self.keys[mid] > k {
                hi = mid;
            } else {
                proof {
                    self.lemma_entries();
                    assert(self.entries()[mid as int].0 == k);
                }
                return Some(mid);
            }
        }
        proof {
            assert forall|i: int| 0 <= i < self.entries().len() implies (#[trigger] self.entries()[i]).0 != k by {
                assert(self.entries()[i].0 == self.keys@[i]);
            }
        }
        None
    }

    /// The value of an entry carrying the id, if there is one.
    pub fn get(&self, key: &DynamicId) -> (r: Option<&V>)
        requires
            self.wf(),
        ensures
            r is None <==> !self.has(*key),
            r matches Some(v) ==> exists|i: int|
                0 <= i < self.entries().len() && #[trigger] self.entries()[i] == (*key, *v),
    {
        match self.search(key) {
            Some(i) => {
                let v = &self.values[i];
                assert(self.entries()[i as int] == (*key, *v));
                Some(v)
            },
            None => None,
        }
    }

    /// Mutable access to the value of an entry carrying the id, if there is one.
    pub fn get_mut(&mut self, key: &DynamicId) -> (r: Option<&mut V>)
        requires
            old(self).wf(),
        ensures
            r is None <==> !old(self).has(*key),
            r matches Some(v) ==> exists|i: int|
                0 <= i < old(self).entries().len() && #[trigger] old(self).entries()[i] == (*key, *v)
                    && final(self).entries() == old(self).entries().update(i, (*key, *final(v))),
            final(self).wf(),
            final(self).ids() == old(self).ids(),
            r is None ==> *final(self) == *old(self),
    {
        match self.search(key) {
            Some(i) => {
                let ghost e = old(self).entries();
                let v = &mut self.values[i];
                assert(e[i as int] == (*key, *v));
                Some(v)
            },
            None => None,
        }
    }

    /// Whether some entry carries the id.
    pub fn contains_key(&self, key: &DynamicId) -> (r: bool)
        requires
            self.wf(),
        ensures
            r == self.has(*key),
    {
        self.search(key).is_some()
    }

    pub fn len(&self) -> (r: usize)
        requires
            self.wf(),
        ensures
            r == self.entries().len(),
    {
        self.keys.len()
    }

    pub fn is_empty(&self) -> (r: bool)
        requires
            self.wf(),
        ensures
            r == (self.entries().len() == 0),
    {
        self.keys.len() == 0
    }

    /// The entries in ascending order of id.
    pub fn iter(&self) -> (r: Vec<(DynamicId, &V)>)
        requires
            self.wf(),
        ensures
            r@.len() == self.entries().len(),
            forall|i: int| 0 <= i < r@.len() ==> (#[trigger] r@[i]).0 == self.entries()[i].0 && *r@[i].1 == self.entries()[i].1,
    {
        let mut r: Vec<(DynamicId, &V)> = Vec::new();
        let n = self.keys.len();
        let mut i: usize = 0;
        while i < n
            invariant
                self.wf(),
                n == self.keys@.len(),
                i <= n,
                r@.len() == i,
                forall|j: int| 0 <= j < i ==> (#[trigger] r@[j]).0 == self.entries()[j].0 && *r@[j].1 == self.entries()[j].1,
            decreases n - i,
        {
            r.push((self.keys[i], &self.values[i]));
            i = i + 1;
        }
        r
    }

    /// Mutable access to the value of the entry at a position.
    pub(crate) fn value_at_mut(&mut self, i: usize) -> (r: &mut V)
        requires
            old(self).wf(),
            i < old(self).entries().len(),
        ensures
            *r == old(self).entries()[i as int].1,
            final(self).wf(),
            final(self).ids() == old(self).ids(),
            final(self).entries() == old(self).entries().update(i as int, (old(self).entries()[i as int].0, *final(r))),
    {
        &mut self.values[i]
    }

    /// The ids in ascending order, with mutable access to the values.
    pub fn iter_mut(&mut self) -> (r: (&[DynamicId], &mut [V]))
        requires
            old(self).wf(),
        ensures
            r.0@ == old(self).ids(),
            r.1@.len() == old(self).entries().len(),
            forall|i: int| 0 <= i < r.1@.len() ==> #[trigger] r.1@[i] == old(self).entries()[i].1,
            final(self).ids() == old(self).ids(),
            final(r.1)@.len() == r.1@.len() ==> final(self).wf() && final(self).entries() == Seq::new(
                r.0@.len(),
                |i: int| (r.0@[i], final(r.1)@[i]),
            ),
    {
        (self.keys.as_slice(), self.values.as_mut_slice())
    }
}

} // verus!

verus! {

/// The names that [`Registry::new`] registers.
pub open spec fn builtin_names() -> Seq<Seq<char>> {
    seq![
        "()"@, "bool"@, "u8"@, "u16"@, "u32"@, "u64"@, "u128"@, "usize"@, "i8"@, "i16"@, "i32"@,
        "i64"@, "i128"@, "isize"@, "f32"@, "f64"@, "String"@, "PathBuf"@, "NodeIndex"@, "Vec3"@,
        "Vec2"@, "Vec4"@, "Mat4"@, "Quat"@,
    ]
}

/// The builtin names with the ids `Registry::new` gives them: 1, 2, ... in order.
pub open spec fn builtin_ids() -> Seq<(Seq<char>, DynamicId)> {
    Seq::new(builtin_names().len(), |i: int| (builtin_names()[i], (i + 1) as DynamicId))
}

/// No builtin name is listed twice.
pub proof fn lemma_builtin_names_distinct()
    ensures
        builtin_names().len() == 24,
        builtin_names().no_duplicates(),
{
    reveal_strlit("()");
    reveal_strlit("bool");
    reveal_strlit("u8");
    reveal_strlit("u16");
    reveal_strlit("u32");
    reveal_strlit("u64");
    reveal_strlit("u128");
    reveal_strlit("usize");
    reveal_strlit("i8");
    reveal_strlit("i16");
    reveal_strlit("i32");
    reveal_strlit("i64");
    reveal_strlit("i128");
    reveal_strlit("isize");
    reveal_strlit("f32");
    reveal_strlit("f64");
    reveal_strlit("String");
    reveal_strlit("PathBuf");
    reveal_strlit("NodeIndex");
    reveal_strlit("Vec3");
    reveal_strlit("Vec2");
    reveal_strlit("Vec4");
    reveal_strlit("Mat4");
    reveal_strlit("Quat");
    let b = builtin_names();
    assert forall|i: int, j: int| 0 <= i < b.len() && 0 <= j < b.len() && i != j implies b[i] != b[j] by {
        if b[i].len() == b[j].len() {
            assert(b[i][0] != b[j][0] || b[i][1] != b[j][1] || b[i][b[i].len() - 1] != b[j][b[j].len() - 1]);
        }
    }
}

/// Hands out ids: fresh ones for entities and named types, and the same one again for a
/// name that it has already seen.
pub struct Registry {
    next_id: DynamicId,
    named_ids: Vec<(String, DynamicId)>,
    static_names: Vec<String>,
}

impl Registry {
    /// The id that the next fresh request receives.
    pub closed spec fn next(&self) -> DynamicId {
        self.next_id
    }

    /// The names seen so far with their ids, in the order they were first seen.
    pub closed spec fn named(&self) -> Seq<(Seq<char>, DynamicId)> {
        Seq::new(self.named_ids@.len(), |i: int| (self.named_ids@[i].0@, self.named_ids@[i].1))
    }

    /// The names of the types given ids by `get_static`.
    pub closed spec fn statics(&self) -> Set<Seq<char>> {
        Set::new(|n: Seq<char>| exists|i: int| 0 <= i < self.static_names@.len() && (#[trigger] self.static_names@[i])@ == n)
    }

    /// Whether the name has an id.
    pub open spec fn has_name(&self, name: Seq<char>) -> bool {
        exists|i: int| 0 <= i < self.named().len() && (#[trigger] self.named()[i]).0 == name
    }

    /// The id of a name that has one.
    pub open spec fn id_of(&self, name: Seq<char>) -> DynamicId {
        self.named()[choose|i: int| 0 <= i < self.named().len() && (#[trigger] self.named()[i]).0 == name].1
    }

    /// No name is held twice.
    pub closed spec fn wf(&self) -> bool {
        forall|i: int, j: int|
            0 <= i < j < self.named_ids@.len() ==> (#[trigger] self.named_ids@[i]).0@
                != (#[trigger] self.named_ids@[j]).0@
    }

    /// Every id handed out so far is below the next fresh one, and no two names share an id.
    pub open spec fn fresh_above(&self) -> bool {
        &&& self.next() >= 1
        &&& forall|i: int| 0 <= i < self.named().len() ==> 1 <= (#[trigger] self.named()[i]).1 < self.next()
        &&& forall|i: int, j: int|
            0 <= i < j < self.named().len() ==> (#[trigger] self.named()[i]).1 != (#[trigger] self.named()[j]).1
    }

    pub proof fn lemma_id_of(&self, i: int)
        requires
            self.wf(),
            0 <= i < self.named().len(),
        ensures
            self.has_name(self.named()[i].0),
            self.id_of(self.named()[i].0) == self.named()[i].1,
    {
        let n = self.named()[i].0;
        assert(self.named()[i].0 == n);
        let j = choose|j: int| 0 <= j < self.named().len() && (#[trigger] self.named()[j]).0 == n;
        if i != j {
            assert(self.named_ids@[i].0@ == self.named()[i].0);
            assert(self.named_ids@[j].0@ == self.named()[j].0);
            if i < j {
                assert(self.named_ids@[i].0@ != self.named_ids@[j].0@);
            } else {
                assert(self.named_ids@[j].0@ != self.named_ids@[i].0@);
            }
        }
    }

    /// A registry with no names; the first fresh id is 1.
    pub fn empty() -> (r: Self)
        ensures
            r.wf(),
            r.fresh_above(),
            r.next() == 1,
            r.named() == Seq::<(Seq<char>, DynamicId)>::empty(),
            r.statics() == Set::<Seq<char>>::empty(),
    {
        let r = Registry { next_id: 1, named_ids: Vec::new(), static_names: Vec::new() };
        assert(r.named() =~= Seq::<(Seq<char>, DynamicId)>::empty());
        assert(r.statics() =~= Set::<Seq<char>>::empty());
        r
    }

    /// A registry that already holds the names of the builtin types, in this order:
    /// `()`, `bool`, the integer types, `f32`, `f64`, `String`, `PathBuf`, `NodeIndex`,
    /// `Vec3`, `Vec2`, `Vec4`, `Mat4`, `Quat`.
    pub fn new() -> (r: Self)
        ensures
            r.wf(),
            r.fresh_above(),
            r.named() == builtin_ids(),
            r.next() == builtin_names().len() + 1,
            r.statics() == builtin_names().to_set(),
            forall|i: int| 0 <= i < builtin_names().len() ==> r.has_name(#[trigger] builtin_names()[i]),
    {
        let names: Vec<&str> = vec![
            "()", "bool", "u8", "u16", "u32", "u64", "u128", "usize", "i8", "i16", "i32", "i64",
            "i128", "isize", "f32", "f64", "String", "PathBuf", "NodeIndex", "Vec3", "Vec2", "Vec4",
            "Mat4", "Quat",
        ];
        proof {
            lemma_builtin_names_distinct();
            assert forall|j: int| 0 <= j < 24 implies #[trigger] names@[j]@ == builtin_names()[j] by {}
        }
        let mut r = Self::empty();
        let n = names.len();
        let mut i: usize = 0;
        while i < n
            invariant
                n == names@.len(),
                n == 24,
                builtin_names().len() == 24,
                builtin_names().no_duplicates(),
                forall|j: int| 0 <= j < 24 ==> #[trigger] names@[j]@ == builtin_names()[j],
                i <= n,
                r.wf(),
                r.fresh_above(),
                r.next() == i + 1,
                r.named() == builtin_ids().take(i as int),
                r.statics() == Set::<Seq<char>>::empty(),
            decreases n - i,
        {
            let ghost before = r;
            proof {
                if before.has_name(names@[i as int]@) {
                    let w = choose|w: int| 0 <= w < before.named().len() && (#[trigger] before.named()[w]).0 == names@[i as int]@;
                    assert(before.named()[w] == builtin_ids()[w]);
                    assert(builtin_names()[w] == builtin_names()[i as int]);
                }
            }
            let _id = r.get_named(names[i]);
            proof {
                assert(r.named() =~= builtin_ids().take(i + 1));
            }
            i = i + 1;
        }
        proof {
            if r.static_names@.len() > 0 {
                assert(r.statics().contains(r.static_names@[0]@));
            }
        }
        let mut k: usize = 0;
        while k < n
            invariant
                n == names@.len(),
                n == 24,
                k <= n,
                r.static_names@.len() == k,
                forall|j: int| 0 <= j < k ==> (#[trigger] r.static_names@[j])@ == names@[j]@,
                r.named() == builtin_ids().take(24),
                r.next() == 25,
                r.wf(),
                r.fresh_above(),
            decreases n - k,
        {
            let ghost before = r;
            r.static_names.push(names[k].to_owned());
            proof {
                assert(r.named() == before.named());
            }
            k = k + 1;
        }
        proof {
            assert(r.statics() =~= builtin_names().to_set()) by {
                assert forall|x: Seq<char>| r.statics().contains(x) <==> builtin_names().to_set().contains(x) by {
                    if r.statics().contains(x) {
                        let q = choose|q: int| 0 <= q < r.static_names@.len() && (#[trigger] r.static_names@[q])@ == x;
                        assert(builtin_names()[q] == x);
                    }
                    if builtin_names().contains(x) {
                        let q = choose|q: int| 0 <= q < builtin_names().len() && builtin_names()[q] == x;
                        assert(r.static_names@[q]@ == x);
                    }
                }
            }
            assert(builtin_ids().take(24) =~= builtin_ids());
            assert forall|j: int| 0 <= j < builtin_names().len() implies r.has_name(#[trigger] builtin_names()[j]) by {
                assert(r.named()[j].0 == builtin_names()[j]);
            }
        }
        r
    }

    /// Whether a fresh id is left for `create` to hand out.
    pub fn has_fresh_id(&self) -> (r: bool)
        ensures
            r == (self.next() < u32::MAX),
    {
        self.next_id < u32::MAX
    }

    /// Hands out a fresh id.
    pub fn create(&mut self) -> (r: DynamicId)
        requires
            old(self).next() < u32::MAX,
        ensures
            r == old(self).next(),
            final(self).next() == old(self).next() + 1,
            final(self).named() == old(self).named(),
            old(self).wf() ==> final(self).wf(),
            old(self).fresh_above() ==> final(self).fresh_above(),
            final(self).statics() == old(self).statics(),
    {
        let id = self.next_id;
        self.next_id = self.next_id + 1;
        assert(self.named() =~= old(self).named());
        id
    }

    /// The position of the name among the named ids.
    fn find_name(&self, name: &String) -> (r: Option<usize>)
        requires
            self.wf(),
        ensures
            r is None <==> !self.has_name(name@),
            r matches Some(i) ==> i < self.named().len() && self.named()[i as int].0 == name@,
    {
        let n = self.named_ids.len();
        let mut i: usize = 0;
        while i < n
            invariant
                n == self.named_ids@.len(),
                i <= n,
                forall|j: int| 0 <= j < i ==> (#[trigger] self.named()[j]).0 != name@,
            decreases n - i,
        {
            if self.named_ids[i].0 == *name {
                assert(self.named()[i as int].0 == name@);
                return Some(i);
            }
            assert(self.named()[i as int].0 == self.named_ids@[i as int].0@);
            i = i + 1;
        }
        None
    }

    /// Whether `get_static` has given the name an id.
    fn is_static_name(&self, name: &String) -> (r: bool)
        ensures
            r == self.statics().contains(name@),
    {
        let n = self.static_names.len();
        let mut i: usize = 0;
        while i < n
            invariant
                n == self.static_names@.len(),
                i <= n,
                forall|j: int| 0 <= j < i ==> (#[trigger] self.static_names@[j])@ != name@,
            decreases n - i,
        {
            if self.static_names[i] == *name {
                assert(self.static_names@[i as int]@ == name@);
                return true;
            }
            i = i + 1;
        }
        false
    }

    /// The id of the type named `name`: the one `get_static` gave it before, or a fresh one,
    /// which the name takes from now on in place of any id it had.
    pub fn get_static(&mut self, name: &str) -> (r: DynamicId)
        requires
            old(self).wf(),
            !(old(self).statics().contains(name@) && old(self).has_name(name@)) ==> old(self).next() < u32::MAX,
        ensures
            final(self).wf(),
            old(self).fresh_above() ==> final(self).fresh_above(),
            final(self).has_name(name@),
            final(self).id_of(name@) == r,
            old(self).statics().contains(name@) && old(self).has_name(name@) ==> r == old(self).id_of(name@)
                && *final(self) == *old(self),
            !(old(self).statics().contains(name@) && old(self).has_name(name@)) ==> {
                &&& r == old(self).next()
                &&& final(self).next() == old(self).next() + 1
                &&& final(self).name_map() == old(self).name_map().insert(name@, r)
                &&& final(self).statics() == old(self).statics().insert(name@)
            },
    {
        let owned: String = name.to_owned();
        let is_static = self.is_static_name(&owned);
        let found = self.find_name(&owned);
        if is_static {
            if let Some(i) = found {
                proof {
                    self.lemma_id_of(i as int);
                }
                return self.named_ids[i].1;
            }
        }
        let id = self.next_id;
        self.next_id = self.next_id + 1;
        let ghost mid = *self;
        proof {
            assert(mid.named() =~= old(self).named());
            assert(mid.name_map() =~= old(self).name_map());
        }
        match found {
            Some(x) => {
                let kept = self.named_ids[x].0.clone();
                self.named_ids.set(x, (kept, id));
                proof {
                    assert(self.named() =~= mid.named().update(x as int, (mid.named()[x as int].0, id)));
                    Self::lemma_name_map_set(mid, *self, x as int, id);
                }
            },
            None => {
                self.named_ids.push((owned.clone(), id));
                proof {
                    assert(self.named() =~= mid.named().push((name@, id)));
                    Self::lemma_name_map_push(mid, *self, name@, id);
                }
            },
        }
        let ghost named_set = *self;
        if !is_static {
            self.static_names.push(owned);
        }
        proof {
            assert(self.named() == named_set.named());
            assert(self.name_map() == named_set.name_map());
            assert(self.statics() =~= old(self).statics().insert(name@)) by {
                assert forall|x: Seq<char>| self.statics().contains(x) <==> old(self).statics().insert(name@).contains(x) by {
                    if self.statics().contains(x) && x != name@ {
                        let q = choose|q: int| 0 <= q < self.static_names@.len() && (#[trigger] self.static_names@[q])@ == x;
                        assert(old(self).static_names@[q]@ == x);
                    }
                    if old(self).statics().contains(x) {
                        let q = choose|q: int| 0 <= q < old(self).static_names@.len() && (#[trigger] old(self).static_names@[q])@ == x;
                        assert(self.static_names@[q]@ == x);
                    }
                    if x == name@ && !is_static {
                        assert(self.static_names@[old(self).static_names@.len() as int]@ == x);
                    }
                }
            }
            assert(self.name_map().dom().contains(name@));
            assert(self.name_map()[name@] == id);
            if old(self).fresh_above() {
                assert forall|i: int| 0 <= i < self.named().len() implies 1 <= (#[trigger] self.named()[i]).1 < self.next() by {
                    if i < old(self).named().len() && self.named()[i].1 != id {
                        assert(self.named()[i] == old(self).named()[i]);
                    }
                }
                assert forall|i: int, j: int| 0 <= i < j < self.named().len() implies (#[trigger] self.named()[i]).1 != (#[trigger] self.named()[j]).1 by {
                    if self.named()[i].1 != id && self.named()[j].1 != id {
                        assert(self.named()[i] == old(self).named()[i]);
                        assert(self.named()[j] == old(self).named()[j]);
                    } else if self.named()[i].1 == id {
                        if i < old(self).named().len() && (found is None || i != found->0) {
                            assert(self.named()[i] == old(self).named()[i]);
                        }
                        if j < old(self).named().len() && (found is None || j != found->0) {
                            assert(self.named()[j] == old(self).named()[j]);
                        }
                    } else {
                        if j < old(self).named().len() && (found is None || j != found->0) {
                            assert(self.named()[j] == old(self).named()[j]);
                        }
                    }
                }
            }
        }
        id
    }

    /// The id of the name: the one it already has, or a fresh one that it keeps from now on.
    pub fn get_named(&mut self, name: &str) -> (r: DynamicId)
        requires
            old(self).wf(),
            !old(self).has_name(name@) ==> old(self).next() < u32::MAX,
        ensures
            final(self).wf(),
            final(self).has_name(name@),
            final(self).id_of(name@) == r,
            old(self).has_name(name@) ==> r == old(self).id_of(name@) && *final(self) == *old(self),
            !old(self).has_name(name@) ==> {
                &&& r == old(self).next()
                &&& final(self).next() == old(self).next() + 1
                &&& final(self).named() == old(self).named().push((name@, r))
            },
            old(self).fresh_above() ==> final(self).fresh_above(),
            final(self).statics() == old(self).statics(),
    {
        let owned: String = name.to_owned();
        match self.find_name(&owned) {
            Some(i) => {
                proof {
                    self.lemma_id_of(i as int);
                }
                self.named_ids[i].1
            },
            None => {
                let id = self.next_id;
                self.next_id = self.next_id + 1;
                let ghost before = self.named();
                self.named_ids.push((owned, id));
                proof {
                    assert(self.named() =~= before.push((name@, id)));
                    assert forall|i: int, j: int|
                        0 <= i < j < self.named_ids@.len() implies (#[trigger] self.named_ids@[i]).0@
                            != (#[trigger] self.named_ids@[j]).0@ by {
                        if j == self.named_ids@.len() - 1 {
                            assert(before[i].0 == self.named_ids@[i].0@);
                        }
                    }
                    self.lemma_id_of(self.named().len() - 1);
                }
                id
            },
        }
    }

    /// The names with their ids.
    pub open spec fn name_map(&self) -> Map<Seq<char>, DynamicId> {
        Map::new(|n: Seq<char>| self.has_name(n), |n: Seq<char>| self.id_of(n))
    }

    /// Giving the name at position `x` a new id changes only that name's id.
    proof fn lemma_name_map_set(r0: Registry, r1: Registry, x: int, id: DynamicId)
        requires
            r0.wf(),
            0 <= x < r0.named().len(),
            r1.named() == r0.named().update(x, (r0.named()[x].0, id)),
            r1.named_ids@.len() == r0.named_ids@.len(),
            forall|i: int| 0 <= i < r1.named_ids@.len() ==> (#[trigger] r1.named_ids@[i]).0@ == r0.named_ids@[i].0@,
        ensures
            r1.wf(),
            r1.name_map() == r0.name_map().insert(r0.named()[x].0, id),
    {
        assert(r1.wf()) by {
            assert forall|i: int, j: int|
                0 <= i < j < r1.named_ids@.len() implies (#[trigger] r1.named_ids@[i]).0@
                    != (#[trigger] r1.named_ids@[j]).0@ by {
                assert(r0.named_ids@[i].0@ != r0.named_ids@[j].0@);
            }
        }
        let name = r0.named()[x].0;
        assert forall|n: Seq<char>| r1.has_name(n) <==> r0.has_name(n) by {
            if r1.has_name(n) {
                let i = choose|i: int| 0 <= i < r1.named().len() && (#[trigger] r1.named()[i]).0 == n;
                assert(r0.named()[i].0 == n);
            }
            if r0.has_name(n) {
                let i = choose|i: int| 0 <= i < r0.named().len() && (#[trigger] r0.named()[i]).0 == n;
                assert(r1.named()[i].0 == n);
            }
        }
        assert forall|n: Seq<char>| r1.has_name(n) implies r1.id_of(n) == (if n == name { id } else { r0.id_of(n) }) by {
            let i = choose|i: int| 0 <= i < r1.named().len() && (#[trigger] r1.named()[i]).0 == n;
            r1.lemma_id_of(i);
            r0.lemma_id_of(i);
            if n == name {
                r0.lemma_id_of(x);
                if i != x {
                    assert(r0.named()[i].0 == r0.named()[x].0);
                    assert(r0.named_ids@[i].0@ == r0.named()[i].0);
                    assert(r0.named_ids@[x].0@ == r0.named()[x].0);
                    if i < x {
                        assert(r0.named_ids@[i].0@ != r0.named_ids@[x].0@);
                    } else {
                        assert(r0.named_ids@[x].0@ != r0.named_ids@[i].0@);
                    }
                }
            }
        }
        assert(r1.name_map() =~= r0.name_map().insert(name, id));
    }

    /// Appending a new name gives it its id and changes no other.
    proof fn lemma_name_map_push(r0: Registry, r1: Registry, name: Seq<char>, id: DynamicId)
        requires
            r0.wf(),
            !r0.has_name(name),
            r1.named() == r0.named().push((name, id)),
            r1.named_ids@.len() == r0.named_ids@.len() + 1,
            forall|i: int| 0 <= i < r0.named_ids@.len() ==> (#[trigger] r1.named_ids@[i]).0@ == r0.named_ids@[i].0@,
            r1.named_ids@[r0.named_ids@.len() as int].0@ == name,
        ensures
            r1.wf(),
            r1.name_map() == r0.name_map().insert(name, id),
    {
        assert(r1.wf()) by {
            assert forall|i: int, j: int|
                0 <= i < j < r1.named_ids@.len() implies (#[trigger] r1.named_ids@[i]).0@
                    != (#[trigger] r1.named_ids@[j]).0@ by {
                if j == r0.named_ids@.len() {
                    assert(r0.named()[i].0 == r0.named_ids@[i].0@);
                } else {
                    assert(r0.named_ids@[i].0@ != r0.named_ids@[j].0@);
                }
            }
        }
        assert forall|n: Seq<char>| r1.has_name(n) <==> (r0.has_name(n) || n == name) by {
            if r1.has_name(n) && n != name {
                let i = choose|i: int| 0 <= i < r1.named().len() && (#[trigger] r1.named()[i]).0 == n;
                assert(r0.named()[i].0 == n);
            }
            if r0.has_name(n) {
                let i = choose|i: int| 0 <= i < r0.named().len() && (#[trigger] r0.named()[i]).0 == n;
                assert(r1.named()[i].0 == n);
            }
            if n == name {
                assert(r1.named()[r0.named().len() as int].0 == n);
            }
        }
        assert forall|n: Seq<char>| r1.has_name(n) implies r1.id_of(n) == (if n == name { id } else { r0.id_of(n) }) by {
            let i = choose|i: int| 0 <= i < r1.named().len() && (#[trigger] r1.named()[i]).0 == n;
            r1.lemma_id_of(i);
            if i < r0.named().len() {
                r0.lemma_id_of(i);
            }
        }
        assert(r1.name_map() =~= r0.name_map().insert(name, id));
    }

    /// A registry that gives the names the same ids as a fresh registry, and has the same
    /// next id, is fresh too.
    pub proof fn lemma_fresh_from_map(r: Registry, r2: Registry)
        requires
            r.wf(),
            r2.wf(),
            r2.fresh_above(),
            r.name_map() == r2.name_map(),
            r.next() == r2.next(),
        ensures
            r.fresh_above(),
    {
        assert forall|i: int| 0 <= i < r.named().len() implies 1 <= (#[trigger] r.named()[i]).1 < r.next() by {
            r.lemma_id_of(i);
            let n = r.named()[i].0;
            assert(r.name_map().dom().contains(n));
            assert(r2.has_name(n));
            let x = choose|x: int| 0 <= x < r2.named().len() && (#[trigger] r2.named()[x]).0 == n;
            r2.lemma_id_of(x);
            assert(r.name_map()[n] == r.id_of(n));
            assert(r2.name_map()[n] == r2.id_of(n));
            assert(r2.named()[x].1 == r.named()[i].1);
        }
        assert forall|i: int, j: int| 0 <= i < j < r.named().len() implies (#[trigger] r.named()[i]).1 != (#[trigger] r.named()[j]).1 by {
            r.lemma_id_of(i);
            r.lemma_id_of(j);
            let ni = r.named()[i].0;
            let nj = r.named()[j].0;
            assert(r.named_ids@[i].0@ != r.named_ids@[j].0@);
            assert(ni != nj);
            assert(r.name_map().dom().contains(ni) && r.name_map().dom().contains(nj));
            let x = choose|x: int| 0 <= x < r2.named().len() && (#[trigger] r2.named()[x]).0 == ni;
            let y = choose|y: int| 0 <= y < r2.named().len() && (#[trigger] r2.named()[y]).0 == nj;
            r2.lemma_id_of(x);
            r2.lemma_id_of(y);
            assert(r.name_map()[ni] == r.id_of(ni));
            assert(r2.name_map()[ni] == r2.id_of(ni));
            assert(r.name_map()[nj] == r.id_of(nj));
            assert(r2.name_map()[nj] == r2.id_of(nj));
            assert(x != y);
            if x < y {
                assert(r2.named()[x].1 != r2.named()[y].1);
            } else {
                assert(r2.named()[y].1 != r2.named()[x].1);
            }
        }
    }

    /// When this registry's names are the first names of `r2`, with the same ids, merging
    /// `r2` in leaves exactly `r2`'s names.
    pub proof fn lemma_prefix_union(r: Registry, r2: Registry)
        requires
            r.wf(),
            r2.wf(),
            r.named().is_prefix_of(r2.named()),
        ensures
            r.name_map().union_prefer_right(r2.name_map()) == r2.name_map(),
    {
        assert forall|n: Seq<char>| r.has_name(n) implies r2.has_name(n) by {
            let i = choose|i: int| 0 <= i < r.named().len() && (#[trigger] r.named()[i]).0 == n;
            assert(r2.named()[i] == r.named()[i]);
        }
        assert(r.name_map().union_prefer_right(r2.name_map()) =~= r2.name_map());
    }

    /// Takes over the other registry's names and its next fresh id: a name both hold gets
    /// the other's id.
    pub fn merge(&mut self, other: &Registry)
        requires
            old(self).wf(),
            other.wf(),
        ensures
            final(self).wf(),
            final(self).next() == other.next(),
            final(self).name_map() == old(self).name_map().union_prefer_right(other.name_map()),
            final(self).statics() == old(self).statics().union(other.statics()),
    {
        self.next_id = other.next_id;
        proof {
            assert(self.named() =~= old(self).named());
            assert(self.name_map() =~= old(self).name_map());
            let none = Set::new(|m: Seq<char>| exists|j: int| 0 <= j < 0 && (#[trigger] other.named()[j]).0 == m);
            assert(none =~= Set::<Seq<char>>::empty());
            assert(old(self).name_map().union_prefer_right(other.name_map().restrict(none)) =~= old(self).name_map());
        }
        let n = other.named_ids.len();
        let mut i: usize = 0;
        while i < n
            invariant
                n == other.named_ids@.len(),
                other.wf(),
                0 <= i <= n,
                self.wf(),
                self.next_id == other.next_id,
                self.static_names == old(self).static_names,
                self.name_map() == old(self).name_map().union_prefer_right(
                    other.name_map().restrict(Set::new(|m: Seq<char>| exists|j: int| 0 <= j < i && (#[trigger] other.named()[j]).0 == m)),
                ),
            decreases n - i,
        {
            let name = other.named_ids[i].0.clone();
            let id = other.named_ids[i].1;
            let ghost before = *self;
            proof {
                other.lemma_id_of(i as int);
                assert(other.named()[i as int] == (name@, id));
            }
            match self.find_name(&name) {
                Some(x) => {
                    let kept = self.named_ids[x].0.clone();
                    self.named_ids.set(x, (kept, id));
                    proof {
                        assert(self.named() =~= before.named().update(x as int, (before.named()[x as int].0, id)));
                        Self::lemma_name_map_set(before, *self, x as int, id);
                    }
                },
                None => {
                    self.named_ids.push((name, id));
                    proof {
                        assert(self.named() =~= before.named().push((name@, id)));
                        Self::lemma_name_map_push(before, *self, name@, id);
                    }
                },
            }
            proof {
                let seen_before = Set::new(|m: Seq<char>| exists|j: int| 0 <= j < i && (#[trigger] other.named()[j]).0 == m);
                let seen_after = Set::new(|m: Seq<char>| exists|j: int| 0 <= j < i + 1 && (#[trigger] other.named()[j]).0 == m);
                assert(seen_after =~= seen_before.insert(name@)) by {
                    assert(other.named()[i as int].0 == name@);
                }
                assert(other.has_name(name@));
                assert(other.name_map()[name@] == id);
                assert(self.name_map() =~= old(self).name_map().union_prefer_right(other.name_map().restrict(seen_after)));
            }
            i = i + 1;
        }
        let ghost named_done = *self;
        let ghost s0 = self.static_names@;
        let m = other.static_names.len();
        let mut k: usize = 0;
        while k < m
            invariant
                m == other.static_names@.len(),
                k <= m,
                self.next_id == named_done.next_id,
                self.named_ids == named_done.named_ids,
                self.static_names@.len() == s0.len() + k,
                forall|j: int| 0 <= j < s0.len() ==> (#[trigger] self.static_names@[j]) == s0[j],
                forall|j: int| 0 <= j < k ==> (#[trigger] self.static_names@[s0.len() + j])@ == other.static_names@[j]@,
            decreases m - k,
        {
            self.static_names.push(other.static_names[k].clone());
            k = k + 1;
        }
        proof {
            assert(self.named() == named_done.named());
            assert(self.statics() =~= old(self).statics().union(other.statics())) by {
                assert forall|x: Seq<char>| self.statics().contains(x) <==> old(self).statics().union(other.statics()).contains(x) by {
                    if self.statics().contains(x) {
                        let q = choose|q: int| 0 <= q < self.static_names@.len() && (#[trigger] self.static_names@[q])@ == x;
                        if q < s0.len() {
                            assert(old(self).static_names@[q]@ == x);
                        } else {
                            let j = q - s0.len();
                            assert(s0.len() + j == q);
                            assert(self.static_names@[s0.len() + j]@ == other.static_names@[j]@);
                            assert(other.static_names@[j]@ == x);
                        }
                    }
                    if old(self).statics().contains(x) {
                        let q = choose|q: int| 0 <= q < old(self).static_names@.len() && (#[trigger] old(self).static_names@[q])@ == x;
                        assert(self.static_names@[q]@ == x);
                    }
                    if other.statics().contains(x) {
                        let q = choose|q: int| 0 <= q < other.static_names@.len() && (#[trigger] other.static_names@[q])@ == x;
                        assert(self.static_names@[s0.len() + q]@ == x);
                    }
                }
            }
        }
        proof {
            let seen = Set::new(|m: Seq<char>| exists|j: int| 0 <= j < n && (#[trigger] other.named()[j]).0 == m);
            assert(other.name_map().restrict(seen) =~= other.name_map()) by {
                assert forall|m: Seq<char>| other.name_map().dom().contains(m) implies seen.contains(m) by {
                    let j = choose|j: int| 0 <= j < other.named().len() && (#[trigger] other.named()[j]).0 == m;
                }
            }
        }
    }

    /// A copy of the registry, that hands out the same ids from here on.
    pub fn split(&self) -> (r: Self)
        ensures
            r.next() == self.next(),
            r.named() == self.named(),
            r.statics() == self.statics(),
            self.wf() ==> r.wf(),
    {
        let mut named_ids: Vec<(String, DynamicId)> = Vec::new();
        let n = self.named_ids.len();
        let mut i: usize = 0;
        while i < n
            invariant
                n == self.named_ids@.len(),
                i <= n,
                named_ids@.len() == i,
                forall|j: int| 0 <= j < i ==> (#[trigger] named_ids@[j]).0@ == self.named_ids@[j].0@ && named_ids@[j].1 == self.named_ids@[j].1,
            decreases n - i,
        {
            let name = self.named_ids[i].0.clone();
            named_ids.push((name, self.named_ids[i].1));
            i = i + 1;
        }
        let mut static_names: Vec<String> = Vec::new();
        let m = self.static_names.len();
        let mut j: usize = 0;
        while j < m
            invariant
                m == self.static_names@.len(),
                j <= m,
                static_names@.len() == j,
                forall|k: int| 0 <= k < j ==> (#[trigger] static_names@[k])@ == self.static_names@[k]@,
            decreases m - j,
        {
            static_names.push(self.static_names[j].clone());
            j = j + 1;
        }
        let r = Registry { next_id: self.next_id, named_ids, static_names };
        assert(r.named() =~= self.named());
        assert(r.statics() =~= self.statics()) by {
            assert forall|n: Seq<char>| r.statics().contains(n) <==> self.statics().contains(n) by {
                if r.statics().contains(n) {
                    let k = choose|k: int| 0 <= k < r.static_names@.len() && (#[trigger] r.static_names@[k])@ == n;
                    assert(self.static_names@[k]@ == n);
                }
                if self.statics().contains(n) {
                    let k = choose|k: int| 0 <= k < self.static_names@.len() && (#[trigger] self.static_names@[k])@ == n;
                    assert(r.static_names@[k]@ == n);
                }
            }
        }
        r
    }
}

} // verus!

verus! {

/// `FxHasher::default`, then `Hasher::write` of the bytes, then `Hasher::finish`: the FxHasher
/// hash of the bytes from a fresh hasher. A fresh hasher holds 0; `write` mixes in the bytes
/// by words, each step turning the state `h` into `(h.rotate_left(5) ^ word) * K` with `K`
/// odd (wrapping), and `finish` returns the state. The words are read in the machine's byte
/// order and word size, so the value itself is left unsaid; what holds on every machine is
/// stated: no bytes leave the state at 0, and a single byte `b` gives `b * K`, which is not
/// 0 when `b` is not.
#[verifier::external_body]
fn fx_hash_bytes(bytes: &[u8]) -> (r: u64)
    ensures
        bytes@.len() == 0 ==> r == 0,
        bytes@.len() == 1 && bytes@[0] != 0 ==> r != 0,
{
    let mut hasher = rustc_hash::FxHasher::default();
    std::hash::Hasher::write(&mut hasher, bytes);
    std::hash::Hasher::finish(&hasher)
}

/// A hasher for keys that are written once as a single integer (such as type ids): the hash
/// is the integer itself.
pub struct TypeIdHasher(u64);

impl TypeIdHasher {
    /// The value the hasher holds.
    pub closed spec fn state(&self) -> u64 {
        self.0
    }

    pub fn new() -> (h: Self)
        ensures
            h.state() == 0,
    {
        TypeIdHasher(0)
    }

    /// Takes the integer as the hash. Only a fresh hasher may be written to.
    pub fn write_u64(&mut self, i: u64)
        requires
            old(self).state() == 0,
        ensures
            final(self).state() == i,
    {
        self.0 = i;
    }

    /// Takes the low 64 bits of the integer as the hash. Only a fresh hasher may be written to.
    pub fn write_u128(&mut self, i: u128)
        requires
            old(self).state() == 0,
        ensures
            final(self).state() == i % 0x1_0000_0000_0000_0000,
    {
        let low: u64 = (i & 0xFFFF_FFFF_FFFF_FFFFu128) as u64;
        assert(low == i % 0x1_0000_0000_0000_0000) by (bit_vector)
            requires
                low == (i & 0xFFFF_FFFF_FFFF_FFFFu128) as u64,
        ;
        self.0 = low;
    }

    /// Hashes arbitrary bytes with FxHasher. Only a fresh hasher may be written to.
    pub fn write(&mut self, bytes: &[u8])
        requires
            old(self).state() == 0,
        ensures
            bytes@.len() == 0 ==> final(self).state() == 0,
            bytes@.len() == 1 && bytes@[0] != 0 ==> final(self).state() != 0,
    {
        self.0 = fx_hash_bytes(bytes);
    }

    pub fn finish(&self) -> (r: u64)
        ensures
            r == self.state(),
    {
        self.0
    }
}

impl Default for TypeIdHasher {
    fn default() -> (h: Self)
        ensures
            h.state() == 0,
    {
        TypeIdHasher(0)
    }
}

} // verus!

verus! {

/// In a registry that hands out fresh ids, two different names never share an id, and the id
/// that `create` hands out next is held by no name.
pub proof fn law_registry_ids_distinct(r: Registry, a: Seq<char>, b: Seq<char>)
    requires
        r.wf(),
        r.fresh_above(),
        r.has_name(a),
        r.has_name(b),
        a != b,
    ensures
        r.id_of(a) != r.id_of(b),
        r.id_of(a) != r.next(),
{
    let i = choose|i: int| 0 <= i < r.named().len() && (#[trigger] r.named()[i]).0 == a;
    let j = choose|j: int| 0 <= j < r.named().len() && (#[trigger] r.named()[j]).0 == b;
    r.lemma_id_of(i);
    r.lemma_id_of(j);
    assert(i != j);
    if i < j {
        assert(r.named()[i].1 != r.named()[j].1);
    } else {
        assert(r.named()[j].1 != r.named()[i].1);
    }
}

/// Asking for a name a second time gives the same id and leaves the registry as it was.
pub proof fn law_get_named_idempotent(first: Registry, second: Registry, name: Seq<char>, id1: DynamicId, id2: DynamicId)
    requires
        first.wf(),
        first.has_name(name),
        first.id_of(name) == id1,
        first.has_name(name) ==> id2 == first.id_of(name) && second == first,
    ensures
        id2 == id1,
        second == first,
{
}

} // verus!
