//! Checksum indexes: a mapping from file name to checksum, kept in the order
//! in which names were first inserted.
use vstd::prelude::*;

verus! {

/// One `name -> checksum` pair of an index.
pub struct ChecksumRecord {
    pub name: String,
    pub checksum: String,
}

impl ChecksumRecord {
    pub open spec fn view(&self) -> (Seq<char>, Seq<char>) {
        (self.name@, self.checksum@)
    }
}

/// The mapping that a sequence of records stands for: a later record for a
/// name replaces an earlier one.
pub open spec fn map_of(s: Seq<(Seq<char>, Seq<char>)>) -> Map<Seq<char>, Seq<char>>
    decreases s.len(),
{
    if s.len() == 0 {
        Map::empty()
    } else {
        map_of(s.drop_last()).insert(s.last().0, s.last().1)
    }
}

/// No name occurs twice.
pub open spec fn unique_names(s: Seq<(Seq<char>, Seq<char>)>) -> bool {
    forall|i: int, j: int| 0 <= i < s.len() && 0 <= j < s.len() && i != j ==> s[i].0 != s[j].0
}

/// A checksum index. Each name occurs at most once; records stand in the
/// order in which their names were first inserted.
pub struct ChecksumIndex {
    records: Vec<ChecksumRecord>,
}

impl View for ChecksumIndex {
    type V = Seq<(Seq<char>, Seq<char>)>;

    closed spec fn view(&self) -> Seq<(Seq<char>, Seq<char>)> {
        self.records@.map_values(|r: ChecksumRecord| r@)
    }
}

/// With unique names, the mapping holds exactly the records.
pub proof fn lemma_map_of_unique(s: Seq<(Seq<char>, Seq<char>)>)
    requires
        unique_names(s),
    ensures
        forall|k: Seq<char>| #[trigger] map_of(s).contains_key(k) <==> exists|i: int| 0 <= i < s.len() && s[i].0 == k,
        forall|i: int| 0 <= i < s.len() ==> #[trigger] map_of(s)[s[i].0] == s[i].1,
    decreases s.len(),
{
    if s.len() > 0 {
        let t = s.drop_last();
        assert(unique_names(t));
        lemma_map_of_unique(t);
        assert(map_of(s) == map_of(t).insert(s.last().0, s.last().1));
        assert forall|k: Seq<char>| #[trigger] map_of(s).contains_key(k) <==> exists|i: int| 0 <= i < s.len() && s[i].0 == k by {
            if map_of(s).contains_key(k) && k != s.last().0 {
                assert(map_of(s) == map_of(t).insert(s.last().0, s.last().1));
                assert(map_of(t).contains_key(k));
                let i = choose|i: int| 0 <= i < t.len() && t[i].0 == k;
                assert(s[i] == t[i]);
                assert(s[i].0 == k);
            }
            if map_of(s).contains_key(k) && k == s.last().0 {
                assert(s[s.len() - 1].0 == k);
            }
            if exists|i: int| 0 <= i < s.len() && s[i].0 == k {
                let i = choose|i: int| 0 <= i < s.len() && s[i].0 == k;
                if i < s.len() - 1 {
                    assert(t[i] == s[i]);
                    assert(map_of(t).contains_key(k));
                } else {
                    assert(s[i] == s.last());
                }
            }
        }
        assert forall|i: int| 0 <= i < s.len() implies #[trigger] map_of(s)[s[i].0] == s[i].1 by {
            if i < s.len() - 1 {
                assert(t[i] == s[i]);
                assert(s[i].0 != s[s.len() - 1].0);
            } else {
                assert(s[i] == s.last());
            }
        }
    }
}

impl ChecksumIndex {
    pub open spec fn wf(&self) -> bool {
        unique_names(self@)
    }

    /// The index as a mapping from name to checksum.
    pub open spec fn map(&self) -> Map<Seq<char>, Seq<char>> {
        map_of(self@)
    }

    /// An empty index.
    pub fn new() -> (r: ChecksumIndex)
        ensures
            r@ == Seq::<(Seq<char>, Seq<char>)>::empty(),
            r.wf(),
    {
        let r = ChecksumIndex { records: Vec::new() };
        assert(r@ =~= Seq::<(Seq<char>, Seq<char>)>::empty());
        r
    }

    /// The number of records.
    pub fn len(&self) -> (r: usize)
        ensures
            r == self@.len(),
    {
        self.records.len()
    }

    /// The record at position `i`.
    pub fn record(&self, i: usize) -> (r: &ChecksumRecord)
        requires
            i < self@.len(),
        ensures
            r@ == self@[i as int],
    {
        &self.records[i]
    }

    /// Position of `name`, if the index holds it.
    pub fn find(&self, name: &String) -> (r: Option<usize>)
        ensures
            r matches Some(i) ==> i < self@.len() && self@[i as int].0 == name@,
            r is None ==> forall|i: int| 0 <= i < self@.len() ==> self@[i].0 != name@,
    {
        let mut i: usize = 0;
        while i < self.records.len()
            invariant
                i <= self.records@.len(),
                forall|j: int| 0 <= j < i ==> self@[j].0 != name@,
            decreases self.records@.len() - i,
        {
            if self.records[i].name == *name {
                return Some(i);
            }
            i += 1;
        }
        None
    }

    /// The checksum recorded for `name`.
    pub fn get(&self, name: &String) -> (r: Option<&String>)
        requires
            self.wf(),
        ensures
            r is None <==> !self.map().contains_key(name@),
            r matches Some(c) ==> self.map()[name@] == c@,
    {
        proof {
            lemma_map_of_unique(self@);
        }
        match self.find(name) {
            Some(i) => Some(&self.records[i].checksum),
            None => None,
        }
    }

    /// Appends a record for a name that the index does not hold yet.
    pub fn push_new(&mut self, name: String, checksum: String)
        requires
            old(self).wf(),
            forall|i: int| 0 <= i < old(self)@.len() ==> old(self)@[i].0 != name@,
        ensures
            final(self).wf(),
            final(self)@ == old(self)@.push((name@, checksum@)),
    {
        let ghost s0 = self@;
        self.records.push(ChecksumRecord { name, checksum });
        assert(self@ =~= s0.push((name@, checksum@)));
    }

    /// Records `name -> checksum`. A name already present keeps its position
    /// and takes the new checksum; a new name goes last.
    pub fn insert(&mut self, name: String, checksum: String)
        requires
            old(self).wf(),
        ensures
            final(self).wf(),
            final(self)@ == (if exists|i: int| 0 <= i < old(self)@.len() && old(self)@[i].0 == name@ {
                old(self)@.update(
                    choose|i: int| 0 <= i < old(self)@.len() && old(self)@[i].0 == name@,
                    (name@, checksum@),
                )
            } else {
                old(self)@.push((name@, checksum@))
            }),
            final(self).map() == old(self).map().insert(name@, checksum@),
    {
        let ghost s0 = self@;
        match self.find(&name) {
            Some(i) => {
                proof {
                    assert(unique_names(s0));
                    let c = choose|j: int| 0 <= j < s0.len() && s0[j].0 == name@;
                    assert(c == i);
                }
                self.records.set(i, ChecksumRecord { name, checksum });
                proof {
                    assert(self@ =~= s0.update(i as int, (name@, checksum@)));
                    lemma_map_of_unique(s0);
                    lemma_map_of_unique(self@);
                    assert(self.map() =~= map_of(s0).insert(name@, checksum@)) by {
                        assert forall|k: Seq<char>| #[trigger] self.map().contains_key(k) <==> map_of(s0).insert(name@, checksum@).contains_key(k) by {
                            if k == name@ {
                                assert(self@[i as int].0 == k);
                            }
                            if self.map().contains_key(k) {
                                let j = choose|j: int| 0 <= j < self@.len() && self@[j].0 == k;
                                if j != i {
                                    assert(s0[j].0 == k);
                                }
                            }
                            if map_of(s0).contains_key(k) {
                                let j = choose|j: int| 0 <= j < s0.len() && s0[j].0 == k;
                                if j != i {
                                    assert(self@[j].0 == k);
                                }
                            }
                        }
                        assert forall|k: Seq<char>| #[trigger] self.map().contains_key(k) implies self.map()[k] == map_of(s0).insert(name@, checksum@)[k] by {
                            let j = choose|j: int| 0 <= j < self@.len() && self@[j].0 == k;
                            assert(self.map()[self@[j].0] == self@[j].1);
                            if j != i {
                                assert(map_of(s0)[s0[j].0] == s0[j].1);
                            }
                        }
                    }
                }
            },
            None => {
                self.records.push(ChecksumRecord { name, checksum });
                proof {
                    assert(self@ =~= s0.push((name@, checksum@)));
                    assert(self@.drop_last() =~= s0);
                }
            },
        }
    }
}

} // verus!
