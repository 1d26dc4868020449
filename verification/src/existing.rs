//! What is declared already: the paths that the `tmpfiles.d` files of the
//! root declare, each with the line that declares it.
use crate::lines::{
    bytes_before, lemma_before_irreflexive, lemma_before_transitive, order_of, Order,
};
use crate::path::{key_of, path_key};
use vstd::prelude::*;

verus! {

/// A map from paths to the lines that declare them.
///
/// A path is held under its key (see [`path_key`]), so that a path is
/// found under any of its spellings.
#[derive(Debug, PartialEq, Eq)]
pub struct ExistingEntries {
    keys: Vec<Vec<u8>>,
    lines: Vec<String>,
}

impl View for ExistingEntries {
    type V = Map<Seq<u8>, Seq<char>>;

    /// The line of each key.
    closed spec fn view(&self) -> Map<Seq<u8>, Seq<char>> {
        Map::new(
            |key: Seq<u8>| exists|i: int| 0 <= i < self.keys@.len() && self.keys@[i]@ == key,
            |key: Seq<u8>| self.lines@[self.place(key)]@,
        )
    }
}

impl ExistingEntries {
    /// A place at which `key` is held.
    closed spec fn place(&self, key: Seq<u8>) -> int {
        choose|i: int| 0 <= i < self.keys@.len() && self.keys@[i]@ == key
    }

    /// The keys ascend in byte order, and each has its line.
    pub closed spec fn wf(&self) -> bool {
        &&& self.keys@.len() == self.lines@.len()
        &&& forall|i: int, j: int|
            0 <= i < j < self.keys@.len() ==> bytes_before(
                #[trigger] self.keys@[i]@,
                #[trigger] self.keys@[j]@,
            )
    }

    proof fn lemma_place(&self, i: int)
        requires
            self.wf(),
            0 <= i < self.keys@.len(),
        ensures
            self.place(self.keys@[i]@) == i,
            self@.contains_key(self.keys@[i]@),
            self@[self.keys@[i]@] == self.lines@[i]@,
    {
        let key = self.keys@[i]@;
        let p = self.place(key);
        lemma_before_irreflexive(key, 0);
        if p < i {
            assert(bytes_before(self.keys@[p]@, self.keys@[i]@));
        } else if i < p {
            assert(bytes_before(self.keys@[i]@, self.keys@[p]@));
        }
    }

    /// The empty map.
    pub fn new() -> (r: ExistingEntries)
        ensures
            r.wf(),
            r@ == Map::<Seq<u8>, Seq<char>>::empty(),
    {
        let r = ExistingEntries { keys: Vec::new(), lines: Vec::new() };
        assert(r@ =~= Map::<Seq<u8>, Seq<char>>::empty());
        r
    }

    /// The place of `key` if it is held, else the place at which it
    /// would have to stand.
    fn find(&self, key: &[u8]) -> (r: (bool, usize))
        requires
            self.wf(),
        ensures
            r.1 <= self.keys@.len(),
            r.0 ==> r.1 < self.keys@.len() && self.keys@[r.1 as int]@ == key@,
            r.0 == self@.contains_key(key@),
            !r.0 ==> forall|i: int|
                0 <= i < r.1 ==> bytes_before(#[trigger] self.keys@[i]@, key@),
            !r.0 ==> forall|i: int|
                r.1 <= i < self.keys@.len() ==> bytes_before(key@, #[trigger] self.keys@[i]@),
    {
        let mut low: usize = 0;
        let mut high: usize = self.keys.len();
        while low < high
            invariant
                self.wf(),
                low <= high <= self.keys@.len(),
                forall|i: int| 0 <= i < low ==> bytes_before(#[trigger] self.keys@[i]@, key@),
                forall|i: int|
                    high <= i < self.keys@.len() ==> bytes_before(key@, #[trigger] self.keys@[i]@),
            decreases high - low,
        {
            let mid = low + (high - low) / 2;
            match order_of(self.keys[mid].as_slice(), key) {
                Order::Same => {
                    proof {
                        self.lemma_place(mid as int);
                    }
                    return (true, mid);
                },
                Order::Before => {
                    assert forall|i: int| 0 <= i < mid + 1 implies bytes_before(
                        #[trigger] self.keys@[i]@,
                        key@,
                    ) by {
                        if i < mid {
                            lemma_before_transitive(self.keys@[i]@, self.keys@[mid as int]@, key@, 0);
                        }
                    }
                    low = mid + 1;
                },
                Order::After => {
                    assert forall|i: int| mid <= i < self.keys@.len() implies bytes_before(
                        key@,
                        #[trigger] self.keys@[i]@,
                    ) by {
                        if i > mid {
                            lemma_before_transitive(key@, self.keys@[mid as int]@, self.keys@[i]@, 0);
                        }
                    }
                    high = mid;
                },
            }
        }
        proof {
            if self@.contains_key(key@) {
                let i = choose|i: int| 0 <= i < self.keys@.len() && self.keys@[i]@ == key@;
                lemma_before_irreflexive(key@, 0);
            }
        }
        (false, low)
    }

    /// Whether `path` is declared, under whatever spelling.
    pub fn contains_key(&self, path: &[u8]) -> (r: bool)
        requires
            self.wf(),
        ensures
            r == self@.contains_key(path_key(path@)),
    {
        let key = key_of(path);
        let (found, _) = self.find(key.as_slice());
        found
    }

    /// The line that declares `path`, if it is declared.
    pub fn get(&self, path: &[u8]) -> (r: Option<&String>)
        requires
            self.wf(),
        ensures
            match r {
                Some(line) => self@.contains_key(path_key(path@)) && line@ == self@[path_key(
                    path@,
                )],
                None => !self@.contains_key(path_key(path@)),
            },
    {
        let key = key_of(path);
        let (found, at) = self.find(key.as_slice());
        if found {
            proof {
                self.lemma_place(at as int);
            }
            Some(&self.lines[at])
        } else {
            None
        }
    }

    /// Records that `line` declares `path`. Where the path was declared
    /// before, the new line takes the place of the old one.
    pub fn insert(&mut self, path: &[u8], line: String)
        requires
            old(self).wf(),
        ensures
            final(self).wf(),
            final(self)@ == old(self)@.insert(path_key(path@), line@),
    {
        let key = key_of(path);
        let (found, at) = self.find(key.as_slice());
        let ghost before = *self;
        let ghost text = line@;
        if found {
            self.lines.set(at, line);
            proof {
                assert(self.keys@ == before.keys@);
                assert(self.wf());
                let want = before@.insert(key@, text);
                assert forall|k: Seq<u8>| self@.contains_key(k) <==> want.contains_key(k) by {
                    if k == key@ {
                        assert(self.keys@[at as int]@ == k);
                    }
                }
                assert forall|k: Seq<u8>| #[trigger] self@.contains_key(k) implies self@[k]
                    == want[k] by {
                    let i = choose|i: int| 0 <= i < self.keys@.len() && self.keys@[i]@ == k;
                    self.lemma_place(i);
                    self.lemma_place(at as int);
                    before.lemma_place(i);
                    if i == at {
                        assert(k == key@);
                    } else {
                        assert(k != key@);
                        assert(self.lines@[i] == before.lines@[i]);
                    }
                }
                assert(self@ =~= want);
            }
        } else {
            self.keys.insert(at, key);
            self.lines.insert(at, line);
            proof {
                let keys = self.keys@;
                assert forall|i: int, j: int| 0 <= i < j < keys.len() implies bytes_before(
                    #[trigger] keys[i]@,
                    #[trigger] keys[j]@,
                ) by {
                    if j < at {
                        assert(keys[i] == before.keys@[i] && keys[j] == before.keys@[j]);
                    } else if j == at {
                        assert(keys[i] == before.keys@[i]);
                    } else if i < at {
                        assert(keys[i] == before.keys@[i] && keys[j] == before.keys@[j - 1]);
                    } else if i == at {
                        assert(keys[j] == before.keys@[j - 1]);
                    } else {
                        assert(keys[i] == before.keys@[i - 1] && keys[j] == before.keys@[j - 1]);
                    }
                }
                assert(self.wf());
                let want = before@.insert(key@, text);
                assert forall|k: Seq<u8>| self@.contains_key(k) <==> want.contains_key(k) by {
                    if self@.contains_key(k) {
                        let i = self.place(k);
                        if i < at {
                            assert(before.keys@[i]@ == k);
                        } else if i > at {
                            assert(before.keys@[i - 1]@ == k);
                        }
                    }
                    if want.contains_key(k) {
                        if k == key@ {
                            assert(keys[at as int]@ == k);
                        } else {
                            let i = before.place(k);
                            if i < at {
                                assert(keys[i]@ == k);
                            } else {
                                assert(keys[i + 1]@ == k);
                            }
                        }
                    }
                }
                assert forall|k: Seq<u8>| #[trigger] self@.contains_key(k) implies self@[k]
                    == want[k] by {
                    let i = self.place(k);
                    self.lemma_place(i);
                    if i < at {
                        before.lemma_place(i);
                    } else if i > at {
                        before.lemma_place(i - 1);
                    }
                }
                assert(self@ =~= want);
            }
        }
    }
}

} // verus!
