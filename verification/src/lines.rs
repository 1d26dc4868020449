//! The lines gathered by a run: a set, kept in the order in which it is
//! written out.
use vstd::prelude::*;
use vstd::utf8::encode_utf8;

verus! {

/// `a` comes before `b` in byte order from `from` on, given that the two
/// agree before `from`: at the first place where they differ `a` holds the
/// smaller byte, or `a` ends there and `b` goes on.
pub open spec fn before_from(a: Seq<u8>, b: Seq<u8>, from: int) -> bool
    decreases a.len() - from,
{
    if from < 0 || from >= b.len() {
        false
    } else if from >= a.len() {
        true
    } else if a[from] != b[from] {
        a[from] < b[from]
    } else {
        before_from(a, b, from + 1)
    }
}

/// `a` comes before `b` in the lexicographic order of bytes.
pub open spec fn bytes_before(a: Seq<u8>, b: Seq<u8>) -> bool {
    before_from(a, b, 0)
}

/// `a` comes before `b` in the order of lines: that of their UTF-8 bytes.
pub open spec fn line_before(a: Seq<char>, b: Seq<char>) -> bool {
    bytes_before(encode_utf8(a), encode_utf8(b))
}

/// Each line comes before every line behind it.
pub open spec fn ascending(lines: Seq<Seq<char>>) -> bool {
    forall|i: int, j: int| 0 <= i < j < lines.len() ==> line_before(lines[i], lines[j])
}

/// The order is transitive.
pub proof fn lemma_before_transitive(a: Seq<u8>, b: Seq<u8>, c: Seq<u8>, from: int)
    requires
        before_from(a, b, from),
        before_from(b, c, from),
    ensures
        before_from(a, c, from),
    decreases a.len() - from,
{
    if from < a.len() && a[from] == b[from] && b[from] == c[from] {
        lemma_before_transitive(a, b, c, from + 1);
    }
}

/// Nothing comes before itself.
pub proof fn lemma_before_irreflexive(a: Seq<u8>, from: int)
    ensures
        !before_from(a, a, from),
    decreases a.len() - from,
{
    if 0 <= from < a.len() {
        lemma_before_irreflexive(a, from + 1);
    }
}

/// No line comes before itself, and the order of lines is transitive.
pub proof fn lemma_line_order(a: Seq<char>, b: Seq<char>, c: Seq<char>)
    ensures
        !line_before(a, a),
        line_before(a, b) && line_before(b, c) ==> line_before(a, c),
{
    lemma_before_irreflexive(encode_utf8(a), 0);
    if line_before(a, b) && line_before(b, c) {
        lemma_before_transitive(encode_utf8(a), encode_utf8(b), encode_utf8(c), 0);
    }
}

/// The outcome of comparing two byte strings.
#[derive(Debug, Clone, Copy, PartialEq, Eq, Structural)]
pub enum Order {
    Before,
    Same,
    After,
}

/// Compares two byte strings in lexicographic order.
pub fn order_of(a: &[u8], b: &[u8]) -> (r: Order)
    ensures
        r == Order::Before <==> bytes_before(a@, b@),
        r == Order::After <==> bytes_before(b@, a@),
        r == Order::Same <==> a@ == b@,
{
    let mut i: usize = 0;
    while i < a.len() && i < b.len()
        invariant
            i <= a@.len(),
            i <= b@.len(),
            a@.take(i as int) == b@.take(i as int),
            before_from(a@, b@, i as int) == bytes_before(a@, b@),
            before_from(b@, a@, i as int) == bytes_before(b@, a@),
        decreases a@.len() - i,
    {
        if a[i] != b[i] {
            proof {
                assert(a@ != b@);
            }
            if a[i] < b[i] {
                return Order::Before;
            } else {
                return Order::After;
            }
        }
        assert(a@.take(i + 1) =~= a@.take(i as int).push(a@[i as int]));
        assert(b@.take(i + 1) =~= b@.take(i as int).push(b@[i as int]));
        i = i + 1;
    }
    if a.len() == b.len() {
        assert(a@ =~= a@.take(i as int));
        assert(b@ =~= b@.take(i as int));
        Order::Same
    } else if a.len() < b.len() {
        Order::Before
    } else {
        Order::After
    }
}

/// A set of lines, held in ascending byte order.
#[derive(Debug, PartialEq, Eq)]
pub struct EntrySet {
    lines: Vec<String>,
}

impl View for EntrySet {
    type V = Seq<Seq<char>>;

    /// The lines, in the order in which they are held.
    closed spec fn view(&self) -> Seq<Seq<char>> {
        Seq::new(self.lines@.len(), |i: int| self.lines@[i]@)
    }
}

impl EntrySet {
    /// The lines ascend, so no line is held twice.
    pub open spec fn wf(&self) -> bool {
        ascending(self@)
    }

    /// The lines as a set.
    pub open spec fn set(&self) -> Set<Seq<char>> {
        self@.to_set()
    }

    /// The empty set.
    pub fn new() -> (r: EntrySet)
        ensures
            r@ == Seq::<Seq<char>>::empty(),
            r.wf(),
    {
        let r = EntrySet { lines: Vec::new() };
        assert(r@ =~= Seq::<Seq<char>>::empty());
        r
    }

    /// The number of lines.
    pub fn len(&self) -> (r: usize)
        ensures
            r == self@.len(),
    {
        self.lines.len()
    }

    pub fn is_empty(&self) -> (r: bool)
        ensures
            r == (self@.len() == 0),
    {
        self.lines.len() == 0
    }

    /// The line at place `i` of the order.
    pub fn get(&self, i: usize) -> (r: &String)
        requires
            i < self@.len(),
        ensures
            r@ == self@[i as int],
    {
        &self.lines[i]
    }

    /// The place of `line` in the order if it is held, else the place at
    /// which it would have to stand.
    fn find(&self, line: &str) -> (r: (bool, usize))
        requires
            self.wf(),
        ensures
            r.1 <= self@.len(),
            r.0 ==> r.1 < self@.len() && self@[r.1 as int] == line@,
            !r.0 ==> !self@.contains(line@),
            !r.0 ==> forall|i: int| 0 <= i < r.1 ==> line_before(#[trigger] self@[i], line@),
            !r.0 ==> forall|i: int|
                r.1 <= i < self@.len() ==> line_before(line@, #[trigger] self@[i]),
    {
        let bytes = line.as_bytes();
        let mut low: usize = 0;
        let mut high: usize = self.lines.len();
        while low < high
            invariant
                self.wf(),
                bytes@ == encode_utf8(line@),
                low <= high <= self@.len(),
                self@.len() == self.lines@.len(),
                forall|i: int| 0 <= i < low ==> line_before(#[trigger] self@[i], line@),
                forall|i: int| high <= i < self@.len() ==> line_before(line@, #[trigger] self@[i]),
            decreases high - low,
        {
            let mid = low + (high - low) / 2;
            let held = self.lines[mid].as_str().as_bytes();
            assert(held@ == encode_utf8(self@[mid as int]));
            match order_of(held, bytes) {
                Order::Same => {
                    proof {
                        vstd::utf8::encode_utf8_decode_utf8(self@[mid as int]);
                        vstd::utf8::encode_utf8_decode_utf8(line@);
                    }
                    return (true, mid);
                },
                Order::Before => {
                    assert forall|i: int| 0 <= i < mid + 1 implies line_before(
                        #[trigger] self@[i],
                        line@,
                    ) by {
                        if i < mid {
                            lemma_line_order(self@[i], self@[mid as int], line@);
                        }
                    }
                    low = mid + 1;
                },
                Order::After => {
                    assert forall|i: int| mid <= i < self@.len() implies line_before(
                        line@,
                        #[trigger] self@[i],
                    ) by {
                        if i > mid {
                            lemma_line_order(line@, self@[mid as int], self@[i]);
                        }
                    }
                    high = mid;
                },
            }
        }
        proof {
            if self@.contains(line@) {
                let i = choose|i: int| 0 <= i < self@.len() && self@[i] == line@;
                lemma_line_order(line@, line@, line@);
            }
        }
        (false, low)
    }

    /// Whether `line` is in the set.
    pub fn contains(&self, line: &str) -> (r: bool)
        requires
            self.wf(),
        ensures
            r == self@.contains(line@),
    {
        let (found, _) = self.find(line);
        found
    }

    /// Puts `line` into the set and tells whether it was new.
    ///
    /// A new line takes its place in the order; a line that is held
    /// already changes nothing.
    pub fn insert(&mut self, line: String) -> (r: bool)
        requires
            old(self).wf(),
        ensures
            final(self).wf(),
            r == !old(self)@.contains(line@),
            final(self)@.contains(line@),
            final(self).set() == old(self).set().insert(line@),
            !r ==> final(self)@ == old(self)@,
            r ==> exists|k: int|
                0 <= k <= old(self)@.len() && final(self)@ == #[trigger] old(self)@.insert(
                    k,
                    line@,
                ),
    {
        let (found, at) = self.find(line.as_str());
        if found {
            assert(self@[at as int] == line@);
            assert(self.set().insert(line@) =~= self.set());
            return false;
        }
        let ghost before = self@;
        let ghost text = line@;
        self.lines.insert(at, line);
        proof {
            let after = self@;
            assert(after =~= before.insert(at as int, text));
            assert(after[at as int] == text);
            assert forall|i: int, j: int| 0 <= i < j < after.len() implies line_before(
                after[i],
                after[j],
            ) by {
                if j < at {
                    assert(after[i] == before[i] && after[j] == before[j]);
                } else if j == at {
                    assert(after[i] == before[i]);
                } else if i < at {
                    assert(after[i] == before[i] && after[j] == before[j - 1]);
                } else if i == at {
                    assert(after[j] == before[j - 1]);
                } else {
                    assert(after[i] == before[i - 1] && after[j] == before[j - 1]);
                }
            }
            assert(after.to_set() =~= before.to_set().insert(text)) by {
                assert forall|x: Seq<char>| after.to_set().contains(x) implies before.to_set().insert(
                    text,
                ).contains(x) by {
                    let i = choose|i: int| 0 <= i < after.len() && after[i] == x;
                    if i < at {
                        assert(before[i] == x);
                    } else if i > at {
                        assert(before[i - 1] == x);
                    }
                }
                assert forall|x: Seq<char>| before.to_set().insert(text).contains(
                    x,
                ) implies after.to_set().contains(x) by {
                    if x == text {
                        assert(after[at as int] == x);
                    } else {
                        let i = choose|i: int| 0 <= i < before.len() && before[i] == x;
                        if i < at {
                            assert(after[i] == x);
                        } else {
                            assert(after[i + 1] == x);
                        }
                    }
                }
            }
        }
        true
    }
}

} // verus!
