//! Sets of byte strings that keep their members in the order of arrival.

use crate::text::{bytes_eq, join, join_bytes, rows};
use vstd::prelude::*;
use vstd::slice::slice_to_vec;

verus! {

/// `s` with `a` added behind, unless `s` holds it already.
pub open spec fn insert_unique(s: Seq<Seq<u8>>, a: Seq<u8>) -> Seq<Seq<u8>> {
    if s.contains(a) {
        s
    } else {
        s.push(a)
    }
}

/// `a`, followed by the members of `b` that `a` lacks, each once, in the
/// order in which `b` first lists them.
pub open spec fn union(a: Seq<Seq<u8>>, b: Seq<Seq<u8>>) -> Seq<Seq<u8>>
    decreases b.len(),
{
    if b.len() == 0 {
        a
    } else {
        insert_unique(union(a, b.drop_last()), b.last())
    }
}

/// A union holds exactly the members of its two arguments, and repeats
/// nothing if the first argument repeats nothing.
pub proof fn lemma_union_members(a: Seq<Seq<u8>>, b: Seq<Seq<u8>>)
    ensures
        union(a, b).to_set() == a.to_set().union(b.to_set()),
        a.no_duplicates() ==> union(a, b).no_duplicates(),
        a.len() <= union(a, b).len(),
        union(a, b).take(a.len() as int) == a,
    decreases b.len(),
{
    if b.len() == 0 {
        assert(b.to_set() =~= Set::<Seq<u8>>::empty());
        assert(a.to_set().union(b.to_set()) =~= a.to_set());
        assert(a.take(a.len() as int) =~= a);
    } else {
        let front = b.drop_last();
        let u = union(a, front);
        let r = union(a, b);
        lemma_union_members(a, front);
        assert(r.take(a.len() as int) =~= u.take(a.len() as int));
        assert forall|x: Seq<u8>| r.to_set().contains(x) <==> a.to_set().union(
            b.to_set(),
        ).contains(x) by {
            if r.contains(x) {
                let i = choose|i: int| 0 <= i < r.len() && r[i] == x;
                if i < u.len() {
                    assert(u.contains(x));
                    assert(u.to_set().contains(x));
                    if front.contains(x) {
                        let j = choose|j: int| 0 <= j < front.len() && front[j] == x;
                        assert(b[j] == x);
                    }
                } else {
                    assert(b[b.len() - 1] == x);
                }
            }
            if a.contains(x) {
                assert(u.to_set().contains(x));
                let i = choose|i: int| 0 <= i < u.len() && u[i] == x;
                assert(r[i] == x);
            }
            if b.contains(x) {
                let j = choose|j: int| 0 <= j < b.len() && b[j] == x;
                if j < front.len() {
                    assert(front[j] == x);
                    assert(u.to_set().contains(x));
                    let i = choose|i: int| 0 <= i < u.len() && u[i] == x;
                    assert(r[i] == x);
                } else {
                    if u.contains(x) {
                        let i = choose|i: int| 0 <= i < u.len() && u[i] == x;
                        assert(r[i] == x);
                    } else {
                        assert(r[u.len() as int] == x);
                    }
                }
            }
        }
        assert(r.to_set() =~= a.to_set().union(b.to_set()));
    }
}

/// Adding, to nothing, a list that repeats nothing gives that list.
pub proof fn lemma_union_of_distinct(b: Seq<Seq<u8>>)
    requires
        b.no_duplicates(),
    ensures
        union(Seq::<Seq<u8>>::empty(), b) == b,
    decreases b.len(),
{
    if b.len() == 0 {
        assert(b =~= Seq::<Seq<u8>>::empty());
    } else {
        let front = b.drop_last();
        lemma_union_of_distinct(front);
        if front.contains(b.last()) {
            let i = choose|i: int| 0 <= i < front.len() && front[i] == b.last();
            assert(b[i] == b[b.len() - 1]);
        }
        assert(front.push(b.last()) =~= b);
    }
}

/// A set of byte strings that remembers the order in which they arrived.
/// Looking a member up walks the list.
#[derive(Debug)]
pub struct TextSet {
    items: Vec<Vec<u8>>,
}

impl View for TextSet {
    type V = Seq<Seq<u8>>;

    /// The members, in order of arrival.
    closed spec fn view(&self) -> Seq<Seq<u8>> {
        rows(self.items@)
    }
}

impl TextSet {
    #[verifier::type_invariant]
    spec fn distinct(self) -> bool {
        rows(self.items@).no_duplicates()
    }

    /// The empty set.
    pub fn new() -> (set: TextSet)
        ensures
            set@ == Seq::<Seq<u8>>::empty(),
    {
        let items: Vec<Vec<u8>> = Vec::new();
        assert(rows(items@) =~= Seq::<Seq<u8>>::empty());
        TextSet { items }
    }

    /// The set that holds `member` alone.
    pub fn singleton(member: Vec<u8>) -> (set: TextSet)
        ensures
            set@ == seq![member@],
    {
        let mut items: Vec<Vec<u8>> = Vec::new();
        items.push(member);
        assert(rows(items@) =~= seq![member@]);
        TextSet { items }
    }

    /// The number of members.
    pub fn len(&self) -> (n: usize)
        ensures
            n == self@.len(),
            self@.no_duplicates(),
    {
        proof {
            use_type_invariant(self);
        }
        self.items.len()
    }

    /// Whether the set is empty.
    pub fn is_empty(&self) -> (empty: bool)
        ensures
            empty == (self@.len() == 0),
    {
        self.items.len() == 0
    }

    /// Whether `member` is in the set.
    pub fn contains(&self, member: &[u8]) -> (found: bool)
        ensures
            found == self@.contains(member@),
    {
        let mut i: usize = 0;
        while i < self.items.len()
            invariant
                0 <= i <= self.items@.len(),
                forall|j: int| 0 <= j < i ==> rows(self.items@)[j] != member@,
            decreases self.items@.len() - i,
        {
            if bytes_eq(self.items[i].as_slice(), member) {
                assert(rows(self.items@)[i as int] == member@);
                return true;
            }
            i += 1;
        }
        false
    }

    /// The set with `member` added.
    pub fn with(self, member: Vec<u8>) -> (set: TextSet)
        ensures
            set@ == insert_unique(self@, member@),
    {
        proof {
            use_type_invariant(&self);
        }
        if self.contains(member.as_slice()) {
            self
        } else {
            let mut items = self.items;
            let ghost before = items@;
            items.push(member);
            assert(rows(items@) =~= rows(before).push(member@));
            TextSet { items }
        }
    }

    /// The set with every one of `members` added, in their order.
    pub fn extended(self, members: &Vec<Vec<u8>>) -> (set: TextSet)
        ensures
            set@ == union(self@, rows(members@)),
    {
        let mut set = self;
        let mut k: usize = 0;
        let ghost added = rows(members@);
        assert(added.take(0) =~= Seq::<Seq<u8>>::empty());
        while k < members.len()
            invariant
                0 <= k <= members@.len(),
                added == rows(members@),
                set@ == union(self@, added.take(k as int)),
            decreases members@.len() - k,
        {
            proof {
                let now = added.take(k + 1);
                assert(now.drop_last() =~= added.take(k as int));
                assert(now.last() == members@[k as int]@);
            }
            set = set.with(slice_to_vec(members[k].as_slice()));
            k += 1;
        }
        assert(added.take(k as int) =~= added);
        set
    }

    /// The set with every member of `other` added.
    pub fn union(self, other: &TextSet) -> (set: TextSet)
        ensures
            set@ == union(self@, other@),
    {
        self.extended(&other.items)
    }

    /// The members, in order of arrival.
    pub fn to_vec(&self) -> (members: Vec<Vec<u8>>)
        ensures
            rows(members@) == self@,
    {
        let mut members: Vec<Vec<u8>> = Vec::new();
        let mut k: usize = 0;
        while k < self.items.len()
            invariant
                0 <= k <= self.items@.len(),
                rows(members@) == self@.take(k as int),
            decreases self.items@.len() - k,
        {
            let ghost before = members@;
            members.push(slice_to_vec(self.items[k].as_slice()));
            assert(rows(members@) =~= rows(before).push(self.items@[k as int]@));
            assert(self@.take(k + 1) =~= self@.take(k as int).push(self.items@[k as int]@));
            k += 1;
        }
        assert(self@.take(k as int) =~= self@);
        members
    }

    /// The members, with `sep` between neighbours.
    pub fn joined(&self, sep: u8) -> (out: Vec<u8>)
        ensures
            out@ == join(self@, sep),
    {
        join_bytes(self.items.as_slice(), sep)
    }
}

} // verus!
