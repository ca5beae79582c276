//! A set of bytes, one flag per byte value.
use vstd::prelude::*;

verus! {

/// A set of bytes: `members[b]` tells whether `b` belongs to it.
#[derive(Debug)]
pub struct ByteSet {
    pub members: Vec<bool>,
}

impl ByteSet {
    /// There is one flag per byte value.
    pub open spec fn wf(&self) -> bool {
        self.members@.len() == 256
    }

    /// `b` belongs to the set.
    pub open spec fn has(&self, b: u8) -> bool {
        self.members@[b as int]
    }

    /// The two sets hold the same bytes.
    pub open spec fn same(&self, other: &ByteSet) -> bool {
        self.members@ == other.members@
    }

    /// The set without any byte.
    pub fn empty() -> (s: ByteSet)
        ensures
            s.wf(),
            forall|b: u8| !s.has(b),
    {
        let mut members: Vec<bool> = Vec::new();
        let mut i: usize = 0;
        while i < 256
            invariant
                i <= 256,
                members@.len() == i,
                forall|j: int| 0 <= j < i ==> !#[trigger] members@[j],
            decreases 256 - i,
        {
            members.push(false);
            i = i + 1;
        }
        ByteSet { members }
    }

    /// The set holding `byte` alone.
    pub fn singleton(byte: u8) -> (s: ByteSet)
        ensures
            s.wf(),
            forall|b: u8| s.has(b) <==> b == byte,
    {
        let mut s = ByteSet::empty();
        s.insert(byte);
        s
    }

    /// Adds `byte` to the set.
    pub fn insert(&mut self, byte: u8)
        requires
            old(self).wf(),
        ensures
            final(self).wf(),
            forall|b: u8| final(self).has(b) <==> (old(self).has(b) || b == byte),
    {
        self.members.set(byte as usize, true);
    }

    pub fn contains(&self, byte: u8) -> (r: bool)
        requires
            self.wf(),
        ensures
            r == self.has(byte),
    {
        self.members[byte as usize]
    }

    /// A set with the same bytes.
    pub fn duplicate(&self) -> (s: ByteSet)
        requires
            self.wf(),
        ensures
            s.wf(),
            s.same(self),
    {
        let mut members: Vec<bool> = Vec::new();
        let mut i: usize = 0;
        while i < 256
            invariant
                i <= 256,
                self.wf(),
                members@ == self.members@.take(i as int),
            decreases 256 - i,
        {
            members.push(self.members[i]);
            assert(self.members@.take(i + 1) =~= self.members@.take(i as int).push(
                self.members@[i as int],
            ));
            i = i + 1;
        }
        assert(self.members@.take(256) =~= self.members@);
        ByteSet { members }
    }

    /// Whether the two sets hold the same bytes.
    pub fn same_as(&self, other: &ByteSet) -> (r: bool)
        requires
            self.wf(),
            other.wf(),
        ensures
            r == self.same(other),
    {
        let mut i: usize = 0;
        while i < 256
            invariant
                i <= 256,
                self.wf(),
                other.wf(),
                forall|j: int| 0 <= j < i ==> self.members@[j] == other.members@[j],
            decreases 256 - i,
        {
            if self.members[i] != other.members[i] {
                return false;
            }
            i = i + 1;
        }
        assert(self.members@ =~= other.members@);
        true
    }

    /// The number of bytes in the set.
    pub fn len(&self) -> (n: usize)
        requires
            self.wf(),
        ensures
            n == count_members(self.members@, 256),
            n <= 256,
    {
        let mut n: usize = 0;
        let mut i: usize = 0;
        while i < 256
            invariant
                i <= 256,
                self.wf(),
                n == count_members(self.members@, i as nat),
                n <= i,
            decreases 256 - i,
        {
            if self.members[i] {
                n = n + 1;
            }
            i = i + 1;
        }
        n
    }
}

/// The number of `true` flags among the first `i` of `members`.
pub open spec fn count_members(members: Seq<bool>, i: nat) -> nat
    decreases i,
{
    if i == 0 {
        0
    } else {
        count_members(members, (i - 1) as nat) + if members[i - 1] {
            1nat
        } else {
            0nat
        }
    }
}

} // verus!
