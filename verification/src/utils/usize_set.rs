use vstd::prelude::*;

verus! {

/// A set of small integers with dense membership testing: a bitmap answers
/// membership, and a parallel vector remembers the insertion order.
pub struct USizeSet {
    bitmap: Vec<bool>,
    values: Vec<usize>,
}

impl USizeSet {
    /// The members, in insertion order and without repetition.
    pub closed spec fn members(&self) -> Seq<usize> {
        self.values@
    }

    pub open spec fn contains(&self, v: usize) -> bool {
        self.members().contains(v)
    }

    /// The bitmap marks exactly the members, and no member repeats.
    pub closed spec fn wf(&self) -> bool {
        &&& forall|v: usize|
            self.values@.contains(v) <==> (v < self.bitmap@.len() && self.bitmap@[v as int])
        &&& forall|i: int, j: int|
            0 <= i < j < self.values@.len() ==> self.values@[i] != self.values@[j]
    }

    pub fn new() -> (r: Self)
        ensures
            r.wf(),
            r.members() == Seq::<usize>::empty(),
    {
        USizeSet { bitmap: Vec::new(), values: Vec::new() }
    }

    /// The bitmap bit at `j`, absent bits reading as false.
    pub closed spec fn slot_at(&self, j: int) -> bool {
        0 <= j < self.bitmap@.len() && self.bitmap@[j]
    }

    /// Adds `value` if it is not yet a member; a repeated insertion changes
    /// nothing.
    pub fn insert(&mut self, value: usize)
        requires
            old(self).wf(),
        ensures
            final(self).wf(),
            old(self).contains(value) ==> final(self).members() == old(self).members(),
            !old(self).contains(value) ==> final(self).members() == old(self).members().push(
                value,
            ),
            forall|v: usize| final(self).contains(v) <==> (old(self).contains(v) || v == value),
    {
        let was_set = value < self.bitmap.len() && self.bitmap[value];
        if !was_set {
            while self.bitmap.len() <= value
                invariant
                    self.values@ == old(self).values@,
                    self.bitmap@.len() >= old(self).bitmap@.len(),
                    forall|j: int|
                        0 <= j < self.bitmap@.len() ==> (#[trigger] self.bitmap@[j])
                            == old(self).slot_at(j),
                decreases value + 1 - self.bitmap.len(),
            {
                self.bitmap.push(false);
            }
            self.bitmap[value] = true;
            self.values.push(value);
            proof {
                let oldv = old(self).values@;
                let newv = self.values@;
                assert(!oldv.contains(value));
                assert(newv[oldv.len() as int] == value);
                assert forall|v: usize| newv.contains(v) implies (v < self.bitmap@.len()
                    && self.bitmap@[v as int]) by {
                    let k = choose|k: int| 0 <= k < newv.len() && newv[k] == v;
                    if k < oldv.len() {
                        assert(oldv[k] == v);
                        assert(oldv.contains(v));
                        assert(v != value);
                        assert(old(self).slot_at(v as int));
                    }
                }
                assert forall|v: usize| (v < self.bitmap@.len() && self.bitmap@[v as int]) implies
                    newv.contains(v) by {
                    if v == value {
                        assert(newv[oldv.len() as int] == v);
                    } else {
                        assert(old(self).slot_at(v as int));
                        assert(oldv.contains(v));
                        let k = choose|k: int| 0 <= k < oldv.len() && oldv[k] == v;
                        assert(newv[k] == v);
                    }
                }
                assert forall|i: int, j: int| 0 <= i < j < newv.len() implies newv[i]
                    != newv[j] by {
                    if j == oldv.len() as int {
                        assert(newv[i] == oldv[i]);
                        assert(oldv.contains(oldv[i]));
                    }
                }
                assert forall|v: usize| self.contains(v) implies (old(self).contains(v) || v
                    == value) by {
                    let k = choose|k: int| 0 <= k < newv.len() && newv[k] == v;
                    if k < oldv.len() {
                        assert(oldv[k] == v);
                    }
                }
                assert forall|v: usize| old(self).contains(v) implies self.contains(v) by {
                    let k = choose|k: int| 0 <= k < oldv.len() && oldv[k] == v;
                    assert(newv[k] == v);
                }
            }
        }
    }

    /// Removes every member.
    pub fn clear(&mut self)
        ensures
            final(self).wf(),
            final(self).members() == Seq::<usize>::empty(),
    {
        self.values.clear();
        self.bitmap.clear();
    }

    /// How many members the set has.
    pub fn len(&self) -> (r: usize)
        ensures
            r == self.members().len(),
    {
        self.values.len()
    }

    /// The member that was inserted `i`-th.
    pub fn index(&self, i: usize) -> (r: usize)
        requires
            i < self.members().len(),
        ensures
            r == self.members()[i as int],
    {
        self.values[i]
    }

    /// Walks the members in insertion order.
    pub fn iter(&self) -> (r: USizeSetIter)
        ensures
            r.set_spec() == *self,
            r.pos() == 0,
    {
        USizeSetIter { source: self, index: 0 }
    }
}

/// A walk over a set's members in insertion order.
pub struct USizeSetIter<'a> {
    source: &'a USizeSet,
    index: usize,
}

impl<'a> USizeSetIter<'a> {
    /// The set being walked.
    pub closed spec fn set_spec(&self) -> USizeSet {
        *self.source
    }

    /// How many members have been handed out.
    pub closed spec fn pos(&self) -> int {
        self.index as int
    }

    /// The next member, in insertion order.
    pub fn next(&mut self) -> (r: Option<usize>)
        ensures
            final(self).set_spec() == old(self).set_spec(),
            old(self).pos() < old(self).set_spec().members().len() ==> r == Some(
                old(self).set_spec().members()[old(self).pos()],
            ) && final(self).pos() == old(self).pos() + 1,
            old(self).pos() >= old(self).set_spec().members().len() ==> r is None && final(self).pos() == old(self).pos(),
    {
        if self.index < self.source.len() {
            let v = self.source.index(self.index);
            self.index += 1;
            Some(v)
        } else {
            None
        }
    }
}

/// Exactly one position of `s` holds `value`.
pub open spec fn appears_once(s: Seq<usize>, value: usize) -> bool {
    exists|i: int|
        #![auto]
        0 <= i < s.len() && s[i] == value && (forall|j: int|
            #![auto]
            0 <= j < s.len() && s[j] == value ==> j == i)
}

/// The relation that `insert` establishes between the set before and after.
pub open spec fn insert_transition(pre: USizeSet, post: USizeSet, value: usize) -> bool {
    &&& pre.wf()
    &&& post.wf()
    &&& if pre.contains(value) {
        post.members() == pre.members()
    } else {
        post.members() == pre.members().push(value)
    }
}

/// Inserting a value twice leaves exactly one occurrence of it: the second
/// insertion changes nothing.
pub proof fn lemma_insert_idempotent(s0: USizeSet, s1: USizeSet, s2: USizeSet, value: usize)
    requires
        insert_transition(s0, s1, value),
        insert_transition(s1, s2, value),
    ensures
        s2.members() == s1.members(),
        appears_once(s1.members(), value),
{
    if s0.contains(value) {
        assert(s1.members() == s0.members());
    } else {
        assert(s1.members() == s0.members().push(value));
        assert(s1.members()[s0.members().len() as int] == value);
    }
    assert(s1.contains(value));
    lemma_member_appears_once(s1, value);
}

/// In a well-formed set, a member occupies exactly one position.
pub proof fn lemma_member_appears_once(s: USizeSet, value: usize)
    requires
        s.wf(),
        s.contains(value),
    ensures
        appears_once(s.members(), value),
{
    let i = choose|i: int| 0 <= i < s.members().len() && s.members()[i] == value;
    assert(0 <= i < s.members().len() && s.members()[i] == value && (forall|j: int|
        #![auto]
        0 <= j < s.members().len() && s.members()[j] == value ==> j == i));
}

} // verus!
