//! The class dictionary: every distinct character class of a pattern, in the
//! order in which the pattern first mentions it.

use vstd::prelude::*;

verus! {

/// No class content occurs at two places of `classes`.
pub open spec fn distinct(classes: Seq<Seq<u8>>) -> bool {
    forall|i: int, j: int| 0 <= i < j < classes.len() ==> classes[i] != classes[j]
}

/// The dictionary after `content` has been looked up or added.
pub open spec fn interned(classes: Seq<Seq<u8>>, content: Seq<u8>) -> Seq<Seq<u8>> {
    if classes.contains(content) {
        classes
    } else {
        classes.push(content)
    }
}

/// The id under which `interned(classes, content)` holds `content`: ids start
/// at 1 and follow the order of first mention.
pub open spec fn class_id(classes: Seq<Seq<u8>>, content: Seq<u8>) -> int {
    let after = interned(classes, content);
    1 + choose|i: int| 0 <= i < after.len() && after[i] == content
}

/// In a dictionary without repetition the id of a content is the one place
/// that holds it.
pub proof fn lemma_class_id(classes: Seq<Seq<u8>>, content: Seq<u8>, id: int)
    requires
        distinct(classes),
        1 <= id <= interned(classes, content).len(),
        interned(classes, content)[id - 1] == content,
    ensures
        class_id(classes, content) == id,
        distinct(interned(classes, content)),
{
    let after = interned(classes, content);
    if !classes.contains(content) {
        assert forall|i: int, j: int| 0 <= i < j < after.len() implies after[i] != after[j] by {
            if j == classes.len() {
                assert(classes[i] == after[i]);
            }
        }
    }
    let chosen = class_id(classes, content) - 1;
    assert(after[id - 1] == content);
    assert(0 <= chosen < after.len() && after[chosen] == content);
}

/// Interning is idempotent: a content that was interned keeps its id, and
/// interning it again changes nothing.
pub proof fn lemma_intern_again(classes: Seq<Seq<u8>>, content: Seq<u8>)
    requires
        distinct(classes),
    ensures
        interned(interned(classes, content), content) == interned(classes, content),
        class_id(interned(classes, content), content) == class_id(classes, content),
{
    let after = interned(classes, content);
    let id = class_id(classes, content);
    if classes.contains(content) {
        let i = choose|i: int| 0 <= i < classes.len() && classes[i] == content;
        lemma_class_id(classes, content, i + 1);
    } else {
        assert(after[classes.len() as int] == content);
        lemma_class_id(classes, content, (classes.len() + 1) as int);
    }
    assert(after[id - 1] == content);
    assert(after.contains(content));
    lemma_class_id(after, content, id);
}

/// Equal contents get the same id and different contents get different ids.
pub proof fn lemma_intern_ids(classes: Seq<Seq<u8>>, a: Seq<u8>, b: Seq<u8>)
    requires
        distinct(classes),
    ensures
        class_id(interned(classes, a), b) == class_id(classes, a) <==> a == b,
{
    let first = interned(classes, a);
    let second = interned(first, b);
    lemma_intern_again(classes, a);
    let ida = class_id(classes, a);
    if classes.contains(a) {
        let i = choose|i: int| 0 <= i < classes.len() && classes[i] == a;
        lemma_class_id(classes, a, i + 1);
    } else {
        assert(first[classes.len() as int] == a);
        lemma_class_id(classes, a, (classes.len() + 1) as int);
    }
    assert(first[ida - 1] == a);
    if first.contains(b) {
        let i = choose|i: int| 0 <= i < first.len() && first[i] == b;
        lemma_class_id(first, b, i + 1);
    } else {
        assert(second[first.len() as int] == b);
        lemma_class_id(first, b, (first.len() + 1) as int);
    }
    let idb = class_id(first, b);
    assert(second[idb - 1] == b);
    if idb == ida {
        assert(second[ida - 1] == first[ida - 1]);
    }
}

/// An insertion-ordered set of character classes. The class with id `k`
/// stands at index `k - 1`.
#[derive(Clone, PartialEq, Debug)]
pub struct Dict {
    classes: Vec<Vec<u8>>,
}

impl View for Dict {
    type V = Seq<Seq<u8>>;

    closed spec fn view(&self) -> Seq<Seq<u8>> {
        Seq::new(self.classes@.len(), |i: int| self.classes@[i]@)
    }
}

impl Dict {
    /// An empty dictionary.
    pub fn new() -> (dict: Dict)
        ensures
            dict@ == Seq::<Seq<u8>>::empty(),
    {
        let dict = Dict { classes: Vec::new() };
        assert(dict@ =~= Seq::<Seq<u8>>::empty());
        dict
    }

    /// The number of classes.
    pub fn len(&self) -> (n: usize)
        ensures
            n == self@.len(),
    {
        self.classes.len()
    }

    /// The content of the class with the given id, if there is one.
    pub fn get(&self, id: usize) -> (content: Option<&Vec<u8>>)
        ensures
            content is Some <==> 1 <= id <= self@.len(),
            content matches Some(c) ==> c@ == self@[id - 1],
    {
        if 1 <= id && id <= self.classes.len() {
            Some(&self.classes[id - 1])
        } else {
            None
        }
    }

    /// The content of the class with the given id.
    pub fn class(&self, id: usize) -> (content: &Vec<u8>)
        requires
            1 <= id <= self@.len(),
        ensures
            content@ == self@[id - 1],
    {
        &self.classes[id - 1]
    }

    /// The id of the class with this content, if the dictionary holds it.
    pub fn id_of(&self, content: &[u8]) -> (id: Option<usize>)
        ensures
            id is Some <==> self@.contains(content@),
            id matches Some(k) ==> 1 <= k <= self@.len() && self@[k - 1] == content@ && forall|j: int|
                0 <= j < k - 1 ==> self@[j] != content@,
    {
        let mut i: usize = 0;
        while i < self.classes.len()
            invariant
                i <= self.classes.len(),
                forall|j: int| 0 <= j < i ==> self@[j] != content@,
            decreases self.classes.len() - i,
        {
            if same_bytes(self.classes[i].as_slice(), content) {
                assert(self@[i as int] == content@);
                return Some(i + 1);
            }
            i += 1;
        }
        None
    }

    /// Looks `content` up and adds it when it is new. Either way the result is
    /// its id; a new class gets the next free id.
    pub fn intern(&mut self, content: Vec<u8>) -> (id: usize)
        requires
            distinct(old(self)@),
        ensures
            final(self)@ == interned(old(self)@, content@),
            id == class_id(old(self)@, content@),
            distinct(final(self)@),
    {
        let found = self.id_of(content.as_slice());
        match found {
            Some(id) => {
                proof {
                    lemma_class_id(self@, content@, id as int);
                }
                id
            },
            None => {
                let ghost before = self@;
                self.classes.push(content);
                assert(self@ =~= before.push(content@));
                proof {
                    lemma_class_id(before, content@, self@.len() as int);
                }
                self.classes.len()
            },
        }
    }
}

/// Whether two byte slices hold the same bytes.
pub fn same_bytes(a: &[u8], b: &[u8]) -> (same: bool)
    ensures
        same == (a@ == b@),
{
    if a.len() != b.len() {
        return false;
    }
    let mut i: usize = 0;
    while i < a.len()
        invariant
            a.len() == b.len(),
            i <= a.len(),
            forall|j: int| 0 <= j < i ==> a@[j] == b@[j],
        decreases a.len() - i,
    {
        if a[i] != b[i] {
            return false;
        }
        i += 1;
    }
    assert(a@ =~= b@);
    true
}

} // verus!
