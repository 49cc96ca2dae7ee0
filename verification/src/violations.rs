//! An ordered set of finding identities.

use crate::order::{
    comes_before, law_dictionary_order_is_strict, lemma_before_transitive, text_before,
};
use crate::text::{list_contains, same_text, views};
use vstd::prelude::*;

verus! {

/// Every entry comes before the next.
pub open spec fn is_ascending(entries: Seq<Seq<char>>) -> bool {
    forall|i: int, j: int|
        0 <= i < j < entries.len() ==> text_before(#[trigger] entries[i], #[trigger] entries[j])
}

/// A set of identities, held in dictionary order so that it is always
/// written out in the same order.
#[derive(Debug, PartialEq, Eq)]
pub struct ViolationSet {
    entries: Vec<String>,
}

/// A sequence in strict dictionary order with one more text put in its place
/// still is in that order.
proof fn lemma_insert_ascending(entries: Seq<Seq<char>>, at: int, entry: Seq<char>)
    requires
        is_ascending(entries),
        0 <= at <= entries.len(),
        at > 0 ==> text_before(entries[at - 1], entry),
        at < entries.len() ==> text_before(entry, entries[at]),
    ensures
        is_ascending(entries.insert(at, entry)),
        forall|other: Seq<char>| #[trigger]
            entries.insert(at, entry).contains(other) <==> other == entry || entries.contains(
                other,
            ),
{
    let longer = entries.insert(at, entry);
    assert forall|i: int, j: int| 0 <= i < j < longer.len() implies text_before(
        #[trigger] longer[i],
        #[trigger] longer[j],
    ) by {
        if j == at {
            if i < at - 1 {
                lemma_before_transitive(entries[i], entries[at - 1], entry);
            }
        } else if i == at {
            if j - 1 > at {
                lemma_before_transitive(entry, entries[at], entries[j - 1]);
            }
        } else {
            let a = if i < at { i } else { i - 1 };
            let b = if j < at { j } else { j - 1 };
            assert(longer[i] == entries[a] && longer[j] == entries[b]);
        }
    }
    assert forall|other: Seq<char>| other == entry || entries.contains(other) implies #[trigger]
        longer.contains(other) by {
        if other == entry {
            assert(longer[at] == entry);
        } else {
            let i = choose|i: int| 0 <= i < entries.len() && entries[i] == other;
            assert(longer[if i < at { i } else { i + 1 }] == other);
        }
    }
    assert forall|other: Seq<char>| longer.contains(other) implies other == entry
        || entries.contains(other) by {
        let i = choose|i: int| 0 <= i < longer.len() && longer[i] == other;
        if i != at {
            assert(entries[if i < at { i } else { i - 1 }] == other);
        }
    }
}

/// Two lists in strict dictionary order with the same entries are the same
/// list: a set of identities is written out in one way only.
pub proof fn law_listing_is_deterministic(a: Seq<Seq<char>>, b: Seq<Seq<char>>)
    requires
        is_ascending(a),
        is_ascending(b),
        forall|entry: Seq<char>| a.contains(entry) <==> b.contains(entry),
    ensures
        a == b,
    decreases a.len(),
{
    if a.len() == 0 {
        if b.len() > 0 {
            assert(b.contains(b[0]));
        }
        assert(a =~= b);
    } else {
        assert(a.contains(a.last()));
        let k = choose|i: int| 0 <= i < b.len() && b[i] == a.last();
        assert(b.contains(b.last()));
        let m = choose|i: int| 0 <= i < a.len() && a[i] == b.last();
        if k < b.len() - 1 {
            assert(text_before(b[k], b[b.len() - 1]));
            if m < a.len() - 1 {
                assert(text_before(a[m], a[a.len() - 1]));
            }
            law_dictionary_order_is_strict(a.last(), b.last());
        }
        assert(a.last() == b.last());
        let c = a.drop_last();
        let d = b.drop_last();
        assert forall|entry: Seq<char>| #[trigger] c.contains(entry) implies d.contains(entry) by {
            let i = choose|i: int| 0 <= i < c.len() && c[i] == entry;
            assert(a[i] == entry && a.contains(entry));
            assert(text_before(a[i], a[a.len() - 1]));
            law_dictionary_order_is_strict(entry, a.last());
            let j = choose|j: int| 0 <= j < b.len() && b[j] == entry;
            assert(d[j] == entry);
        }
        assert forall|entry: Seq<char>| #[trigger] d.contains(entry) implies c.contains(entry) by {
            let i = choose|i: int| 0 <= i < d.len() && d[i] == entry;
            assert(b[i] == entry && b.contains(entry));
            assert(text_before(b[i], b[b.len() - 1]));
            law_dictionary_order_is_strict(entry, b.last());
            let j = choose|j: int| 0 <= j < a.len() && a[j] == entry;
            assert(c[j] == entry);
        }
        assert(is_ascending(c)) by {
            assert forall|i: int, j: int| 0 <= i < j < c.len() implies text_before(
                #[trigger] c[i],
                #[trigger] c[j],
            ) by {
                assert(text_before(a[i], a[j]));
            }
        }
        assert(is_ascending(d)) by {
            assert forall|i: int, j: int| 0 <= i < j < d.len() implies text_before(
                #[trigger] d[i],
                #[trigger] d[j],
            ) by {
                assert(text_before(b[i], b[j]));
            }
        }
        law_listing_is_deterministic(c, d);
        assert(a =~= c.push(a.last()));
        assert(b =~= d.push(b.last()));
    }
}

impl Clone for ViolationSet {
    fn clone(&self) -> (copy: Self)
        ensures
            copy.listed() == self.listed(),
    {
        proof {
            use_type_invariant(self);
        }
        let entries: Vec<String> = self.entries.clone();
        assert(views(entries@) =~= views(self.entries@));
        ViolationSet { entries }
    }
}

impl Default for ViolationSet {
    fn default() -> (set: Self)
        ensures
            set.listed() == Seq::<Seq<char>>::empty(),
    {
        ViolationSet::new()
    }
}

impl ViolationSet {
    #[verifier::type_invariant]
    spec fn well_formed(self) -> bool {
        is_ascending(views(self.entries@))
    }

    /// The identities in dictionary order.
    pub closed spec fn listed(self) -> Seq<Seq<char>> {
        views(self.entries@)
    }

    /// An empty set.
    pub fn new() -> (set: Self)
        ensures
            set.listed() == Seq::<Seq<char>>::empty(),
    {
        let entries: Vec<String> = Vec::new();
        assert(views(entries@) =~= Seq::empty());
        ViolationSet { entries }
    }

    /// The set of the given identities, whatever their order and number.
    pub fn from_list(list: &Vec<String>) -> (set: Self)
        ensures
            is_ascending(set.listed()),
            forall|entry: Seq<char>| set.listed().contains(entry) <==> views(list@).contains(entry),
    {
        let mut set: ViolationSet = ViolationSet::new();
        let mut i: usize = 0;
        while i < list.len()
            invariant
                i <= list@.len(),
                forall|entry: Seq<char>|
                    set.listed().contains(entry) <==> views(list@).take(i as int).contains(entry),
            decreases list@.len() - i,
        {
            let ghost before = set.listed();
            set.insert(list[i].clone());
            proof {
                let shorter = views(list@).take(i as int);
                let longer = views(list@).take(i + 1);
                assert(longer =~= shorter.push(list@[i as int]@));
                assert forall|entry: Seq<char>| set.listed().contains(entry)
                    <==> longer.contains(entry) by {
                    if shorter.contains(entry) {
                        let k = choose|k: int| 0 <= k < shorter.len() && shorter[k] == entry;
                        assert(longer[k] == entry);
                    }
                    if longer.contains(entry) {
                        let k = choose|k: int| 0 <= k < longer.len() && longer[k] == entry;
                        if k < shorter.len() {
                            assert(shorter[k] == entry);
                        }
                    }
                    if entry == list@[i as int]@ {
                        assert(longer[i as int] == entry);
                    }
                }
            }
            i = i + 1;
        }
        proof {
            use_type_invariant(&set);
            assert(views(list@).take(list@.len() as int) =~= views(list@));
        }
        set
    }

    /// The identities in dictionary order.
    pub fn to_list(&self) -> (list: Vec<String>)
        ensures
            views(list@) == self.listed(),
            is_ascending(views(list@)),
    {
        proof {
            use_type_invariant(self);
        }
        let list: Vec<String> = self.entries.clone();
        assert(views(list@) =~= views(self.entries@));
        list
    }

    /// The number of identities.
    pub fn len(&self) -> (count: usize)
        ensures
            count == self.listed().len(),
    {
        self.entries.len()
    }

    /// Whether the set holds an identity.
    pub fn contains(&self, entry: &str) -> (found: bool)
        ensures
            found == self.listed().contains(entry@),
    {
        list_contains(&self.entries, entry)
    }

    /// Adds an identity, unless the set already holds it.
    pub fn insert(&mut self, entry: String)
        ensures
            is_ascending(final(self).listed()),
            forall|other: Seq<char>|
                final(self).listed().contains(other) <==> other == entry@ || old(
                    self,
                ).listed().contains(other),
    {
        proof {
            use_type_invariant(&*self);
        }
        let mut at: usize = 0;
        while at < self.entries.len() && comes_before(&self.entries[at], &entry)
            invariant
                at <= self.entries@.len(),
                at > 0 ==> text_before(views(self.entries@)[at - 1], entry@),
            decreases self.entries@.len() - at,
        {
            at = at + 1;
        }
        if at < self.entries.len() && same_text(&self.entries[at], &entry) {
            assert(views(self.entries@)[at as int] == entry@);
            return;
        }
        let mut entries: Vec<String> = Vec::new();
        std::mem::swap(&mut entries, &mut self.entries);
        let ghost before = views(entries@);
        proof {
            lemma_insert_ascending(before, at as int, entry@);
        }
        entries.insert(at, entry);
        assert(views(entries@) =~= before.insert(at as int, entry@));
        self.entries = entries;
    }
}

} // verus!
