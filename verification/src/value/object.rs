//! The sorted-mapping value kind.
//!
//! An object maps text keys to values. Its entries are held in strictly
//! ascending key order, and inserting an existing key overwrites its value,
//! so a key never appears twice.

use vstd::prelude::*;
use crate::text::{lex_cmp, lemma_lex_cmp_eq, lemma_lex_cmp_flip, lemma_lex_cmp_trans, str_compare};
use crate::value::{
    SpecValue, XffValue, view_pairs, view_value, lemma_view_pairs, clone_value, eq_value,
    wf_entries, sorted_keys, wf_value,
};
use crate::text::valid_text;

verus! {

/// A mapping from text keys to values, kept strictly sorted by key.
#[derive(Debug)]
pub struct Object {
    /// The entries, in ascending key order.
    pub pairs: Vec<(String, XffValue)>,
}

impl View for Object {
    type V = Seq<(Seq<char>, SpecValue)>;

    open spec fn view(&self) -> Seq<(Seq<char>, SpecValue)> {
        view_pairs(self.pairs@)
    }
}

/// The first position whose key equals `k`, or the length when none does.
pub open spec fn key_lookup(entries: Seq<(Seq<char>, SpecValue)>, k: Seq<char>) -> int
    decreases entries.len(),
{
    if entries.len() == 0 {
        0
    } else if lex_cmp(k, entries[0].0) == 0 {
        0
    } else {
        1 + key_lookup(entries.drop_first(), k)
    }
}

/// The first position whose key is not below `k`, or the length when every
/// key is below it: where `k` belongs.
pub open spec fn key_slot(entries: Seq<(Seq<char>, SpecValue)>, k: Seq<char>) -> int
    decreases entries.len(),
{
    if entries.len() == 0 {
        0
    } else if lex_cmp(k, entries[0].0) <= 0 {
        0
    } else {
        1 + key_slot(entries.drop_first(), k)
    }
}

pub proof fn lemma_key_lookup(entries: Seq<(Seq<char>, SpecValue)>, k: Seq<char>)
    ensures
        0 <= key_lookup(entries, k) <= entries.len(),
        forall|j: int|
            0 <= j < key_lookup(entries, k) ==> lex_cmp(k, (#[trigger] entries[j]).0) != 0,
        key_lookup(entries, k) < entries.len() ==> lex_cmp(
            k,
            entries[key_lookup(entries, k)].0,
        ) == 0,
    decreases entries.len(),
{
    if entries.len() > 0 && lex_cmp(k, entries[0].0) != 0 {
        lemma_key_lookup(entries.drop_first(), k);
        assert(forall|j: int|
            1 <= j < entries.len() ==> #[trigger] entries[j] == entries.drop_first()[j - 1]);
    }
}

pub proof fn lemma_key_lookup_unique(entries: Seq<(Seq<char>, SpecValue)>, k: Seq<char>, p: int)
    requires
        0 <= p <= entries.len(),
        forall|j: int| 0 <= j < p ==> lex_cmp(k, (#[trigger] entries[j]).0) != 0,
        p < entries.len() ==> lex_cmp(k, entries[p].0) == 0,
    ensures
        key_lookup(entries, k) == p,
{
    lemma_key_lookup(entries, k);
}

pub proof fn lemma_key_slot(entries: Seq<(Seq<char>, SpecValue)>, k: Seq<char>)
    ensures
        0 <= key_slot(entries, k) <= entries.len(),
        forall|j: int|
            0 <= j < key_slot(entries, k) ==> lex_cmp(k, (#[trigger] entries[j]).0) > 0,
        key_slot(entries, k) < entries.len() ==> lex_cmp(k, entries[key_slot(entries, k)].0) <= 0,
    decreases entries.len(),
{
    if entries.len() > 0 && lex_cmp(k, entries[0].0) > 0 {
        lemma_key_slot(entries.drop_first(), k);
        assert(forall|j: int|
            1 <= j < entries.len() ==> #[trigger] entries[j] == entries.drop_first()[j - 1]);
    }
}

pub proof fn lemma_key_slot_unique(entries: Seq<(Seq<char>, SpecValue)>, k: Seq<char>, p: int)
    requires
        0 <= p <= entries.len(),
        forall|j: int| 0 <= j < p ==> lex_cmp(k, (#[trigger] entries[j]).0) > 0,
        p < entries.len() ==> lex_cmp(k, entries[p].0) <= 0,
    ensures
        key_slot(entries, k) == p,
{
    lemma_key_slot(entries, k);
}

/// The value under a key.
pub open spec fn obj_get(entries: Seq<(Seq<char>, SpecValue)>, k: Seq<char>) -> Option<SpecValue> {
    let p = key_lookup(entries, k);
    if p < entries.len() {
        Some(entries[p].1)
    } else {
        None
    }
}

pub open spec fn obj_contains(entries: Seq<(Seq<char>, SpecValue)>, k: Seq<char>) -> bool {
    obj_get(entries, k) is Some
}

/// The entries after binding `k` to `v`: an existing key is overwritten in
/// place, a new key takes its slot in the order.
pub open spec fn obj_insert(
    entries: Seq<(Seq<char>, SpecValue)>,
    k: Seq<char>,
    v: SpecValue,
) -> Seq<(Seq<char>, SpecValue)> {
    let p = key_slot(entries, k);
    if p < entries.len() && lex_cmp(k, entries[p].0) == 0 {
        entries.update(p, (k, v))
    } else {
        entries.take(p) + seq![(k, v)] + entries.skip(p)
    }
}

/// The entries after removing `k`, unchanged when the key is absent.
pub open spec fn obj_remove(entries: Seq<(Seq<char>, SpecValue)>, k: Seq<char>) -> Seq<
    (Seq<char>, SpecValue),
> {
    let p = key_lookup(entries, k);
    if p < entries.len() {
        entries.take(p) + entries.skip(p + 1)
    } else {
        entries
    }
}

/// Inserting keeps an object well formed.
pub proof fn lemma_obj_insert_wf(
    entries: Seq<(Seq<char>, SpecValue)>,
    k: Seq<char>,
    v: SpecValue,
)
    requires
        wf_entries(entries),
        valid_text(k),
        wf_value(v),
    ensures
        wf_entries(obj_insert(entries, k, v)),
{
    lemma_key_slot(entries, k);
    let p = key_slot(entries, k);
    let r = obj_insert(entries, k, v);
    if p < entries.len() && lex_cmp(k, entries[p].0) == 0 {
        lemma_lex_cmp_eq(k, entries[p].0);
        assert(forall|i: int|
            0 <= i < r.len() ==> r[i] == if i == p {
                (k, v)
            } else {
                entries[i]
            });
        assert(sorted_keys(r));
    } else {
        assert(r.len() == entries.len() + 1);
        assert(forall|i: int| 0 <= i < p ==> r[i] == entries[i]);
        assert(r[p] == (k, v));
        assert(forall|i: int| p < i < r.len() ==> r[i] == entries[i - 1]);
        assert forall|i: int, j: int| 0 <= i < j < r.len() implies lex_cmp(
            (#[trigger] r[i]).0,
            (#[trigger] r[j]).0,
        ) < 0 by {
            if i == p {
                // k is strictly below the key it displaced, and below all after
                if j - 1 == p {
                    assert(lex_cmp(k, entries[p].0) < 0);
                } else {
                    assert(lex_cmp(k, entries[p].0) < 0);
                    assert(lex_cmp(entries[p].0, entries[j - 1].0) < 0);
                    lemma_lex_cmp_trans(k, entries[p].0, entries[j - 1].0);
                }
            } else if j == p {
                assert(lex_cmp(k, entries[i].0) > 0);
                lemma_lex_cmp_flip(k, entries[i].0);
            } else if i < p && j > p {
                assert(lex_cmp(entries[i].0, entries[j - 1].0) < 0 || i == j - 1);
                if i == j - 1 {
                    assert(lex_cmp(k, entries[i].0) > 0);
                    lemma_lex_cmp_flip(k, entries[i].0);
                    assert(lex_cmp(k, entries[j - 1].0) <= 0);
                }
            }
        }
    }
}

/// Inserting a key above every present key appends the entry.
pub proof fn lemma_obj_insert_append(
    entries: Seq<(Seq<char>, SpecValue)>,
    k: Seq<char>,
    v: SpecValue,
)
    requires
        forall|j: int| 0 <= j < entries.len() ==> lex_cmp(k, (#[trigger] entries[j]).0) > 0,
    ensures
        obj_insert(entries, k, v) =~= entries + seq![(k, v)],
{
    lemma_key_slot_unique(entries, k, entries.len() as int);
}

impl Clone for Object {
    fn clone(&self) -> (r: Self)
        ensures
            r@ == self@,
    {
        Object { pairs: clone_pairs(&self.pairs) }
    }
}

/// A deep copy of a sequence of entries.
pub fn clone_pairs(ps: &Vec<(String, XffValue)>) -> (r: Vec<(String, XffValue)>)
    ensures
        view_pairs(r@) == view_pairs(ps@),
        r@.len() == ps@.len(),
{
    proof {
        lemma_view_pairs(ps@);
    }
    let mut out: Vec<(String, XffValue)> = Vec::new();
    let mut i: usize = 0;
    while i < ps.len()
        invariant
            i <= ps@.len(),
            out@.len() == i,
            forall|j: int|
                0 <= j < i ==> (#[trigger] out@[j]).0@ == ps@[j].0@ && view_value(out@[j].1)
                    == view_value(ps@[j].1),
        decreases ps@.len() - i,
    {
        let (key, val) = &ps[i];
        out.push((key.clone(), clone_value(val)));
        i = i + 1;
    }
    proof {
        lemma_view_pairs(out@);
        lemma_view_pairs(ps@);
        assert(view_pairs(out@) =~= view_pairs(ps@));
    }
    out
}

/// Whether two entry sequences are the same, compared deeply.
pub fn eq_pairs(a: &Vec<(String, XffValue)>, b: &Vec<(String, XffValue)>) -> (r: bool)
    ensures
        r == (view_pairs(a@) == view_pairs(b@)),
{
    proof {
        lemma_view_pairs(a@);
        lemma_view_pairs(b@);
    }
    if a.len() != b.len() {
        return false;
    }
    let mut i: usize = 0;
    while i < a.len()
        invariant
            i <= a@.len(),
            a@.len() == b@.len(),
            forall|j: int|
                0 <= j < i ==> (#[trigger] a@[j]).0@ == b@[j].0@ && view_value(a@[j].1)
                    == view_value(b@[j].1),
        decreases a@.len() - i,
    {
        let (ak, av) = &a[i];
        let (bk, bv) = &b[i];
        let keys_equal = *ak == *bk;
        if !keys_equal || !eq_value(av, bv) {
            proof {
                lemma_view_pairs(a@);
                lemma_view_pairs(b@);
            }
            return false;
        }
        i = i + 1;
    }
    proof {
        lemma_view_pairs(a@);
        lemma_view_pairs(b@);
        assert(view_pairs(a@) =~= view_pairs(b@));
    }
    true
}

impl PartialEq for Object {
    fn eq(&self, other: &Self) -> (r: bool) {
        eq_pairs(&self.pairs, &other.pairs)
    }
}

impl vstd::std_specs::cmp::PartialEqSpecImpl for Object {
    open spec fn obeys_eq_spec() -> bool {
        true
    }

    open spec fn eq_spec(&self, other: &Self) -> bool {
        self@ == other@
    }
}

impl Object {
    /// An empty mapping.
    pub fn new() -> (r: Self)
        ensures
            r@ =~= Seq::<(Seq<char>, SpecValue)>::empty(),
    {
        let r = Object { pairs: Vec::new() };
        r
    }

    /// The number of entries.
    pub fn len(&self) -> (r: usize)
        ensures
            r == self@.len(),
    {
        proof {
            lemma_view_pairs(self.pairs@);
        }
        self.pairs.len()
    }

    /// Whether the mapping holds no entry.
    pub fn is_empty(&self) -> (r: bool)
        ensures
            r == (self@.len() == 0),
    {
        proof {
            lemma_view_pairs(self.pairs@);
        }
        self.pairs.is_empty()
    }

    /// Drops every entry.
    pub fn clear(&mut self)
        ensures
            final(self)@ =~= Seq::<(Seq<char>, SpecValue)>::empty(),
    {
        self.pairs.clear();
    }

    /// Binds `key` to `value`, overwriting an existing binding of the key.
    pub fn insert(&mut self, key: String, value: XffValue)
        ensures
            final(self)@ == obj_insert(old(self)@, key@, value@),
    {
        proof {
            lemma_view_pairs(self.pairs@);
        }
        let ghost entries = self@;
        let mut i: usize = 0;
        let mut found_slot: bool = false;
        while i < self.pairs.len() && !found_slot
            invariant
                i <= self.pairs@.len(),
                self@ == entries,
                view_pairs(self.pairs@) == entries,
                self.pairs@.len() == entries.len(),
                forall|j: int|
                    0 <= j < entries.len() ==> (#[trigger] entries[j]).0 == self.pairs@[j].0@
                        && entries[j].1 == view_value(self.pairs@[j].1),
                forall|j: int| 0 <= j < i ==> lex_cmp(key@, (#[trigger] entries[j]).0) > 0,
                found_slot ==> i < entries.len() && lex_cmp(key@, entries[i as int].0) <= 0,
            decreases entries.len() - i, (if found_slot { 0int } else { 1int }),
        {
            let c = str_compare(key.as_str(), self.pairs[i].0.as_str());
            if c <= 0 {
                found_slot = true;
            } else {
                i = i + 1;
            }
        }
        proof {
            lemma_key_slot_unique(entries, key@, i as int);
        }
        if i < self.pairs.len() {
            let c = str_compare(key.as_str(), self.pairs[i].0.as_str());
            if c == 0 {
                self.pairs.set(i, (key, value));
                proof {
                    lemma_view_pairs(self.pairs@);
                    assert(view_pairs(self.pairs@) =~= entries.update(i as int, (key@, value@)));
                }
                return ;
            }
        }
        self.pairs.insert(i, (key, value));
        proof {
            lemma_view_pairs(self.pairs@);
            assert(view_pairs(self.pairs@) =~= entries.take(i as int) + seq![(key@, value@)]
                + entries.skip(i as int));
        }
    }

    /// The value under `key`, when the key is bound.
    pub fn get(&self, key: &str) -> (r: Option<&XffValue>)
        ensures
            match obj_get(self@, key@) {
                Some(v) => r is Some && r->0@ == v,
                None => r is None,
            },
    {
        proof {
            lemma_view_pairs(self.pairs@);
        }
        let ghost entries = self@;
        let mut i: usize = 0;
        while i < self.pairs.len()
            invariant
                i <= self.pairs@.len(),
                self@ == entries,
                view_pairs(self.pairs@) == entries,
                self.pairs@.len() == entries.len(),
                forall|j: int|
                    0 <= j < entries.len() ==> (#[trigger] entries[j]).0 == self.pairs@[j].0@
                        && entries[j].1 == view_value(self.pairs@[j].1),
                forall|j: int| 0 <= j < i ==> lex_cmp(key@, (#[trigger] entries[j]).0) != 0,
            decreases entries.len() - i,
        {
            let c = str_compare(key, self.pairs[i].0.as_str());
            if c == 0 {
                proof {
                    lemma_key_lookup_unique(entries, key@, i as int);
                }
                return Some(&self.pairs[i].1);
            }
            i = i + 1;
        }
        proof {
            lemma_key_lookup_unique(entries, key@, entries.len() as int);
        }
        None
    }

    /// Whether `key` is bound.
    pub fn contains_key(&self, key: &str) -> (r: bool)
        ensures
            r == obj_contains(self@, key@),
    {
        self.get(key).is_some()
    }

    /// Unbinds `key`, handing back its value when it was bound.
    pub fn remove(&mut self, key: &str) -> (r: Option<XffValue>)
        ensures
            final(self)@ == obj_remove(old(self)@, key@),
            match obj_get(old(self)@, key@) {
                Some(v) => r is Some && r->0@ == v,
                None => r is None,
            },
    {
        proof {
            lemma_view_pairs(self.pairs@);
        }
        let ghost entries = self@;
        let mut i: usize = 0;
        while i < self.pairs.len()
            invariant
                i <= self.pairs@.len(),
                self@ == entries,
                old(self)@ == entries,
                view_pairs(self.pairs@) == entries,
                self.pairs@.len() == entries.len(),
                forall|j: int|
                    0 <= j < entries.len() ==> (#[trigger] entries[j]).0 == self.pairs@[j].0@
                        && entries[j].1 == view_value(self.pairs@[j].1),
                forall|j: int| 0 <= j < i ==> lex_cmp(key@, (#[trigger] entries[j]).0) != 0,
            decreases entries.len() - i,
        {
            let c = str_compare(key, self.pairs[i].0.as_str());
            if c == 0 {
                proof {
                    lemma_key_lookup_unique(entries, key@, i as int);
                }
                let (_, val) = self.pairs.remove(i);
                proof {
                    lemma_view_pairs(self.pairs@);
                    assert(view_pairs(self.pairs@) =~= entries.take(i as int) + entries.skip(
                        i + 1,
                    ));
                }
                return Some(val);
            }
            i = i + 1;
        }
        proof {
            lemma_key_lookup_unique(entries, key@, entries.len() as int);
        }
        None
    }
}

} // verus!
