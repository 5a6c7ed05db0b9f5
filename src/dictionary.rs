//! The index from keys to the groups of words that share them.

use vstd::prelude::*;
use crate::encoding::{encode, word_key};

verus! {

/// The texts of a list of words.
pub open spec fn texts(words: Seq<String>) -> Seq<Seq<char>> {
    words.map_values(|w: String| w@)
}

/// The words of a list whose key is `k`, in the order of the list.
pub open spec fn group_of(words: Seq<Seq<char>>, k: Seq<u8>) -> Seq<Seq<char>>
    decreases words.len(),
{
    if words.len() == 0 {
        Seq::empty()
    } else {
        let g = group_of(words.drop_last(), k);
        if encode(words.last()) == k {
            g.push(words.last())
        } else {
            g
        }
    }
}

/// What the index built from `words` holds under `k`: the group of words with that
/// key, where the key is not empty and the group is not.
pub open spec fn index_of(words: Seq<Seq<char>>, k: Seq<u8>) -> Option<Seq<Seq<char>>> {
    if k.len() > 0 && group_of(words, k).len() > 0 {
        Some(group_of(words, k))
    } else {
        None
    }
}

/// Words grouped by key, each group in the order in which its words came.
pub struct Dictionary {
    keys: Vec<Vec<u8>>,
    groups: Vec<Vec<String>>,
    source: Ghost<Seq<Seq<char>>>,
}

impl Dictionary {
    /// The word list the index was built from.
    pub closed spec fn words(&self) -> Seq<Seq<char>> {
        self.source@
    }

    /// What the index holds under a key.
    pub open spec fn lookup_spec(&self, k: Seq<u8>) -> Option<Seq<Seq<char>>> {
        index_of(self.words(), k)
    }

    pub closed spec fn wf(&self) -> bool {
        &&& self.keys.len() == self.groups.len()
        &&& forall|i: int, j: int|
            0 <= i < j < self.keys.len() ==> self.keys@[i]@ != self.keys@[j]@
        &&& forall|i: int|
            0 <= i < self.keys.len() ==> (#[trigger] self.keys@[i]).len() > 0
                && texts(self.groups@[i]@) == group_of(self.source@, self.keys@[i]@)
                && self.groups@[i].len() > 0
        &&& forall|k: Seq<u8>|
            k.len() > 0 && (#[trigger] group_of(self.source@, k)).len() > 0 ==> exists|i: int|
                0 <= i < self.keys.len() && self.keys@[i]@ == k
    }

    /// The group of words whose key is `digits[start..end]`, if there is one.
    pub fn lookup(&self, digits: &Vec<u8>, start: usize, end: usize) -> (r: Option<&Vec<String>>)
        requires
            self.wf(),
            start <= end <= digits.len(),
        ensures
            r.is_some() == self.lookup_spec(digits@.subrange(start as int, end as int)).is_some(),
            r.is_some() ==> Some(texts(r.unwrap()@)) == self.lookup_spec(
                digits@.subrange(start as int, end as int),
            ),
    {
        let ghost k = digits@.subrange(start as int, end as int);
        let mut i: usize = 0;
        while i < self.keys.len()
            invariant
                self.wf(),
                start <= end <= digits.len(),
                k == digits@.subrange(start as int, end as int),
                i <= self.keys.len(),
                forall|j: int| 0 <= j < i ==> self.keys@[j]@ != k,
            decreases self.keys.len() - i,
        {
            if same_digits(&self.keys[i], digits, start, end) {
                return Some(&self.groups[i]);
            }
            i = i + 1;
        }
        proof {
            if k.len() > 0 && group_of(self.source@, k).len() > 0 {
                let m = choose|m: int| 0 <= m < self.keys.len() && self.keys@[m]@ == k;
                assert(self.keys@[m]@ == k);
            }
        }
        None
    }
}

/// Whether `key` equals `digits[start..end]`.
fn same_digits(key: &Vec<u8>, digits: &Vec<u8>, start: usize, end: usize) -> (r: bool)
    requires
        start <= end <= digits.len(),
    ensures
        r == (key@ == digits@.subrange(start as int, end as int)),
{
    if key.len() != end - start {
        return false;
    }
    let mut i: usize = 0;
    while i < key.len()
        invariant
            key.len() == end - start,
            start <= end <= digits.len(),
            i <= key.len(),
            forall|j: int| 0 <= j < i ==> key@[j] == digits@[start + j],
        decreases key.len() - i,
    {
        if key[i] != digits[start + i] {
            return false;
        }
        i = i + 1;
    }
    assert(key@ == digits@.subrange(start as int, end as int));
    true
}

/// Builds the index of a word list: each word goes to the group of its key, in
/// the order of the list; words without letters are left out.
pub fn load_dictionary(words: &Vec<String>) -> (d: Dictionary)
    ensures
        d.wf(),
        d.words() == texts(words@),
{
    let mut d = Dictionary { keys: Vec::new(), groups: Vec::new(), source: Ghost(Seq::empty()) };
    let mut j: usize = 0;
    while j < words.len()
        invariant
            j <= words.len(),
            d.wf(),
            d.words() == texts(words@.take(j as int)),
        decreases words.len() - j,
    {
        let w = &words[j];
        let k = word_key(w.as_str());
        let ghost old_source = d.source@;
        let ghost new_source = texts(words@.take(j as int + 1));
        assert(new_source.drop_last() == old_source);
        assert(new_source.last() == w@);
        assert forall|k2: Seq<u8>| k2 != k@ implies group_of(new_source, k2) == group_of(old_source, k2) by {}
        assert(group_of(new_source, k@) == group_of(old_source, k@).push(w@));
        if k.len() > 0 {
            let n = d.keys.len();
            let mut i: usize = 0;
            let mut found = false;
            while i < n
                invariant
                    n == d.keys.len(),
                    i <= n,
                    d.wf(),
                    k@.len() > 0,
                    !found ==> forall|m: int| 0 <= m < i ==> d.keys@[m]@ != k@,
                    found ==> i < n && d.keys@[i as int]@ == k@,
                ensures
                    found ==> i < n && d.keys@[i as int]@ == k@,
                    !found ==> forall|m: int| 0 <= m < n ==> d.keys@[m]@ != k@,
                decreases n - i + (if found { 0int } else { 1int }),
            {
                if same_digits(&d.keys[i], &k, 0, k.len()) {
                    assert(k@.subrange(0, k@.len() as int) == k@);
                    found = true;
                    break;
                }
                assert(k@.subrange(0, k@.len() as int) == k@);
                i = i + 1;
            }
            let ghost old_keys = d.keys@;
            assert(forall|k2: Seq<u8>|
                k2.len() > 0 && (#[trigger] group_of(old_source, k2)).len() > 0 ==> exists|m: int|
                    0 <= m < n && old_keys[m]@ == k2);
            if found {
                let mut g: Vec<String> = Vec::new();
                d.groups.set_and_swap(i, &mut g);
                g.push(w.clone());
                assert(texts(g@) == texts(g@.drop_last()).push(w@));
                d.groups.set(i, g);
                d.source = Ghost(new_source);
                assert forall|m: int| 0 <= m < d.keys.len() implies (#[trigger] d.keys@[m]).len() > 0
                    && texts(d.groups@[m]@) == group_of(d.source@, d.keys@[m]@)
                    && d.groups@[m].len() > 0 by {
                    if m != i {
                        assert(d.keys@[m]@ != k@);
                    }
                }
                assert forall|k2: Seq<u8>|
                    k2.len() > 0 && (#[trigger] group_of(d.source@, k2)).len() > 0 implies exists|m: int|
                        0 <= m < d.keys.len() && d.keys@[m]@ == k2 by {
                    if k2 != k@ {
                        assert(group_of(old_source, k2).len() > 0);
                        let m0 = choose|m: int| 0 <= m < n && old_keys[m]@ == k2;
                        assert(d.keys@[m0]@ == k2);
                    } else {
                        assert(d.keys@[i as int]@ == k2);
                    }
                }
            } else {
                proof {
                    if group_of(d.source@, k@).len() > 0 {
                        let m = choose|m: int| 0 <= m < d.keys.len() && d.keys@[m]@ == k@;
                        assert(d.keys@[m]@ == k@);
                    }
                }
                assert(group_of(old_source, k@).len() == 0);
                let mut g: Vec<String> = Vec::new();
                g.push(w.clone());
                assert(texts(g@) == seq![w@]);
                assert(group_of(old_source, k@) == Seq::<Seq<char>>::empty());
                d.keys.push(k);
                d.groups.push(g);
                d.source = Ghost(new_source);
                assert forall|m: int| 0 <= m < d.keys.len() implies (#[trigger] d.keys@[m]).len() > 0
                    && texts(d.groups@[m]@) == group_of(d.source@, d.keys@[m]@)
                    && d.groups@[m].len() > 0 by {
                    if m < n {
                        assert(d.keys@[m]@ != d.keys@[n as int]@);
                    }
                }
                assert forall|k2: Seq<u8>|
                    k2.len() > 0 && (#[trigger] group_of(d.source@, k2)).len() > 0 implies exists|m: int|
                        0 <= m < d.keys.len() && d.keys@[m]@ == k2 by {
                    if k2 != d.keys@[n as int]@ {
                        assert(group_of(old_source, k2).len() > 0);
                        let m0 = choose|m: int| 0 <= m < n && old_keys[m]@ == k2;
                        assert(d.keys@[m0]@ == k2);
                    } else {
                        assert(d.keys@[n as int]@ == k2);
                    }
                }
            }
        } else {
            d.source = Ghost(new_source);
            assert(forall|k2: Seq<u8>| k2.len() > 0 ==> k2 != k@);
        }
        j = j + 1;
    }
    assert(words@.take(words.len() as int) == words@);
    d
}

} // verus!
