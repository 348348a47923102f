//! A string-keyed map backed by an entry vector with unique keys, viewed as a
//! `Map<Seq<char>, _>`. It backs the breakpoint table and the storage
//! snapshots.

use vstd::prelude::*;

use crate::strutil::chars_eq;
use crate::strutil::chars_of;

verus! {

/// A finite map from strings to values, kept as entries in insertion order.
pub struct StrMap<V> {
    pub entries: Vec<(String, V)>,
}

/// The map an entry sequence denotes; a later entry for a key overrides an
/// earlier one.
pub open spec fn entries_map<V: View>(s: Seq<(String, V)>) -> Map<Seq<char>, V::V>
    decreases s.len(),
{
    if s.len() == 0 {
        Map::empty()
    } else {
        entries_map(s.drop_last()).insert(s.last().0@, s.last().1@)
    }
}

/// No two entries share a key.
pub open spec fn unique_keys<V>(s: Seq<(String, V)>) -> bool {
    forall|i: int, j: int| 0 <= i < j < s.len() ==> s[i].0@ != s[j].0@
}

/// The entries with key `k` taken out.
pub open spec fn filter_key<V>(s: Seq<(String, V)>, k: Seq<char>) -> Seq<(String, V)>
    decreases s.len(),
{
    if s.len() == 0 {
        s
    } else if s.last().0@ == k {
        filter_key(s.drop_last(), k)
    } else {
        filter_key(s.drop_last(), k).push(s.last())
    }
}

/// A key occurs in the map exactly when some entry carries it.
pub proof fn lemma_entries_contains<V: View>(s: Seq<(String, V)>, k: Seq<char>)
    ensures
        entries_map(s).contains_key(k) <==> exists|i: int| 0 <= i < s.len() && s[i].0@ == k,
    decreases s.len(),
{
    if s.len() > 0 {
        lemma_entries_contains(s.drop_last(), k);
        if s.last().0@ == k {
            assert(s[s.len() - 1].0@ == k);
        } else if entries_map(s).contains_key(k) {
            let i = choose|i: int| 0 <= i < s.drop_last().len() && s.drop_last()[i].0@ == k;
            assert(s[i].0@ == k);
        } else {
            if exists|i: int| 0 <= i < s.len() && s[i].0@ == k {
                let i = choose|i: int| 0 <= i < s.len() && s[i].0@ == k;
                assert(i < s.len() - 1);
                assert(s.drop_last()[i].0@ == k);
            }
        }
    }
}

/// Under unique keys, the map's value at an entry's key is that entry's value.
pub proof fn lemma_entries_index<V: View>(s: Seq<(String, V)>, i: int)
    requires
        unique_keys(s),
        0 <= i < s.len(),
    ensures
        entries_map(s).contains_key(s[i].0@),
        entries_map(s)[s[i].0@] == s[i].1@,
    decreases s.len(),
{
    if i == s.len() - 1 {
    } else {
        assert(unique_keys(s.drop_last())) by {
            assert forall|p: int, q: int|
                0 <= p < q < s.drop_last().len() implies #[trigger] s.drop_last()[p].0@
                != #[trigger] s.drop_last()[q].0@ by {
                assert(s[p].0@ != s[q].0@);
            }
        }
        lemma_entries_index(s.drop_last(), i);
        assert(s[i].0@ != s.last().0@);
    }
}

/// Taking a key's entries out takes exactly that key out of the map.
pub proof fn lemma_filter_key_map<V: View>(s: Seq<(String, V)>, k: Seq<char>)
    ensures
        entries_map(filter_key(s, k)) =~= entries_map(s).remove(k),
        unique_keys(s) ==> unique_keys(filter_key(s, k)),
        forall|i: int|
            0 <= i < filter_key(s, k).len() ==> #[trigger] filter_key(s, k)[i].0@ != k,
        forall|i: int|
            0 <= i < filter_key(s, k).len() ==> exists|j: int|
                0 <= j < s.len() && s[j] == #[trigger] filter_key(s, k)[i],
    decreases s.len(),
{
    if s.len() > 0 {
        lemma_filter_key_map(s.drop_last(), k);
        let f = filter_key(s, k);
        let fd = filter_key(s.drop_last(), k);
        assert forall|i: int| 0 <= i < fd.len() implies exists|j: int|
            0 <= j < s.len() && s[j] == #[trigger] fd[i] by {
            let j = choose|j: int|
                0 <= j < s.drop_last().len() && s.drop_last()[j] == fd[i];
            assert(s[j] == fd[i]);
        }
        if s.last().0@ == k {
        } else {
            assert(f == fd.push(s.last()));
            assert(fd.push(s.last()).drop_last() =~= fd);
            assert(fd.push(s.last()).last() == s.last());
            assert(entries_map(f) == entries_map(fd).insert(s.last().0@, s.last().1@));
            if unique_keys(s) {
                assert forall|p: int, q: int| 0 <= p < q < f.len() implies f[p].0@ != f[q].0@ by {
                    if q < f.len() - 1 {
                        assert(fd[p].0@ != fd[q].0@);
                    } else {
                        let j = choose|j: int|
                            0 <= j < s.drop_last().len() && s.drop_last()[j] == fd[p];
                        assert(s[j].0@ != s.last().0@);
                    }
                }
            }
            assert(f[f.len() - 1] == s.last() && s[s.len() - 1] == s.last());
        }
    }
}

impl<V: View> StrMap<V> {
    /// The denoted map.
    pub open spec fn view(&self) -> Map<Seq<char>, V::V> {
        entries_map(self.entries@)
    }

    /// Entries are well formed: no key occurs twice.
    pub open spec fn wf(&self) -> bool {
        unique_keys(self.entries@)
    }

    /// An empty map.
    pub fn new() -> (r: Self)
        ensures
            r.wf(),
            r.view() =~= Map::empty(),
            r.entries@.len() == 0,
    {
        StrMap { entries: Vec::new() }
    }

    /// The number of keys.
    pub fn len(&self) -> (r: usize)
        requires
            self.wf(),
        ensures
            r == self.entries@.len(),
            r == 0 <==> self.view() =~= Map::empty(),
    {
        proof {
            if self.entries@.len() > 0 {
                lemma_entries_index(self.entries@, 0);
                assert(self.view().contains_key(self.entries@[0].0@));
            }
        }
        self.entries.len()
    }

    /// Look a key up.
    pub fn get<'a>(&'a self, k: &str) -> (r: Option<&'a V>)
        requires
            self.wf(),
        ensures
            match r {
                Some(v) => self.view().contains_key(k@) && self.view()[k@] == v@,
                None => !self.view().contains_key(k@),
            },
    {
        let kc = chars_of(k);
        let mut i: usize = 0;
        while i < self.entries.len()
            invariant
                self.wf(),
                i <= self.entries@.len(),
                kc@ == k@,
                forall|j: int| 0 <= j < i ==> self.entries@[j].0@ != k@,
            decreases self.entries@.len() - i,
        {
            let ec = chars_of(self.entries[i].0.as_str());
            if chars_eq(ec.as_slice(), kc.as_slice()) {
                proof {
                    lemma_entries_index(self.entries@, i as int);
                }
                return Some(&self.entries[i].1);
            }
            i += 1;
        }
        proof {
            lemma_entries_contains(self.entries@, k@);
        }
        None
    }

    /// Insert a value at a key, replacing any earlier value.
    pub fn insert(&mut self, k: String, v: V)
        requires
            old(self).wf(),
        ensures
            final(self).wf(),
            final(self).view() =~= old(self).view().insert(k@, v@),
            final(self).entries@.len() <= old(self).entries@.len() + 1,
            final(self).entries@ == filter_key(old(self).entries@, k@).push((k, v)),
    {
        self.take_out(k.as_str());
        let ghost mid = self.entries@;
        self.entries.push((k, v));
        proof {
            lemma_filter_key_map(old(self).entries@, k@);
            let s = self.entries@;
            assert(s.drop_last() =~= mid);
            assert(s.last() == (k, v));
            assert(entries_map(s) == entries_map(mid).insert(k@, v@));
            assert forall|p: int, q: int| 0 <= p < q < s.len() implies s[p].0@ != s[q].0@ by {
                if q < s.len() - 1 {
                    assert(mid[p].0@ != mid[q].0@);
                } else {
                    assert(s[p].0@ != k@);
                }
            }
        }
    }

    /// Take a key out; says whether it was present.
    pub fn remove(&mut self, k: &str) -> (r: bool)
        requires
            old(self).wf(),
        ensures
            final(self).wf(),
            r == old(self).view().contains_key(k@),
            final(self).view() =~= old(self).view().remove(k@),
            final(self).entries@.len() <= old(self).entries@.len(),
            final(self).entries@ == filter_key(old(self).entries@, k@),
    {
        let was = match self.get(k) {
            Some(_) => true,
            None => false,
        };
        self.take_out(k);
        was
    }

    /// Drop every entry.
    pub fn clear(&mut self)
        ensures
            final(self).wf(),
            final(self).view() =~= Map::<Seq<char>, V::V>::empty(),
            final(self).entries@.len() == 0,
    {
        self.entries.clear();
    }

    fn take_out(&mut self, k: &str)
        requires
            old(self).wf(),
        ensures
            final(self).wf(),
            final(self).view() =~= old(self).view().remove(k@),
            final(self).entries@.len() <= old(self).entries@.len(),
            final(self).entries@ == filter_key(old(self).entries@, k@),
    {
        let kc = chars_of(k);
        let ghost orig = self.entries@;
        let mut kept_rev: Vec<(String, V)> = Vec::new();
        proof {
            assert(kept_rev@.reverse() =~= Seq::<(String, V)>::empty());
            assert(filter_key(orig, k@) + kept_rev@.reverse() =~= filter_key(orig, k@));
        }
        while self.entries.len() > 0
            invariant
                kc@ == k@,
                filter_key(orig, k@) =~= filter_key(self.entries@, k@) + kept_rev@.reverse(),
                self.entries@.len() + kept_rev@.len() <= orig.len(),
            decreases self.entries@.len(),
        {
            let ghost pre = self.entries@;
            let e = match self.entries.pop() {
                Some(e) => e,
                None => {
                    proof {
                        assert(false);
                    }
                    unreached()
                },
            };
            proof {
                assert(self.entries@ =~= pre.drop_last());
                assert(e == pre.last());
            }
            let ec = chars_of(e.0.as_str());
            if !chars_eq(ec.as_slice(), kc.as_slice()) {
                let ghost krpre = kept_rev@;
                kept_rev.push(e);
                proof {
                    assert(kept_rev@.reverse() =~= seq![e] + krpre.reverse());
                    assert(filter_key(pre, k@) =~= filter_key(pre.drop_last(), k@).push(e));
                    assert(filter_key(pre.drop_last(), k@).push(e) + krpre.reverse()
                        =~= filter_key(pre.drop_last(), k@) + (seq![e] + krpre.reverse()));
                }
            }
        }
        proof {
            assert(self.entries@.len() == 0);
            assert(filter_key(self.entries@, k@) =~= Seq::<(String, V)>::empty());
            assert(filter_key(orig, k@) =~= kept_rev@.reverse());
        }
        while kept_rev.len() > 0
            invariant
                self.entries@ + kept_rev@.reverse() =~= filter_key(orig, k@),
                self.entries@.len() + kept_rev@.len() <= orig.len(),
            decreases kept_rev@.len(),
        {
            let ghost pre = kept_rev@;
            let ghost epre = self.entries@;
            let e = match kept_rev.pop() {
                Some(e) => e,
                None => {
                    proof {
                        assert(false);
                    }
                    unreached()
                },
            };
            self.entries.push(e);
            proof {
                assert(pre.reverse() =~= seq![e] + pre.drop_last().reverse());
                assert(epre.push(e) + pre.drop_last().reverse() =~= epre + (seq![e]
                    + pre.drop_last().reverse()));
            }
        }
        proof {
            assert(kept_rev@.reverse() =~= Seq::<(String, V)>::empty());
            assert(self.entries@ =~= filter_key(orig, k@));
            lemma_filter_key_map(orig, k@);
        }
    }
}

/// Clone a string, keeping its characters.
pub fn clone_string(s: &String) -> (r: String)
    ensures
        r@ == s@,
{
    let cs = chars_of(s.as_str());
    crate::strutil::string_of(cs.as_slice())
}

} // verus!
