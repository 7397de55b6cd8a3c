//! A small map from `String` keys to values, backed by an association list.
//! Inserting a key that is already present replaces its value, so the view is
//! an ordinary `Map<Seq<char>, _>` over the deep views of the stored values.

use vstd::prelude::*;

verus! {

/// Map from string keys to values of type `V`, with last-writer-wins updates.
#[derive(Debug)]
pub struct KeyMap<V> {
    entries: Vec<(String, V)>,
}

/// The map denoted by an association list, later entries overriding earlier ones.
pub open spec fn alist_map<V: DeepView>(s: Seq<(String, V)>) -> Map<Seq<char>, V::V>
    decreases s.len(),
{
    if s.len() == 0 {
        Map::empty()
    } else {
        alist_map(s.drop_last()).insert(s.last().0@, s.last().1.deep_view())
    }
}

/// No two entries share a key.
pub open spec fn alist_distinct<V>(s: Seq<(String, V)>) -> bool {
    forall|i: int, j: int| 0 <= i < j < s.len() ==> s[i].0@ != s[j].0@
}

proof fn lemma_alist_found<V: DeepView>(s: Seq<(String, V)>, i: int)
    requires
        alist_distinct(s),
        0 <= i < s.len(),
    ensures
        alist_map(s).contains_key(s[i].0@),
        alist_map(s)[s[i].0@] == s[i].1.deep_view(),
    decreases s.len(),
{
    if i == s.len() - 1 {
    } else {
        lemma_alist_found(s.drop_last(), i);
    }
}

proof fn lemma_alist_absent<V: DeepView>(s: Seq<(String, V)>, k: Seq<char>)
    requires
        forall|i: int| 0 <= i < s.len() ==> s[i].0@ != k,
    ensures
        !alist_map(s).contains_key(k),
    decreases s.len(),
{
    if s.len() > 0 {
        lemma_alist_absent(s.drop_last(), k);
    }
}

proof fn lemma_alist_remove<V: DeepView>(s: Seq<(String, V)>, i: int)
    requires
        alist_distinct(s),
        0 <= i < s.len(),
    ensures
        alist_map(s.remove(i)) =~= alist_map(s).remove(s[i].0@),
        alist_distinct(s.remove(i)),
    decreases s.len(),
{
    assert(alist_distinct(s.remove(i)));
    if i == s.len() - 1 {
        assert(s.remove(i) =~= s.drop_last());
        lemma_alist_absent(s.drop_last(), s[i].0@);
        assert(alist_map(s).remove(s[i].0@) =~= alist_map(s.drop_last()));
    } else {
        lemma_alist_remove(s.drop_last(), i);
        assert(s.remove(i).drop_last() =~= s.drop_last().remove(i));
        assert(s.remove(i).last() == s.last());
        assert(alist_map(s.remove(i)) =~= alist_map(s.drop_last().remove(i)).insert(
            s.last().0@,
            s.last().1.deep_view(),
        ));
        assert(s[i].0@ != s.last().0@);
        assert(alist_map(s.remove(i)) =~= alist_map(s).remove(s[i].0@));
    }
}

impl<V: DeepView> View for KeyMap<V> {
    type V = Map<Seq<char>, <V as DeepView>::V>;

    closed spec fn view(&self) -> Map<Seq<char>, <V as DeepView>::V> {
        alist_map(self.entries@)
    }
}

impl<V: DeepView> KeyMap<V> {
    /// Each key is stored at most once.
    pub closed spec fn wf(&self) -> bool {
        alist_distinct(self.entries@)
    }

    pub fn new() -> (r: Self)
        ensures
            r.wf(),
            r@ == Map::<Seq<char>, <V as DeepView>::V>::empty(),
    {
        KeyMap { entries: Vec::new() }
    }

    #[verifier::loop_isolation(false)]
    pub fn get<'a>(&'a self, k: &String) -> (r: Option<&'a V>)
        requires
            self.wf(),
        ensures
            match r {
                Some(v) => self@.contains_key(k@) && v.deep_view() == self@[k@],
                None => !self@.contains_key(k@),
            },
    {
        let mut i: usize = 0;
        while i < self.entries.len()
            invariant
                i <= self.entries@.len(),
                forall|m: int| 0 <= m < i ==> self.entries@[m].0@ != k@,
            decreases self.entries@.len() - i,
        {
            if self.entries[i].0 == *k {
                proof {
                    lemma_alist_found(self.entries@, i as int);
                }
                return Some(&self.entries[i].1);
            }
            i = i + 1;
        }
        proof {
            lemma_alist_absent(self.entries@, k@);
        }
        None
    }

    pub fn contains(&self, k: &String) -> (r: bool)
        requires
            self.wf(),
        ensures
            r == self@.contains_key(k@),
    {
        self.get(k).is_some()
    }

    #[verifier::loop_isolation(false)]
    pub fn insert(&mut self, k: String, v: V)
        requires
            old(self).wf(),
        ensures
            final(self).wf(),
            final(self)@ =~= old(self)@.insert(k@, v.deep_view()),
    {
        let mut i: usize = 0;
        while i < self.entries.len()
            invariant
                i <= self.entries@.len(),
                self.entries@ == old(self).entries@,
                forall|m: int| 0 <= m < i ==> self.entries@[m].0@ != k@,
            decreases self.entries@.len() - i,
        {
            if self.entries[i].0 == k {
                proof {
                    lemma_alist_remove(self.entries@, i as int);
                }
                let _ = self.entries.remove(i);
                proof {
                    lemma_alist_absent(self.entries@, k@);
                }
                self.entries.push((k, v));
                proof {
                    assert(self.entries@.drop_last() =~= old(self).entries@.remove(i as int));
                }
                return;
            }
            i = i + 1;
        }
        proof {
            lemma_alist_absent(self.entries@, k@);
        }
        self.entries.push((k, v));
        proof {
            assert(self.entries@.drop_last() =~= old(self).entries@);
        }
    }

    pub fn clear(&mut self)
        ensures
            final(self).wf(),
            final(self)@ =~= Map::<Seq<char>, <V as DeepView>::V>::empty(),
    {
        self.entries.clear();
    }
}

} // verus!
