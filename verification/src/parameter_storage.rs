//! The execution-state store: an in-memory mapping from workload name to the
//! latest known execution state, written as runtime reports arrive and read
//! by the dependency evaluator.

use vstd::prelude::*;

use crate::objects::ExecutionState;
use crate::text::str_eq;

verus! {

/// The mathematical content of an association list from names to states:
/// a later entry for the same name overrides an earlier one.
pub open spec fn entries_map(s: Seq<(String, ExecutionState)>) -> Map<Seq<char>, ExecutionState>
    decreases s.len(),
{
    if s.len() == 0 {
        Map::empty()
    } else {
        entries_map(s.drop_last()).insert(s.last().0@, s.last().1)
    }
}

pub open spec fn entries_unique(s: Seq<(String, ExecutionState)>) -> bool {
    forall|i: int, j: int| 0 <= i < j < s.len() ==> s[i].0@ != s[j].0@
}

proof fn lemma_entries_map_dom(s: Seq<(String, ExecutionState)>, k: Seq<char>)
    ensures
        entries_map(s).contains_key(k) <==> exists|i: int| 0 <= i < s.len() && s[i].0@ == k,
    decreases s.len(),
{
    if s.len() > 0 {
        lemma_entries_map_dom(s.drop_last(), k);
        if entries_map(s).contains_key(k) {
            if s.last().0@ == k {
                assert(s[s.len() - 1].0@ == k);
            } else {
                let i = choose|i: int| 0 <= i < s.drop_last().len() && s.drop_last()[i].0@ == k;
                assert(s[i].0@ == k);
            }
        }
        if exists|i: int| 0 <= i < s.len() && s[i].0@ == k {
            let i = choose|i: int| 0 <= i < s.len() && s[i].0@ == k;
            if i < s.len() - 1 {
                assert(s.drop_last()[i].0@ == k);
            }
        }
    }
}

proof fn lemma_entries_map_index(s: Seq<(String, ExecutionState)>, i: int)
    requires
        entries_unique(s),
        0 <= i < s.len(),
    ensures
        entries_map(s).contains_key(s[i].0@),
        entries_map(s)[s[i].0@] == s[i].1,
    decreases s.len(),
{
    if i == s.len() - 1 {
    } else {
        assert(s.drop_last()[i] == s[i]);
        lemma_entries_map_index(s.drop_last(), i);
        assert(s[s.len() - 1].0@ != s[i].0@);
    }
}

/// In-memory store of the latest known execution state per workload name.
pub struct ParameterStorage {
    entries: Vec<(String, ExecutionState)>,
}

impl View for ParameterStorage {
    type V = Map<Seq<char>, ExecutionState>;

    closed spec fn view(&self) -> Map<Seq<char>, ExecutionState> {
        entries_map(self.entries@)
    }
}

impl ParameterStorage {
    pub closed spec fn wf(&self) -> bool {
        entries_unique(self.entries@)
    }

    pub fn new() -> (r: Self)
        ensures
            r.wf(),
            r@ == Map::<Seq<char>, ExecutionState>::empty(),
    {
        ParameterStorage { entries: Vec::new() }
    }

    /// Records the latest execution state for a workload name, overwriting
    /// any earlier one; no history is kept.
    pub fn put(&mut self, name: &str, state: ExecutionState)
        requires
            old(self).wf(),
        ensures
            final(self).wf(),
            final(self)@ == old(self)@.insert(name@, state),
    {
        let n = self.entries.len();
        let mut i: usize = 0;
        while i < n
            invariant
                old(self).wf(),
                self == old(self),
                n == self.entries.len(),
                i <= n,
                forall|j: int| 0 <= j < i ==> self.entries@[j].0@ != name@,
            decreases n - i,
        {
            if str_eq(self.entries[i].0.as_str(), name) {
                proof {
                    lemma_update_entry(self.entries@, i as int, name@, state);
                }
                self.entries[i] = (name.to_owned(), state);
                return ;
            }
            i += 1;
        }
        proof {
            lemma_push_entry(self.entries@, name@, state);
            lemma_entries_map_dom(self.entries@, name@);
        }
        self.entries.push((name.to_owned(), state));
    }

    /// Returns the stored state for the name, or nothing when it is unknown.
    pub fn get_state_of_workload(&self, name: &str) -> (r: Option<ExecutionState>)
        requires
            self.wf(),
        ensures
            r == if self@.contains_key(name@) {
                Some(self@[name@])
            } else {
                None::<ExecutionState>
            },
    {
        let n = self.entries.len();
        let mut i: usize = 0;
        while i < n
            invariant
                self.wf(),
                n == self.entries.len(),
                i <= n,
                forall|j: int| 0 <= j < i ==> self.entries@[j].0@ != name@,
            decreases n - i,
        {
            if str_eq(self.entries[i].0.as_str(), name) {
                proof {
                    lemma_entries_map_index(self.entries@, i as int);
                }
                return Some(self.entries[i].1);
            }
            i += 1;
        }
        proof {
            lemma_entries_map_dom(self.entries@, name@);
        }
        None
    }
}

proof fn lemma_push_entry(s: Seq<(String, ExecutionState)>, k: Seq<char>, v: ExecutionState)
    ensures
        forall|p: (String, ExecutionState)|
            p.0@ == k && p.1 == v ==> entries_map(s.push(p)) == entries_map(s).insert(k, v),
{
    assert forall|p: (String, ExecutionState)|
        p.0@ == k && p.1 == v implies entries_map(s.push(p)) == entries_map(s).insert(k, v) by {
        assert(s.push(p).drop_last() =~= s);
        assert(s.push(p).last() == p);
    }
}

proof fn lemma_update_entry(s: Seq<(String, ExecutionState)>, i: int, k: Seq<char>, v: ExecutionState)
    requires
        entries_unique(s),
        0 <= i < s.len(),
        s[i].0@ == k,
    ensures
        forall|p: (String, ExecutionState)|
            p.0@ == k && p.1 == v ==> {
                &&& entries_map(s.update(i, p)) == entries_map(s).insert(k, v)
                &&& entries_unique(s.update(i, p))
            },
    decreases s.len(),
{
    assert forall|p: (String, ExecutionState)|
        p.0@ == k && p.1 == v implies {
            &&& entries_map(s.update(i, p)) == entries_map(s).insert(k, v)
            &&& entries_unique(s.update(i, p))
        } by {
        assert(entries_unique(s.update(i, p)));
        if i == s.len() - 1 {
            assert(s.update(i, p).drop_last() =~= s.drop_last());
            assert(s.update(i, p).last() == p);
            assert(entries_map(s.update(i, p)) == entries_map(s.drop_last()).insert(k, v));
            assert(entries_map(s) == entries_map(s.drop_last()).insert(k, s[i].1));
            assert(entries_map(s.drop_last()).insert(k, s[i].1).insert(k, v) =~= entries_map(
                s.drop_last(),
            ).insert(k, v));
        } else {
            assert(s.drop_last()[i] == s[i]);
            lemma_update_entry(s.drop_last(), i, k, v);
            assert(s.update(i, p).drop_last() =~= s.drop_last().update(i, p));
            assert(s.update(i, p).last() == s.last());
            assert(entries_map(s.update(i, p)) == entries_map(s.drop_last().update(i, p)).insert(
                s.last().0@,
                s.last().1,
            ));
            assert(entries_map(s.drop_last().update(i, p)) == entries_map(s.drop_last()).insert(
                k,
                v,
            ));
            assert(s.last().0@ != k);
            assert(entries_map(s.drop_last()).insert(k, v).insert(s.last().0@, s.last().1) =~= entries_map(
                s.drop_last(),
            ).insert(s.last().0@, s.last().1).insert(k, v));
        }
    }
}

} // verus!
