//! The evaluation time of each rule, by rule name.

use vstd::prelude::*;

verus! {

/// The evaluation time that was recorded for one rule name.
struct TimeEntry {
    rule: String,
    time: u64,
}

impl View for TimeEntry {
    type V = (Seq<char>, u64);

    closed spec fn view(&self) -> (Seq<char>, u64) {
        (self.rule@, self.time)
    }
}

/// The values of a sequence of entries, in the same order.
spec fn entries_view(entries: Seq<TimeEntry>) -> Seq<(Seq<char>, u64)> {
    entries.map_values(|e: TimeEntry| e@)
}

/// The map that a sequence of entries writes, a later entry over an
/// earlier one of the same name.
pub open spec fn written(entries: Seq<(Seq<char>, u64)>) -> Map<Seq<char>, u64>
    decreases entries.len(),
{
    if entries.len() == 0 {
        Map::empty()
    } else {
        written(entries.drop_last()).insert(entries.last().0, entries.last().1)
    }
}

/// Whether no two entries have the same name.
pub open spec fn distinct_names(entries: Seq<(Seq<char>, u64)>) -> bool {
    forall|i: int, j: int|
        0 <= i < entries.len() && 0 <= j < entries.len() && i != j ==> (#[trigger] entries[i]).0 != (
        #[trigger] entries[j]).0
}

/// The names that the map holds are those of the entries.
pub proof fn lemma_written_dom(entries: Seq<(Seq<char>, u64)>, name: Seq<char>)
    ensures
        written(entries).dom().contains(name) <==> exists|i: int|
            0 <= i < entries.len() && (#[trigger] entries[i]).0 == name,
    decreases entries.len(),
{
    if entries.len() > 0 {
        let front = entries.drop_last();
        lemma_written_dom(front, name);
        if written(front).dom().contains(name) {
            let i = choose|i: int| 0 <= i < front.len() && (#[trigger] front[i]).0 == name;
            assert(entries[i].0 == name);
        }
        if exists|i: int| 0 <= i < entries.len() && (#[trigger] entries[i]).0 == name {
            let i = choose|i: int| 0 <= i < entries.len() && (#[trigger] entries[i]).0 == name;
            if i < front.len() {
                assert(front[i].0 == name);
            }
        }
    }
}

/// Among entries of distinct names, the map holds for each name the time
/// of its entry.
pub proof fn lemma_written_at(entries: Seq<(Seq<char>, u64)>, i: int)
    requires
        distinct_names(entries),
        0 <= i < entries.len(),
    ensures
        written(entries).dom().contains(entries[i].0),
        written(entries)[entries[i].0] == entries[i].1,
    decreases entries.len(),
{
    let front = entries.drop_last();
    if i < entries.len() - 1 {
        assert(distinct_names(front)) by {
            assert forall|a: int, b: int|
                0 <= a < front.len() && 0 <= b < front.len() && a != b implies (
            #[trigger] front[a]).0 != (#[trigger] front[b]).0 by {
                assert(front[a] == entries[a]);
                assert(front[b] == entries[b]);
            }
        }
        lemma_written_at(front, i);
        assert(front[i] == entries[i]);
        assert(entries[i].0 != entries[entries.len() - 1].0);
    }
}

/// Among entries of distinct names, a new time for the name of one entry
/// changes the map at that name and nowhere else.
pub proof fn lemma_written_update(entries: Seq<(Seq<char>, u64)>, i: int, time: u64)
    requires
        distinct_names(entries),
        0 <= i < entries.len(),
    ensures
        distinct_names(entries.update(i, (entries[i].0, time))),
        written(entries.update(i, (entries[i].0, time))) == written(entries).insert(
            entries[i].0,
            time,
        ),
    decreases entries.len(),
{
    let name = entries[i].0;
    let after = entries.update(i, (name, time));
    let front = entries.drop_last();
    assert(distinct_names(after)) by {
        assert forall|a: int, b: int|
            0 <= a < after.len() && 0 <= b < after.len() && a != b implies (#[trigger] after[a]).0
            != (#[trigger] after[b]).0 by {
            assert(after[a].0 == entries[a].0);
            assert(after[b].0 == entries[b].0);
        }
    }
    if i == entries.len() - 1 {
        assert(after.drop_last() =~= front);
        assert(written(after) =~= written(entries).insert(name, time));
    } else {
        assert(distinct_names(front)) by {
            assert forall|a: int, b: int|
                0 <= a < front.len() && 0 <= b < front.len() && a != b implies (
            #[trigger] front[a]).0 != (#[trigger] front[b]).0 by {
                assert(front[a] == entries[a]);
                assert(front[b] == entries[b]);
            }
        }
        lemma_written_update(front, i, time);
        assert(front[i] == entries[i]);
        assert(after.drop_last() =~= front.update(i, (name, time)));
        assert(after.last() == entries.last());
        assert(entries.last().0 != name);
        assert(written(after) =~= written(entries).insert(name, time));
    }
}

/// The table from rule name to evaluation time. A time is held as the bits
/// of the double that the rule source reports.
pub struct EvaluationTimes {
    entries: Vec<TimeEntry>,
}

impl View for EvaluationTimes {
    type V = Map<Seq<char>, u64>;

    closed spec fn view(&self) -> Map<Seq<char>, u64> {
        written(entries_view(self.entries@))
    }
}

impl EvaluationTimes {
    /// The invariant of the table: no name has two entries.
    pub closed spec fn wf(&self) -> bool {
        distinct_names(entries_view(self.entries@))
    }

    /// Makes a table without entries.
    pub fn new() -> (times: EvaluationTimes)
        ensures
            times.wf(),
            times@ == Map::<Seq<char>, u64>::empty(),
    {
        let times = EvaluationTimes { entries: Vec::new() };
        proof {
            assert(entries_view(times.entries@) =~= Seq::<(Seq<char>, u64)>::empty());
        }
        times
    }

    /// The index of the entry of `rule`, where it has one.
    fn position(&self, rule: &String) -> (found: Option<usize>)
        ensures
            match found {
                Some(i) => i < self.entries@.len() && entries_view(self.entries@)[i as int].0
                    == rule@,
                None => forall|i: int|
                    0 <= i < self.entries@.len() ==> (#[trigger] entries_view(
                        self.entries@,
                    )[i]).0 != rule@,
            },
    {
        let mut i: usize = 0;
        while i < self.entries.len()
            invariant
                i <= self.entries.len(),
                forall|k: int|
                    0 <= k < i ==> (#[trigger] entries_view(self.entries@)[k]).0 != rule@,
            decreases self.entries.len() - i,
        {
            if self.entries[i].rule == *rule {
                return Some(i);
            }
            i = i + 1;
        }
        None
    }

    /// Records the evaluation time of `rule`, in place of the time that
    /// the name had.
    pub fn insert(&mut self, rule: String, time: u64)
        requires
            old(self).wf(),
        ensures
            final(self).wf(),
            final(self)@ == old(self)@.insert(rule@, time),
    {
        let ghost before = entries_view(self.entries@);
        match self.position(&rule) {
            Some(i) => {
                self.entries[i].time = time;
                proof {
                    assert(entries_view(self.entries@) =~= before.update(
                        i as int,
                        (before[i as int].0, time),
                    ));
                    lemma_written_update(before, i as int, time);
                }
            },
            None => {
                self.entries.push(TimeEntry { rule, time });
                proof {
                    let after = entries_view(self.entries@);
                    assert(after =~= before.push((rule@, time)));
                    assert(after.drop_last() =~= before);
                }
            },
        }
    }

    /// The evaluation time that was last recorded for `rule`.
    pub fn get(&self, rule: &String) -> (time: Option<u64>)
        requires
            self.wf(),
        ensures
            time == if self@.dom().contains(rule@) {
                Some(self@[rule@])
            } else {
                None
            },
    {
        proof {
            lemma_written_dom(entries_view(self.entries@), rule@);
        }
        match self.position(rule) {
            Some(i) => {
                proof {
                    lemma_written_at(entries_view(self.entries@), i as int);
                }
                Some(self.entries[i].time)
            },
            None => None,
        }
    }

    /// The number of rule names that have a time.
    pub fn len(&self) -> (n: usize)
        requires
            self.wf(),
        ensures
            n == self@.dom().len(),
            self@.dom().finite(),
    {
        proof {
            lemma_written_len(entries_view(self.entries@));
        }
        self.entries.len()
    }
}

/// Entries of distinct names write a map of as many names.
pub proof fn lemma_written_len(entries: Seq<(Seq<char>, u64)>)
    requires
        distinct_names(entries),
    ensures
        written(entries).dom().finite(),
        written(entries).dom().len() == entries.len(),
    decreases entries.len(),
{
    if entries.len() > 0 {
        let front = entries.drop_last();
        assert(distinct_names(front)) by {
            assert forall|a: int, b: int|
                0 <= a < front.len() && 0 <= b < front.len() && a != b implies (
            #[trigger] front[a]).0 != (#[trigger] front[b]).0 by {
                assert(front[a] == entries[a]);
                assert(front[b] == entries[b]);
            }
        }
        lemma_written_len(front);
        lemma_written_dom(front, entries.last().0);
        if written(front).dom().contains(entries.last().0) {
            let i = choose|i: int|
                0 <= i < front.len() && (#[trigger] front[i]).0 == entries.last().0;
            assert(front[i] == entries[i]);
            assert(false);
        }
    }
}

} // verus!
