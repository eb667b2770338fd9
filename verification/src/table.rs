//! Processes by name.
use vstd::prelude::*;

use crate::process::Process;
use crate::text::same_text;

verus! {

/// A map from names to processes.
pub struct ProcessTable {
    entries: Vec<(String, Process)>,
}

/// Whether no name occurs twice.
pub open spec fn has_unique_names(entries: Seq<(String, Process)>) -> bool {
    forall|i: int, j: int|
        0 <= i < j < entries.len() ==> (#[trigger] entries[i]).0@ != (#[trigger] entries[j]).0@
}

/// Whether `name` occurs.
pub open spec fn has_name(entries: Seq<(String, Process)>, name: Seq<char>) -> bool {
    exists|i: int| 0 <= i < entries.len() && (#[trigger] entries[i]).0@ == name
}

/// The process that is listed under `name`.
pub open spec fn listed(entries: Seq<(String, Process)>, name: Seq<char>) -> Process {
    entries[choose|i: int| 0 <= i < entries.len() && (#[trigger] entries[i]).0@ == name].1
}

/// The map that a list without repeated names writes down.
pub open spec fn as_map(entries: Seq<(String, Process)>) -> Map<Seq<char>, Process> {
    Map::new(
        |name: Seq<char>| has_name(entries, name),
        |name: Seq<char>| listed(entries, name),
    )
}

/// What a list without repeated names maps an element's name to.
pub proof fn lemma_listed(entries: Seq<(String, Process)>, i: int)
    requires
        has_unique_names(entries),
        0 <= i < entries.len(),
    ensures
        as_map(entries).contains_key(entries[i].0@),
        as_map(entries)[entries[i].0@] == entries[i].1,
{
    let name = entries[i].0@;
    let j = choose|j: int| 0 <= j < entries.len() && (#[trigger] entries[j]).0@ == name;
    assert(has_name(entries, name));
    assert(0 <= j < entries.len() && entries[j].0@ == name);
    if i < j {
        assert(entries[i].0@ != entries[j].0@);
    }
    if j < i {
        assert(entries[j].0@ != entries[i].0@);
    }
}

impl ProcessTable {
    /// The processes by their names.
    pub closed spec fn view(&self) -> Map<Seq<char>, Process> {
        as_map(self.entries@)
    }

    /// What holds of every table.
    pub closed spec fn inv(&self) -> bool {
        has_unique_names(self.entries@)
    }

    /// A table with nothing in it.
    pub fn new() -> (r: ProcessTable)
        ensures
            r.inv(),
            r@ == Map::<Seq<char>, Process>::empty(),
    {
        let r = ProcessTable { entries: Vec::new() };
        assert(r@ =~= Map::<Seq<char>, Process>::empty());
        r
    }

    /// The number of processes.
    pub fn len(&self) -> (r: usize)
        requires
            self.inv(),
        ensures
            r == self@.len(),
    {
        proof {
            lemma_count(self.entries@);
        }
        self.entries.len()
    }

    fn position(&self, name: &str) -> (r: Option<usize>)
        requires
            self.inv(),
        ensures
            match r {
                Some(i) => i < self.entries.len() && self.entries@[i as int].0@ == name@,
                None => !has_name(self.entries@, name@),
            },
    {
        let mut i: usize = 0;
        while i < self.entries.len()
            invariant
                i <= self.entries.len(),
                forall|j: int| 0 <= j < i ==> (#[trigger] self.entries@[j]).0@ != name@,
            decreases self.entries.len() - i,
        {
            if same_text(self.entries[i].0.as_str(), name) {
                return Some(i);
            }
            i = i + 1;
        }
        None
    }

    /// Lists `process` under `name`, in the place of what was listed there.
    pub fn insert(&mut self, name: String, process: Process)
        requires
            old(self).inv(),
        ensures
            final(self).inv(),
            final(self)@ == old(self)@.insert(name@, process),
    {
        let ghost before: Seq<(String, Process)> = self.entries@;
        match self.position(name.as_str()) {
            Some(i) => {
                self.entries.set(i, (name, process));
                proof {
                    let after = self.entries@;
                    assert(has_unique_names(after)) by {
                        assert forall|a: int, b: int| 0 <= a < b < after.len() implies (
                        #[trigger] after[a]).0@ != (#[trigger] after[b]).0@ by {
                            assert(after[a].0@ == before[a].0@);
                            assert(after[b].0@ == before[b].0@);
                        }
                    }
                    assert forall|n: Seq<char>| #[trigger]
                        as_map(after).contains_key(n) <==> as_map(before).insert(
                            name@,
                            process,
                        ).contains_key(n) by {
                        if has_name(after, n) {
                            let a = choose|a: int|
                                0 <= a < after.len() && (#[trigger] after[a]).0@ == n;
                            assert(before[a].0@ == n);
                        }
                        if has_name(before, n) {
                            let a = choose|a: int|
                                0 <= a < before.len() && (#[trigger] before[a]).0@ == n;
                            assert(after[a].0@ == n);
                        }
                        if n == name@ {
                            assert(after[i as int].0@ == n);
                        }
                    }
                    assert forall|n: Seq<char>| #[trigger]
                        as_map(after).contains_key(n) implies as_map(after)[n] == as_map(
                        before,
                    ).insert(name@, process)[n] by {
                        let a = choose|a: int|
                            0 <= a < after.len() && (#[trigger] after[a]).0@ == n;
                        lemma_listed(after, a);
                        lemma_listed(before, a);
                        if n == name@ {
                            lemma_listed(after, i as int);
                        } else {
                            assert(a != i);
                        }
                    }
                    assert(as_map(after) =~= as_map(before).insert(name@, process));
                }
            },
            None => {
                self.entries.push((name, process));
                proof {
                    lemma_pushed(before, (name, process));
                }
            },
        }
    }

    /// Takes out what is listed under `name`.
    pub fn remove(&mut self, name: &str) -> (r: Option<Process>)
        requires
            old(self).inv(),
        ensures
            final(self).inv(),
            final(self)@ == old(self)@.remove(name@),
            match r {
                Some(process) => old(self)@.contains_key(name@) && process == old(self)@[name@],
                None => !old(self)@.contains_key(name@),
            },
    {
        let ghost before: Seq<(String, Process)> = self.entries@;
        match self.position(name) {
            Some(i) => {
                let entry: (String, Process) = self.entries.remove(i);
                proof {
                    let after = self.entries@;
                    lemma_listed(before, i as int);
                    assert(after =~= before.remove(i as int));
                    lemma_removed(before, i as int);
                }
                Some(entry.1)
            },
            None => {
                assert(self@ =~= old(self)@.remove(name@));
                None
            },
        }
    }

    /// Takes the table apart: every name once, with its process.
    pub fn into_entries(self) -> (r: Vec<(String, Process)>)
        requires
            self.inv(),
        ensures
            has_unique_names(r@),
            as_map(r@) == self@,
            r.len() == self@.len(),
    {
        proof {
            lemma_count(self.entries@);
        }
        self.entries
    }
}

proof fn lemma_pushed(before: Seq<(String, Process)>, entry: (String, Process))
    requires
        has_unique_names(before),
        !has_name(before, entry.0@),
    ensures
        has_unique_names(before.push(entry)),
        as_map(before.push(entry)) == as_map(before).insert(entry.0@, entry.1),
{
    let after = before.push(entry);
    let last = before.len() as int;
    assert forall|a: int, b: int| 0 <= a < b < after.len() implies (#[trigger] after[a]).0@ != (
    #[trigger] after[b]).0@ by {
        assert(after[a] == before[a]);
        if b < last {
            assert(after[b] == before[b]);
        } else {
            assert(before[a].0@ != entry.0@);
        }
    }
    assert forall|n: Seq<char>| #[trigger]
        as_map(after).contains_key(n) <==> as_map(before).insert(entry.0@, entry.1).contains_key(
            n,
        ) by {
        if has_name(after, n) {
            let a = choose|a: int| 0 <= a < after.len() && (#[trigger] after[a]).0@ == n;
            if a < last {
                assert(before[a].0@ == n);
            }
        }
        if has_name(before, n) {
            let a = choose|a: int| 0 <= a < before.len() && (#[trigger] before[a]).0@ == n;
            assert(after[a].0@ == n);
        }
        if n == entry.0@ {
            assert(after[last].0@ == n);
        }
    }
    assert forall|n: Seq<char>| #[trigger] as_map(after).contains_key(n) implies as_map(after)[n]
        == as_map(before).insert(entry.0@, entry.1)[n] by {
        let a = choose|a: int| 0 <= a < after.len() && (#[trigger] after[a]).0@ == n;
        lemma_listed(after, a);
        if a < last {
            assert(before[a].0@ == n);
            lemma_listed(before, a);
        }
    }
    assert(as_map(after) =~= as_map(before).insert(entry.0@, entry.1));
}

/// A list without repeated names has as many elements as its map.
proof fn lemma_count(entries: Seq<(String, Process)>)
    requires
        has_unique_names(entries),
    ensures
        as_map(entries).dom().finite(),
        as_map(entries).len() == entries.len(),
    decreases entries.len(),
{
    if entries.len() == 0 {
        assert(as_map(entries).dom() =~= Set::<Seq<char>>::empty());
    } else {
        let front = entries.drop_last();
        assert(has_unique_names(front)) by {
            assert forall|i: int, j: int| 0 <= i < j < front.len() implies (#[trigger] front[i]).0@
                != (#[trigger] front[j]).0@ by {
                assert(front[i] == entries[i] && front[j] == entries[j]);
            }
        }
        lemma_count(front);
        assert(!has_name(front, entries.last().0@)) by {
            if has_name(front, entries.last().0@) {
                let i = choose|i: int|
                    0 <= i < front.len() && (#[trigger] front[i]).0@ == entries.last().0@;
                assert(entries[i].0@ != entries[entries.len() - 1].0@);
            }
        }
        lemma_pushed(front, entries.last());
        assert(front.push(entries.last()) =~= entries);
    }
}

proof fn lemma_removed(before: Seq<(String, Process)>, i: int)
    requires
        has_unique_names(before),
        0 <= i < before.len(),
    ensures
        has_unique_names(before.remove(i)),
        as_map(before.remove(i)) == as_map(before).remove(before[i].0@),
{
    let after = before.remove(i);
    let name = before[i].0@;
    assert forall|a: int, b: int| 0 <= a < b < after.len() implies (#[trigger] after[a]).0@ != (
    #[trigger] after[b]).0@ by {
        let x = if a < i {
            a
        } else {
            a + 1
        };
        let y = if b < i {
            b
        } else {
            b + 1
        };
        assert(after[a] == before[x] && after[b] == before[y]);
    }
    assert forall|n: Seq<char>| #[trigger]
        as_map(after).contains_key(n) <==> as_map(before).remove(name).contains_key(n) by {
        if has_name(after, n) {
            let a = choose|a: int| 0 <= a < after.len() && (#[trigger] after[a]).0@ == n;
            let x = if a < i {
                a
            } else {
                a + 1
            };
            assert(before[x] == after[a]);
            if x < i {
                assert(before[x].0@ != before[i].0@);
            } else {
                assert(before[i].0@ != before[x].0@);
            }
        }
        if has_name(before, n) && n != name {
            let x = choose|x: int| 0 <= x < before.len() && (#[trigger] before[x]).0@ == n;
            let a = if x < i {
                x
            } else {
                x - 1
            };
            assert(after[a] == before[x]);
        }
    }
    assert forall|n: Seq<char>| #[trigger] as_map(after).contains_key(n) implies as_map(after)[n]
        == as_map(before).remove(name)[n] by {
        let a = choose|a: int| 0 <= a < after.len() && (#[trigger] after[a]).0@ == n;
        let x = if a < i {
            a
        } else {
            a + 1
        };
        assert(before[x] == after[a]);
        lemma_listed(after, a);
        lemma_listed(before, x);
    }
    assert(as_map(after) =~= as_map(before).remove(name));
}

} // verus!
