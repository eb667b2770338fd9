//! A queue of things to do at given times.
use vstd::prelude::*;

verus! {

/// Items that wait for their deadlines, the nearest deadline first. Of two items
/// with one deadline, the one that was added first comes first.
///
/// A deadline is a reading of a steady clock, in nanoseconds.
#[derive(Debug)]
pub struct Queue<T> {
    entries: Vec<(i128, T)>,
}

/// Whether the deadlines do not decrease.
pub open spec fn is_sorted<T>(s: Seq<(i128, T)>) -> bool {
    forall|i: int, j: int| 0 <= i < j < s.len() ==> (#[trigger] s[i]).0 <= (#[trigger] s[j]).0
}

/// How many entries at the front of `s` have a deadline of `time` or before.
pub open spec fn due_count<T>(s: Seq<(i128, T)>, time: i128) -> nat
    decreases s.len(),
{
    if s.len() > 0 && s[0].0 <= time {
        1 + due_count(s.skip(1), time)
    } else {
        0
    }
}

/// The items of `s`, without their deadlines.
pub open spec fn items<T>(s: Seq<(i128, T)>) -> Seq<T> {
    Seq::new(s.len(), |i: int| s[i].1)
}

/// `s` with one more entry, behind all that are due no later.
pub open spec fn with_entry<T>(s: Seq<(i128, T)>, deadline: i128, item: T) -> Seq<(i128, T)> {
    s.insert(due_count(s, deadline) as int, (deadline, item))
}

/// In a sorted sequence the entries that are due are those at the front.
pub proof fn lemma_due_count<T>(s: Seq<(i128, T)>, time: i128)
    requires
        is_sorted(s),
    ensures
        due_count(s, time) <= s.len(),
        forall|i: int| 0 <= i < due_count(s, time) ==> (#[trigger] s[i]).0 <= time,
        forall|i: int| due_count(s, time) <= i < s.len() ==> (#[trigger] s[i]).0 > time,
    decreases s.len(),
{
    if s.len() > 0 && s[0].0 <= time {
        let rest = s.skip(1);
        assert(is_sorted(rest)) by {
            assert forall|i: int, j: int| 0 <= i < j < rest.len() implies (#[trigger] rest[i]).0 <= (
            #[trigger] rest[j]).0 by {
                assert(rest[i] == s[i + 1] && rest[j] == s[j + 1]);
            }
        }
        lemma_due_count(rest, time);
        assert forall|i: int| 0 <= i < due_count(s, time) implies (#[trigger] s[i]).0 <= time by {
            if i > 0 {
                assert(s[i] == rest[i - 1]);
            }
        }
        assert forall|i: int| due_count(s, time) <= i < s.len() implies (#[trigger] s[i]).0
            > time by {
            assert(s[i] == rest[i - 1]);
        }
    } else if s.len() > 0 {
        assert forall|i: int| 0 <= i < s.len() implies (#[trigger] s[i]).0 > time by {
            if i > 0 {
                assert(s[0].0 <= s[i].0);
            }
        }
    }
}

/// A number with the properties of `due_count` is it.
pub proof fn lemma_due_count_is<T>(s: Seq<(i128, T)>, time: i128, n: int)
    requires
        is_sorted(s),
        0 <= n <= s.len(),
        forall|i: int| 0 <= i < n ==> (#[trigger] s[i]).0 <= time,
        n < s.len() ==> s[n].0 > time,
    ensures
        due_count(s, time) == n,
{
    lemma_due_count(s, time);
    let m = due_count(s, time) as int;
    if m < n {
        assert(s[m].0 <= time);
    }
    if n < m {
        assert(s[n].0 <= time);
    }
}

/// Adding an entry keeps the order.
pub proof fn lemma_with_entry_sorted<T>(s: Seq<(i128, T)>, deadline: i128, item: T)
    requires
        is_sorted(s),
    ensures
        is_sorted(with_entry(s, deadline, item)),
        with_entry(s, deadline, item).len() == s.len() + 1,
{
    lemma_due_count(s, deadline);
    let k = due_count(s, deadline) as int;
    let t = with_entry(s, deadline, item);
    assert forall|i: int, j: int| 0 <= i < j < t.len() implies (#[trigger] t[i]).0 <= (
    #[trigger] t[j]).0 by {
        if i < k {
            assert(t[i] == s[i]);
        } else if i > k {
            assert(t[i] == s[i - 1]);
        }
        if j < k {
            assert(t[j] == s[j]);
        } else if j > k {
            assert(t[j] == s[j - 1]);
        }
    }
}

impl<T> Queue<T> {
    /// The entries in the order in which they come due.
    pub closed spec fn view(&self) -> Seq<(i128, T)> {
        self.entries@
    }

    /// What holds of every queue.
    pub open spec fn inv(&self) -> bool {
        is_sorted(self@)
    }

    /// A queue with nothing in it.
    pub fn new() -> (r: Queue<T>)
        ensures
            r.inv(),
            r@ == Seq::<(i128, T)>::empty(),
    {
        Queue { entries: Vec::new() }
    }

    /// Adds an item that comes due at `deadline`.
    pub fn add(&mut self, deadline: i128, item: T)
        requires
            old(self).inv(),
        ensures
            final(self).inv(),
            final(self)@ == with_entry(old(self)@, deadline, item),
    {
        let mut k: usize = 0;
        while k < self.entries.len() && self.entries[k].0 <= deadline
            invariant
                k <= self.entries.len(),
                self.entries@ == old(self)@,
                forall|i: int| 0 <= i < k ==> (#[trigger] self@[i]).0 <= deadline,
            decreases self.entries.len() - k,
        {
            k = k + 1;
        }
        proof {
            lemma_due_count_is(self@, deadline, k as int);
            lemma_with_entry_sorted(self@, deadline, item);
        }
        self.entries.insert(k, (deadline, item));
    }

    /// When the next item comes due.
    pub fn peek_time(&self) -> (r: Option<i128>)
        ensures
            r == if self@.len() > 0 {
                Some(self@[0].0)
            } else {
                None
            },
    {
        if self.entries.len() > 0 {
            Some(self.entries[0].0)
        } else {
            None
        }
    }

    /// Takes out the items whose deadline is `time` or before.
    pub fn pop_until(&mut self, time: i128) -> (r: Vec<T>)
        requires
            old(self).inv(),
        ensures
            final(self).inv(),
            r@ == items(old(self)@.take(due_count(old(self)@, time) as int)),
            final(self)@ == old(self)@.skip(due_count(old(self)@, time) as int),
    {
        let mut out: Vec<T> = Vec::new();
        let ghost all: Seq<(i128, T)> = self@;
        assert(all.skip(0) =~= all);
        while self.entries.len() > 0 && self.entries[0].0 <= time
            invariant
                is_sorted(all),
                out.len() <= all.len(),
                self@ == all.skip(out.len() as int),
                out@ == items(all.take(out.len() as int)),
                forall|i: int| 0 <= i < out.len() ==> (#[trigger] all[i]).0 <= time,
            decreases self.entries.len(),
        {
            let ghost n: int = out.len() as int;
            assert(self@[0] == all[n]);
            let entry: (i128, T) = self.entries.remove(0);
            out.push(entry.1);
            proof {
                assert(self@ =~= all.skip(n + 1));
                assert(out@ =~= items(all.take(n + 1)));
            }
        }
        proof {
            let n = out.len() as int;
            if n < all.len() {
                assert(self@[0] == all[n]);
            }
            lemma_due_count_is(all, time, n);
            assert forall|i: int, j: int| 0 <= i < j < self@.len() implies (#[trigger] self@[i]).0
                <= (#[trigger] self@[j]).0 by {
                assert(self@[i] == all[n + i] && self@[j] == all[n + j]);
            }
        }
        out
    }
}

/// An item comes out no earlier than its deadline, and as soon as it is asked
/// for at that time or later: what is left in the queue is due later.
pub proof fn law_pop_takes_what_is_due<T>(s: Seq<(i128, T)>, time: i128, i: int)
    requires
        is_sorted(s),
        0 <= i < s.len(),
    ensures
        s[i].0 <= time ==> i < due_count(s, time) && items(
            s.take(due_count(s, time) as int),
        )[i] == s[i].1,
        s[i].0 > time ==> i >= due_count(s, time) && s.skip(due_count(s, time) as int)[i
            - due_count(s, time)] == s[i],
{
    lemma_due_count(s, time);
}

/// What was added is in the queue, with its deadline, and so is all that was
/// there before, in its order.
pub proof fn law_add_keeps_entries<T>(s: Seq<(i128, T)>, deadline: i128, item: T)
    requires
        is_sorted(s),
    ensures
        with_entry(s, deadline, item).contains((deadline, item)),
        with_entry(s, deadline, item).remove(due_count(s, deadline) as int) == s,
{
    lemma_due_count(s, deadline);
    let k = due_count(s, deadline) as int;
    let t = with_entry(s, deadline, item);
    assert(t[k] == (deadline, item));
    assert(t.remove(k) =~= s);
}

/// What was added stands behind all that is due no later, and before all that is due
/// later; the rest is as it was. Its place is what comes back.
pub proof fn law_added_item_has_its_place<T>(s: Seq<(i128, T)>, deadline: i128, item: T) -> (k: int)
    requires
        is_sorted(s),
    ensures
        0 <= k <= s.len(),
        with_entry(s, deadline, item).len() == s.len() + 1,
        with_entry(s, deadline, item)[k] == (deadline, item),
        forall|i: int|
            0 <= i < k ==> (#[trigger] with_entry(s, deadline, item)[i]) == s[i] && s[i].0
                <= deadline,
        forall|i: int|
            k < i <= s.len() ==> (#[trigger] with_entry(s, deadline, item)[i]) == s[i - 1] && s[i
                - 1].0 > deadline,
{
    lemma_due_count(s, deadline);
    due_count(s, deadline) as int
}

/// All the items that are due come out, one after the other as they wait, and what is
/// left is as it was. How many they are is what comes back.
pub proof fn law_due_items_come_out<T>(s: Seq<(i128, T)>, time: i128) -> (n: int)
    requires
        is_sorted(s),
    ensures
        0 <= n <= s.len(),
        forall|i: int| 0 <= i < n ==> (#[trigger] s[i]).0 <= time,
        forall|i: int| n <= i < s.len() ==> (#[trigger] s[i]).0 > time,
        items(s.take(due_count(s, time) as int)).len() == n,
        forall|i: int|
            0 <= i < n ==> #[trigger] items(s.take(due_count(s, time) as int))[i] == s[i].1,
        s.skip(due_count(s, time) as int).len() == s.len() - n,
        forall|i: int|
            0 <= i < s.len() - n ==> #[trigger] s.skip(due_count(s, time) as int)[i] == s[n + i],
{
    lemma_due_count(s, time);
    due_count(s, time) as int
}

} // verus!
