//! The bill store: a mapping from bill name to the ordered history of
//! amounts recorded for that name, most recent last.
//!
//! Amounts are carried as opaque 32-bit words. The store never computes
//! with an amount, it only records and returns them; a caller that works
//! in fractional currency encodes each value into such a word (for
//! example as an IEEE-754 bit pattern) and decodes it on the way out.

use vstd::prelude::*;

verus! {

/// A bill handed to the store: a name and one amount to record.
/// It exists only as the argument of [`Bills::add`]; its fields are
/// merged into the store.
pub struct Bill {
    pub name: String,
    pub amount: u32,
}

/// One stored entry: a bill name together with its history of amounts,
/// in the order they were added (most recent last).
pub struct BillEntry {
    pub name: String,
    pub amounts: Vec<u32>,
}

/// The outcome of [`Bills::remove`].
#[derive(Clone, Copy, Debug, PartialEq, Eq, Structural)]
pub enum RemoveOutcome {
    /// The name was present; it and its whole history were deleted.
    Removed,
    /// The name was not present; the store is unchanged.
    NotFound,
}

/// The outcome of [`Bills::undo`].
#[derive(Clone, Copy, Debug, PartialEq, Eq, Structural)]
pub enum UndoOutcome {
    /// The most recent amount was removed and at least one amount remains.
    Undone,
    /// The only amount was removed, so the name itself was deleted.
    UndoneAndEmptied,
    /// The name was not present; the store is unchanged.
    NotFound,
}

/// The store: bill name -> history of amounts. Its mathematical view is
/// a `Map<Seq<char>, Seq<u32>>` (see [`entries_map`]); iteration order
/// over names carries no meaning.
pub struct Bills {
    entries: Vec<BillEntry>,
}

/// Well-formedness of the underlying entry sequence: no two entries
/// share a name, and no entry has an empty history.
pub open spec fn entries_wf(s: Seq<BillEntry>) -> bool {
    &&& forall|i: int, j: int|
        0 <= i < j < s.len() ==> s[i].name@ != s[j].name@
    &&& forall|i: int| 0 <= i < s.len() ==> s[i].amounts@.len() > 0
}

/// The mapping that an entry sequence denotes: each entry's name maps to
/// its history of amounts.
pub open spec fn entries_map(s: Seq<BillEntry>) -> Map<Seq<char>, Seq<u32>>
    decreases s.len(),
{
    if s.len() == 0 {
        Map::empty()
    } else {
        entries_map(s.drop_last()).insert(s.last().name@, s.last().amounts@)
    }
}

/// A name's history in a map, the empty sequence when the name is absent.
pub open spec fn history_of(m: Map<Seq<char>, Seq<u32>>, name: Seq<char>) -> Seq<u32> {
    if m.contains_key(name) {
        m[name]
    } else {
        Seq::empty()
    }
}

/// The mapping after an add: the amount is appended to the name's
/// history, a fresh one-element history when the name was absent.
pub open spec fn spec_add(m: Map<Seq<char>, Seq<u32>>, name: Seq<char>, amount: u32) -> Map<
    Seq<char>,
    Seq<u32>,
> {
    m.insert(name, history_of(m, name).push(amount))
}

/// The mapping after a remove: the name and its whole history are gone;
/// nothing changes when the name was absent.
pub open spec fn spec_remove(m: Map<Seq<char>, Seq<u32>>, name: Seq<char>) -> Map<
    Seq<char>,
    Seq<u32>,
> {
    if m.contains_key(name) {
        m.remove(name)
    } else {
        m
    }
}

/// What a remove reports.
pub open spec fn spec_remove_outcome(m: Map<Seq<char>, Seq<u32>>, name: Seq<char>)
    -> RemoveOutcome {
    if m.contains_key(name) {
        RemoveOutcome::Removed
    } else {
        RemoveOutcome::NotFound
    }
}

/// The mapping after an undo: the most recent amount of the name's
/// history is dropped, and the name itself disappears when that history
/// held a single amount; nothing changes when the name was absent.
pub open spec fn spec_undo(m: Map<Seq<char>, Seq<u32>>, name: Seq<char>) -> Map<
    Seq<char>,
    Seq<u32>,
> {
    if !m.contains_key(name) {
        m
    } else if m[name].len() <= 1 {
        m.remove(name)
    } else {
        m.insert(name, m[name].drop_last())
    }
}

/// What an undo reports.
pub open spec fn spec_undo_outcome(m: Map<Seq<char>, Seq<u32>>, name: Seq<char>) -> UndoOutcome {
    if !m.contains_key(name) {
        UndoOutcome::NotFound
    } else if m[name].len() <= 1 {
        UndoOutcome::UndoneAndEmptied
    } else {
        UndoOutcome::Undone
    }
}

/// The mapping after a whole sequence of adds under one name, oldest
/// amount first.
pub open spec fn spec_add_all(
    m: Map<Seq<char>, Seq<u32>>,
    name: Seq<char>,
    amounts: Seq<u32>,
) -> Map<Seq<char>, Seq<u32>>
    decreases amounts.len(),
{
    if amounts.len() == 0 {
        m
    } else {
        spec_add(spec_add_all(m, name, amounts.drop_last()), name, amounts.last())
    }
}

/// Law: adding a1, ..., aN under one name appends exactly [a1, ..., aN],
/// in that order, to whatever history the name already had; in
/// particular, under a fresh name the history afterwards is exactly
/// [a1, ..., aN].
pub proof fn lemma_add_all_records_history(
    m: Map<Seq<char>, Seq<u32>>,
    name: Seq<char>,
    amounts: Seq<u32>,
)
    ensures
        amounts.len() > 0 ==> spec_add_all(m, name, amounts).contains_key(name),
        history_of(spec_add_all(m, name, amounts), name) == history_of(m, name) + amounts,
        !m.contains_key(name) && amounts.len() > 0 ==> spec_add_all(m, name, amounts)[name]
            == amounts,
    decreases amounts.len(),
{
    if amounts.len() == 0 {
        assert(history_of(m, name) + amounts =~= history_of(m, name));
    } else {
        let t = amounts.drop_last();
        lemma_add_all_records_history(m, name, t);
        assert((history_of(m, name) + t).push(amounts.last()) =~= history_of(m, name) + amounts);
        if !m.contains_key(name) {
            assert(history_of(m, name) + amounts =~= amounts);
        }
    }
}

/// Law: an add under one name never affects a different name, neither
/// its presence nor its history.
pub proof fn lemma_add_preserves_others(
    m: Map<Seq<char>, Seq<u32>>,
    name: Seq<char>,
    amount: u32,
    other: Seq<char>,
)
    requires
        other != name,
    ensures
        spec_add(m, name, amount).contains_key(other) == m.contains_key(other),
        history_of(spec_add(m, name, amount), other) == history_of(m, other),
{
}

/// Law: a whole sequence of adds under one name never affects a
/// different name.
pub proof fn lemma_add_all_preserves_others(
    m: Map<Seq<char>, Seq<u32>>,
    name: Seq<char>,
    amounts: Seq<u32>,
    other: Seq<char>,
)
    requires
        other != name,
    ensures
        spec_add_all(m, name, amounts).contains_key(other) == m.contains_key(other),
        history_of(spec_add_all(m, name, amounts), other) == history_of(m, other),
    decreases amounts.len(),
{
    if amounts.len() > 0 {
        lemma_add_all_preserves_others(m, name, amounts.drop_last(), other);
        lemma_add_preserves_others(
            spec_add_all(m, name, amounts.drop_last()),
            name,
            amounts.last(),
            other,
        );
    }
}

/// Law: undoing a name whose history holds a single amount removes that
/// amount and the name itself.
pub proof fn lemma_undo_single_removes_name(m: Map<Seq<char>, Seq<u32>>, name: Seq<char>)
    requires
        m.contains_key(name),
        m[name].len() == 1,
    ensures
        spec_undo_outcome(m, name) == UndoOutcome::UndoneAndEmptied,
        spec_undo(m, name) == m.remove(name),
        !spec_undo(m, name).contains_key(name),
{
}

/// Law: undoing an absent name reports `NotFound` and changes nothing.
pub proof fn lemma_undo_absent(m: Map<Seq<char>, Seq<u32>>, name: Seq<char>)
    requires
        !m.contains_key(name),
    ensures
        spec_undo_outcome(m, name) == UndoOutcome::NotFound,
        spec_undo(m, name) == m,
{
}

/// Law: after a present name is removed it is gone, and a further
/// remove or undo of it reports `NotFound` and changes nothing — in
/// particular, the second of two removes in a row neither reverses nor
/// repeats the first.
pub proof fn lemma_remove_then_not_found(m: Map<Seq<char>, Seq<u32>>, name: Seq<char>)
    requires
        m.contains_key(name),
    ensures
        !spec_remove(m, name).contains_key(name),
        spec_remove_outcome(spec_remove(m, name), name) == RemoveOutcome::NotFound,
        spec_remove(spec_remove(m, name), name) == spec_remove(m, name),
        spec_undo_outcome(spec_remove(m, name), name) == UndoOutcome::NotFound,
        spec_undo(spec_remove(m, name), name) == spec_remove(m, name),
{
}

/// A name that no entry carries is not a key of the denoted map.
pub proof fn lemma_entries_map_absent(s: Seq<BillEntry>, k: Seq<char>)
    requires
        forall|i: int| 0 <= i < s.len() ==> s[i].name@ != k,
    ensures
        !entries_map(s).contains_key(k),
    decreases s.len(),
{
    if s.len() > 0 {
        let t = s.drop_last();
        assert(forall|i: int| 0 <= i < t.len() ==> t[i].name@ != k);
        lemma_entries_map_absent(t, k);
        assert(s[s.len() - 1].name@ != k);
    }
}

/// With unique names, each entry's name maps to that entry's history.
pub proof fn lemma_entries_map_value(s: Seq<BillEntry>, i: int)
    requires
        forall|p: int, q: int| 0 <= p < q < s.len() ==> s[p].name@ != s[q].name@,
        0 <= i < s.len(),
    ensures
        entries_map(s).contains_key(s[i].name@),
        entries_map(s)[s[i].name@] == s[i].amounts@,
    decreases s.len(),
{
    if i < s.len() - 1 {
        let t = s.drop_last();
        assert(forall|p: int, q: int| 0 <= p < q < t.len() ==> t[p].name@ != t[q].name@);
        lemma_entries_map_value(t, i);
        assert(s[i].name@ != s.last().name@);
    }
}

/// Appending an entry inserts its name into the denoted map.
pub proof fn lemma_entries_map_push(s: Seq<BillEntry>, e: BillEntry)
    ensures
        entries_map(s.push(e)) == entries_map(s).insert(e.name@, e.amounts@),
{
    assert(s.push(e).drop_last() =~= s);
    assert(s.push(e).last() == e);
}

/// With unique names, deleting the entry at `i` removes its name from
/// the denoted map.
pub proof fn lemma_entries_map_remove(s: Seq<BillEntry>, i: int)
    requires
        forall|p: int, q: int| 0 <= p < q < s.len() ==> s[p].name@ != s[q].name@,
        0 <= i < s.len(),
    ensures
        entries_map(s.remove(i)) == entries_map(s).remove(s[i].name@),
    decreases s.len(),
{
    let k = s[i].name@;
    if i == s.len() - 1 {
        let t = s.drop_last();
        assert(s.remove(i) =~= t);
        assert(forall|j: int| 0 <= j < t.len() ==> t[j].name@ != k);
        lemma_entries_map_absent(t, k);
        assert(entries_map(s).remove(k) =~= entries_map(t));
    } else {
        let t = s.drop_last();
        assert(forall|p: int, q: int| 0 <= p < q < t.len() ==> t[p].name@ != t[q].name@);
        assert(s.remove(i).last() == s.last());
        assert(s.remove(i).drop_last() =~= t.remove(i));
        lemma_entries_map_remove(t, i);
        assert(t[i] == s[i]);
        assert(k != s.last().name@);
        assert(entries_map(t).remove(k).insert(s.last().name@, s.last().amounts@)
            =~= entries_map(t).insert(s.last().name@, s.last().amounts@).remove(k));
    }
}

impl View for Bills {
    type V = Map<Seq<char>, Seq<u32>>;

    closed spec fn view(&self) -> Map<Seq<char>, Seq<u32>> {
        entries_map(self.entries@)
    }
}

impl Bills {
    /// The store's invariant: keys unique, every history non-empty.
    pub closed spec fn wf(&self) -> bool {
        entries_wf(self.entries@)
    }

    /// Creates an empty store.
    pub fn new() -> (r: Bills)
        ensures
            r.wf(),
            r@ == Map::<Seq<char>, Seq<u32>>::empty(),
    {
        Bills { entries: Vec::new() }
    }

    /// Where `name`'s entry sits, if it has one.
    fn index_of(&self, name: &String) -> (r: Option<usize>)
        ensures
            match r {
                Some(i) => i < self.entries@.len() && self.entries@[i as int].name@ == name@,
                None => forall|j: int| 0 <= j < self.entries@.len()
                    ==> self.entries@[j].name@ != name@,
            },
    {
        let n = self.entries.len();
        let mut i: usize = 0;
        while i < n
            invariant
                n == self.entries@.len(),
                i <= n,
                forall|j: int| 0 <= j < i ==> self.entries@[j].name@ != name@,
            decreases n - i,
        {
            if self.entries[i].name == *name {
                return Some(i);
            }
            i = i + 1;
        }
        None
    }

    /// Records the bill's amount under the bill's name, creating the
    /// name with a fresh history when it was absent. The caller hands in
    /// a non-empty name; this operation cannot fail.
    pub fn add(&mut self, bill: Bill)
        requires
            old(self).wf(),
            bill.name@.len() > 0,
        ensures
            final(self).wf(),
            final(self)@ == spec_add(old(self)@, bill.name@, bill.amount),
    {
        let ghost s0 = self.entries@;
        let ghost k = bill.name@;
        match self.index_of(&bill.name) {
            Some(i) => {
                proof {
                    lemma_entries_map_value(s0, i as int);
                    lemma_entries_map_remove(s0, i as int);
                }
                let mut entry = self.entries.remove(i);
                entry.amounts.push(bill.amount);
                let ghost s1 = self.entries@;
                self.entries.push(entry);
                proof {
                    lemma_entries_map_push(s1, entry);
                    assert(entries_map(s0).remove(k).insert(k, history_of(entries_map(s0),
                        k).push(bill.amount)) =~= spec_add(entries_map(s0), k, bill.amount));
                    assert forall|p: int, q: int|
                        0 <= p < q < s1.push(entry).len()
                        implies (s1.push(entry))[p].name@ != (s1.push(entry))[q].name@ by {
                        if q < s1.len() {
                            assert(s1[p] == if p < i { s0[p] } else { s0[p + 1] });
                        } else {
                            assert((s1.push(entry))[q].name@ == k);
                        }
                    }
                }
            },
            None => {
                let mut amounts: Vec<u32> = Vec::new();
                amounts.push(bill.amount);
                let entry = BillEntry { name: bill.name, amounts };
                let ghost s1 = self.entries@;
                self.entries.push(entry);
                proof {
                    lemma_entries_map_absent(s0, k);
                    lemma_entries_map_push(s1, entry);
                    assert(entry.amounts@ =~= history_of(entries_map(s0), k).push(bill.amount));
                }
            },
        }
    }

    /// Deletes the name and its whole history; reports `NotFound`, and
    /// changes nothing, when the name is absent.
    pub fn remove(&mut self, name: &String) -> (r: RemoveOutcome)
        requires
            old(self).wf(),
        ensures
            final(self).wf(),
            final(self)@ == spec_remove(old(self)@, name@),
            r == spec_remove_outcome(old(self)@, name@),
    {
        let ghost s0 = self.entries@;
        match self.index_of(name) {
            Some(i) => {
                proof {
                    lemma_entries_map_value(s0, i as int);
                    lemma_entries_map_remove(s0, i as int);
                }
                self.entries.remove(i);
                RemoveOutcome::Removed
            },
            None => {
                proof {
                    lemma_entries_map_absent(s0, name@);
                }
                RemoveOutcome::NotFound
            },
        }
    }

    /// Drops the most recent amount recorded for the name, deleting the
    /// name itself when that was its only amount; reports `NotFound`,
    /// and changes nothing, when the name is absent.
    pub fn undo(&mut self, name: &String) -> (r: UndoOutcome)
        requires
            old(self).wf(),
        ensures
            final(self).wf(),
            final(self)@ == spec_undo(old(self)@, name@),
            r == spec_undo_outcome(old(self)@, name@),
    {
        let ghost s0 = self.entries@;
        let ghost k = name@;
        match self.index_of(name) {
            Some(i) => {
                proof {
                    lemma_entries_map_value(s0, i as int);
                    lemma_entries_map_remove(s0, i as int);
                }
                let mut entry = self.entries.remove(i);
                entry.amounts.pop();
                if entry.amounts.len() == 0 {
                    proof {
                        assert(s0[i as int].amounts@.len() == 1);
                    }
                    UndoOutcome::UndoneAndEmptied
                } else {
                    let ghost s1 = self.entries@;
                    self.entries.push(entry);
                    proof {
                        lemma_entries_map_push(s1, entry);
                        assert(entry.amounts@ =~= entries_map(s0)[k].drop_last());
                        assert(entries_map(s0).remove(k).insert(k, entries_map(s0)[k].drop_last())
                            =~= entries_map(s0).insert(k, entries_map(s0)[k].drop_last()));
                        assert forall|p: int, q: int|
                            0 <= p < q < s1.push(entry).len()
                            implies (s1.push(entry))[p].name@ != (s1.push(entry))[q].name@ by {
                            if q < s1.len() {
                                assert(s1[p] == if p < i { s0[p] } else { s0[p + 1] });
                            } else {
                                assert((s1.push(entry))[q].name@ == k);
                            }
                        }
                    }
                    UndoOutcome::Undone
                }
            },
            None => {
                proof {
                    lemma_entries_map_absent(s0, k);
                }
                UndoOutcome::NotFound
            },
        }
    }

    /// The stored entries, one per name, each with its history in the
    /// order the amounts were added; the order of the entries themselves
    /// carries no meaning.
    pub fn list(&self) -> (r: &Vec<BillEntry>)
        requires
            self.wf(),
        ensures
            entries_wf(r@),
            forall|i: int| 0 <= i < r@.len()
                ==> self@.contains_key((#[trigger] r@[i]).name@)
                    && self@[r@[i].name@] == r@[i].amounts@,
            forall|k: Seq<char>| #[trigger] self@.contains_key(k)
                ==> exists|i: int| 0 <= i < r@.len() && (#[trigger] r@[i].name@) == k,
    {
        proof {
            let s = self.entries@;
            assert forall|i: int| 0 <= i < s.len()
                implies self@.contains_key((#[trigger] s[i]).name@)
                    && self@[s[i].name@] == s[i].amounts@ by {
                lemma_entries_map_value(s, i);
            }
            assert forall|k: Seq<char>| #[trigger] self@.contains_key(k)
                implies exists|i: int| 0 <= i < s.len() && (#[trigger] s[i].name@) == k by {
                if forall|i: int| 0 <= i < s.len() ==> (#[trigger] s[i].name@) != k {
                    lemma_entries_map_absent(s, k);
                }
            }
        }
        &self.entries
    }
}

} // verus!
