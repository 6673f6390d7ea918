//! A variable that remembers who set it, when and why.

use crate::text::{decimal, push_decimal};
use std::collections::{HashSet, VecDeque};
use vstd::prelude::*;

verus! {

/// One value that a variable was given.
#[derive(Debug)]
pub struct HistoryEntry<T> {
    pub value: T,
    pub setter_id: usize,
    pub timestamp: u64,
    pub reason: Option<String>,
    /// Unique ID for each entry.
    pub entry_id: u64,
}

/// The text of an optional reason.
pub open spec fn reason_text(reason: Option<String>) -> Option<Seq<char>> {
    match reason {
        Some(text) => Some(text@),
        None => None,
    }
}

/// The text of an optional borrowed reason.
pub open spec fn given_text(reason: Option<&str>) -> Option<Seq<char>> {
    match reason {
        Some(text) => Some(text@),
        None => None,
    }
}

impl<T: Clone> HistoryEntry<T> {
    /// The entry records a clone of `value` with all that was said of it.
    pub open spec fn records(
        &self,
        value: T,
        setter_id: usize,
        timestamp: u64,
        reason: Option<Seq<char>>,
        entry_id: u64,
    ) -> bool {
        &&& cloned(value, self.value)
        &&& self.setter_id == setter_id
        &&& self.timestamp == timestamp
        &&& reason_text(self.reason) == reason
        &&& self.entry_id == entry_id
    }

    /// `copy` is a clone of this entry.
    pub open spec fn copied_by(&self, copy: &HistoryEntry<T>) -> bool {
        copy.records(
            self.value,
            self.setter_id,
            self.timestamp,
            reason_text(self.reason),
            self.entry_id,
        )
    }
}

impl<T: Clone> Clone for HistoryEntry<T> {
    fn clone(&self) -> (copy: Self)
        ensures
            self.copied_by(&copy),
    {
        let reason = match &self.reason {
            Some(text) => Some(text.clone()),
            None => None,
        };
        HistoryEntry {
            value: self.value.clone(),
            setter_id: self.setter_id,
            timestamp: self.timestamp,
            reason,
            entry_id: self.entry_id,
        }
    }
}

/// Seconds from the Unix epoch until now, as `SystemTime::elapsed` of std tells
/// them for the epoch; `None` where the clock stands before the epoch. What it
/// returns depends on the clock alone, so nothing is claimed of it.
#[verifier::external_body]
fn seconds_since_epoch() -> Option<u64> {
    match std::time::UNIX_EPOCH.elapsed() {
        Ok(past) => Some(past.as_secs()),
        Err(_) => None,
    }
}

/// The timestamp for what the clock shows. A clock before the epoch counts as
/// the epoch.
fn timestamp_of(elapsed: Option<u64>) -> (timestamp: u64)
    ensures
        timestamp == match elapsed {
            Some(seconds) => seconds,
            None => 0,
        },
{
    match elapsed {
        Some(seconds) => seconds,
        None => 0,
    }
}

/// The timestamp for an entry made now.
fn timestamp_now() -> u64 {
    timestamp_of(seconds_since_epoch())
}

/// What is left of `entries` when at most `max` may stay: the first one goes.
pub open spec fn trimmed<T>(entries: Seq<HistoryEntry<T>>, max: nat) -> Seq<HistoryEntry<T>> {
    if entries.len() > max {
        entries.drop_first()
    } else {
        entries
    }
}

/// Entry `i` is the last change by `setter_id`. The first entry is no change.
pub open spec fn is_last_change<T>(
    entries: Seq<HistoryEntry<T>>,
    setter_id: usize,
    i: int,
) -> bool {
    &&& 0 < i < entries.len()
    &&& entries[i].setter_id == setter_id
    &&& forall|j: int| #![trigger entries[j]] i < j < entries.len() ==> entries[j].setter_id
        != setter_id
}

/// Some entry behind the first one is by `setter_id`.
pub open spec fn has_change<T>(entries: Seq<HistoryEntry<T>>, setter_id: usize) -> bool {
    exists|i: int| #![trigger entries[i]] 0 < i < entries.len() && entries[i].setter_id == setter_id
}

/// The first `n` entries without the changes by `setter_id`.
pub open spec fn kept<T>(entries: Seq<HistoryEntry<T>>, setter_id: usize, n: nat) -> Seq<
    HistoryEntry<T>,
>
    decreases n,
{
    if n == 0 {
        Seq::empty()
    } else {
        let rest = kept(entries, setter_id, (n - 1) as nat);
        if n == 1 || entries[n - 1].setter_id != setter_id {
            rest.push(entries[n - 1])
        } else {
            rest
        }
    }
}

/// Those of the first `n` entries that are by `setter_id`.
pub open spec fn made_by<T>(entries: Seq<HistoryEntry<T>>, setter_id: usize, n: nat) -> Seq<
    HistoryEntry<T>,
>
    decreases n,
{
    if n == 0 {
        Seq::empty()
    } else {
        let rest = made_by(entries, setter_id, (n - 1) as nat);
        if entries[n - 1].setter_id == setter_id {
            rest.push(entries[n - 1])
        } else {
            rest
        }
    }
}

/// The first `n` entries were made up to `timestamp`, and the next one, if
/// there is one, later.
pub open spec fn made_until<T>(entries: Seq<HistoryEntry<T>>, timestamp: u64, n: int) -> bool {
    &&& 0 <= n <= entries.len()
    &&& forall|i: int| #![trigger entries[i]] 0 <= i < n ==> entries[i].timestamp <= timestamp
    &&& n < entries.len() ==> entries[n].timestamp > timestamp
}

/// The setters of the first `n` entries.
pub open spec fn setters<T>(entries: Seq<HistoryEntry<T>>, n: nat) -> Set<usize>
    decreases n,
{
    if n == 0 {
        Set::empty()
    } else {
        setters(entries, (n - 1) as nat).insert(entries[n - 1].setter_id)
    }
}

/// What borrowed entries hold.
pub open spec fn entries_of<T>(list: Seq<&HistoryEntry<T>>) -> Seq<HistoryEntry<T>> {
    Seq::new(list.len(), |i: int| *list[i])
}

/// A value with the history of how it came about.
#[derive(Debug)]
pub struct HistoryVariable<T> {
    current_value: T,
    history: VecDeque<HistoryEntry<T>>,
    max_history: usize,
    next_entry_id: u64,
}

/// Statistics about a variable.
#[derive(Debug)]
pub struct VariableStats {
    pub total_changes: usize,
    pub unique_setters: usize,
    pub first_change: Option<u64>,
    pub last_change: Option<u64>,
}

impl<T: Clone> HistoryVariable<T> {
    /// The current value.
    pub closed spec fn current(&self) -> T {
        self.current_value
    }

    /// The entries, oldest first.
    pub closed spec fn entries(&self) -> Seq<HistoryEntry<T>> {
        self.history@
    }

    /// How many entries are kept.
    pub closed spec fn limit(&self) -> usize {
        self.max_history
    }

    /// The id of the next entry.
    pub closed spec fn next_id(&self) -> u64 {
        self.next_entry_id
    }

    /// Ids ascend and were handed out, no more entries are kept than allowed
    /// (one stays in any case), and the current value is that of the last
    /// entry, or one is a clone of the other.
    pub open spec fn wf(&self) -> bool {
        let entries = self.entries();
        &&& self.next_id() > 0
        &&& entries.len() <= 1 || entries.len() <= self.limit()
        &&& forall|i: int, j: int|
            #![trigger entries[i], entries[j]]
            0 <= i < j < entries.len() ==> entries[i].entry_id < entries[j].entry_id
        &&& forall|i: int|
            #![trigger entries[i]]
            0 <= i < entries.len() ==> entries[i].entry_id < self.next_id()
        &&& entries.len() > 0 ==> cloned(entries.last().value, self.current()) || cloned(
            self.current(),
            entries.last().value,
        )
    }

    /// A variable that was just made.
    pub open spec fn started(
        &self,
        initial_value: T,
        setter_id: usize,
        max_history: usize,
        timestamp: u64,
    ) -> bool {
        &&& self.wf()
        &&& self.current() == initial_value
        &&& self.limit() == max_history
        &&& self.next_id() == 1
        &&& self.entries().len() == 1
        &&& self.entries()[0].records(
            initial_value,
            setter_id,
            timestamp,
            Some("Initial value"@),
            0,
        )
    }

    /// `after` is this variable with one more value.
    pub open spec fn was_set(
        &self,
        after: &Self,
        value: T,
        setter_id: usize,
        timestamp: u64,
        reason: Option<Seq<char>>,
    ) -> bool {
        &&& after.current() == value
        &&& after.limit() == self.limit()
        &&& after.next_id() == self.next_id() + 1
        &&& exists|entry: HistoryEntry<T>| #[trigger]
            entry.records(value, setter_id, timestamp, reason, self.next_id()) && after.entries()
                == trimmed(self.entries().push(entry), self.limit() as nat)
    }

    /// `after` has the history `entries`, and its current value is a clone of
    /// the last one there.
    pub open spec fn was_cut(&self, after: &Self, entries: Seq<HistoryEntry<T>>) -> bool {
        &&& after.entries() == entries
        &&& after.limit() == self.limit()
        &&& after.next_id() == self.next_id()
        &&& entries.len() > 0 ==> cloned(entries.last().value, after.current())
        &&& entries.len() == 0 ==> after.current() == self.current()
    }

    /// Create a new history variable with initial value and setter ID.
    pub fn new(initial_value: T, setter_id: usize, max_history: usize) -> (var: Self)
        ensures
            exists|timestamp: u64| #[trigger]
                var.started(initial_value, setter_id, max_history, timestamp),
    {
        let timestamp = timestamp_now();
        let var = Self::new_at(initial_value, setter_id, max_history, timestamp);
        assert(var.started(initial_value, setter_id, max_history, timestamp));
        var
    }

    /// Like [`new`](Self::new), at a given time.
    pub fn new_at(initial_value: T, setter_id: usize, max_history: usize, timestamp: u64) -> (var:
        Self)
        ensures
            var.started(initial_value, setter_id, max_history, timestamp),
    {
        let mut history: VecDeque<HistoryEntry<T>> = VecDeque::new();
        history.push_back(
            HistoryEntry {
                value: initial_value.clone(),
                setter_id,
                timestamp,
                reason: Some("Initial value".to_owned()),
                entry_id: 0,
            },
        );
        HistoryVariable { current_value: initial_value, history, max_history, next_entry_id: 1 }
    }

    /// Set a new value with setter ID and optional reason.
    pub fn set(&mut self, value: T, setter_id: usize, reason: Option<&str>)
        requires
            old(self).wf(),
            old(self).next_id() < u64::MAX,
        ensures
            final(self).wf(),
            exists|timestamp: u64| #[trigger]
                old(self).was_set(final(self), value, setter_id, timestamp, given_text(reason)),
    {
        let timestamp = timestamp_now();
        self.set_at(value, setter_id, reason, timestamp);
        assert(old(self).was_set(self, value, setter_id, timestamp, given_text(reason)));
    }

    /// Like [`set`](Self::set), at a given time.
    pub fn set_at(&mut self, value: T, setter_id: usize, reason: Option<&str>, timestamp: u64)
        requires
            old(self).wf(),
            old(self).next_id() < u64::MAX,
        ensures
            final(self).wf(),
            old(self).was_set(final(self), value, setter_id, timestamp, given_text(reason)),
    {
        let text = match reason {
            Some(text) => Some(text.to_owned()),
            None => None,
        };
        let entry = HistoryEntry {
            value: value.clone(),
            setter_id,
            timestamp,
            reason: text,
            entry_id: self.next_entry_id,
        };
        let ghost noted = entry;
        assert(noted.records(value, setter_id, timestamp, given_text(reason), self.next_id()));
        self.current_value = value;
        self.history.push_back(entry);
        self.next_entry_id = self.next_entry_id + 1;
        // Maintain max history size.
        if self.history.len() > self.max_history {
            self.history.pop_front();
        }
        assert(self.entries() =~= trimmed(old(self).entries().push(noted), self.limit() as nat));
    }

    /// Get current value.
    pub fn get(&self) -> (value: &T)
        ensures
            *value == self.current(),
    {
        &self.current_value
    }

    /// Set the current value to a clone of the last entry's, and give out a
    /// clone of it.
    fn restore(&mut self) -> (value: T)
        requires
            old(self).entries().len() > 0,
        ensures
            final(self).entries() == old(self).entries(),
            final(self).limit() == old(self).limit(),
            final(self).next_id() == old(self).next_id(),
            cloned(final(self).entries().last().value, final(self).current()),
            cloned(final(self).current(), value),
    {
        let last = self.history.len() - 1;
        self.current_value = self.history[last].value.clone();
        self.current_value.clone()
    }

    /// Remove the most recent change by a specific setter ID. The remaining
    /// entries keep their chronological order, and the initial value stays.
    pub fn remove_change_by_setter(&mut self, setter_id: usize) -> (result: Result<T, String>)
        requires
            old(self).wf(),
        ensures
            final(self).wf(),
            result is Ok <==> has_change(old(self).entries(), setter_id),
            match result {
                Ok(value) => {
                    &&& exists|i: int| #[trigger]
                        is_last_change(old(self).entries(), setter_id, i) && old(self).was_cut(
                            final(self),
                            old(self).entries().remove(i),
                        )
                    &&& cloned(final(self).current(), value)
                },
                Err(text) => {
                    &&& *final(self) == *old(self)
                    &&& text@ == if old(self).entries().len() <= 1 {
                        "Cannot remove: only initial value remains"@
                    } else {
                        "No changes found by setter ID: "@ + decimal(setter_id as nat)
                    }
                },
            },
    {
        let ghost entries = self.entries();
        if self.history.len() <= 1 {
            return Err("Cannot remove: only initial value remains".to_owned());
        }
        // Find the last change by this setter. Don't remove the initial value.
        let mut i: usize = self.history.len() - 1;
        while i > 0 && self.history[i].setter_id != setter_id
            invariant
                entries == self.entries(),
                i < entries.len(),
                forall|j: int|
                    #![trigger entries[j]]
                    i < j < entries.len() ==> entries[j].setter_id != setter_id,
            decreases i,
        {
            i = i - 1;
        }
        if i == 0 {
            let mut text: String = "No changes found by setter ID: ".to_owned();
            push_decimal(&mut text, setter_id as u64);
            return Err(text);
        }
        assert(is_last_change(entries, setter_id, i as int));
        assert(entries[i as int].setter_id == setter_id);
        self.history.remove(i);
        let ghost left = entries.remove(i as int);
        assert(self.entries() == left);
        let value = self.restore();
        proof {
            lemma_ids_after_removal(entries, i as int);
            assert(old(self).was_cut(self, entries.remove(i as int)));
        }
        Ok(value)
    }

    /// Remove a specific entry by entry ID.
    ///
    /// Where it was the only one, the history is left empty, the current value
    /// stays, and the call fails.
    pub fn remove_change_by_entry_id(&mut self, entry_id: u64) -> (result: Result<T, String>)
        requires
            old(self).wf(),
        ensures
            final(self).wf(),
            match result {
                Ok(value) => {
                    &&& entry_id != 0
                    &&& old(self).entries().len() > 1
                    &&& exists|i: int|
                        #![trigger old(self).entries()[i]]
                        0 <= i < old(self).entries().len() && old(self).entries()[i].entry_id
                            == entry_id && old(self).was_cut(
                            final(self),
                            old(self).entries().remove(i),
                        )
                    &&& cloned(final(self).current(), value)
                },
                Err(text) => if entry_id == 0 {
                    *final(self) == *old(self) && text@ == "Cannot remove initial value"@
                } else if old(self).entries().len() == 1 && old(self).entries()[0].entry_id
                    == entry_id {
                    old(self).was_cut(final(self), Seq::empty()) && text@ == "History corrupted"@
                } else {
                    &&& forall|i: int|
                        #![trigger old(self).entries()[i]]
                        0 <= i < old(self).entries().len() ==> old(self).entries()[i].entry_id
                            != entry_id
                    &&& *final(self) == *old(self)
                    &&& text@ == "No entry found with ID: "@ + decimal(entry_id as nat)
                },
            },
    {
        let ghost entries = self.entries();
        if entry_id == 0 {
            return Err("Cannot remove initial value".to_owned());
        }
        let mut i: usize = 0;
        while i < self.history.len() && self.history[i].entry_id != entry_id
            invariant
                entries == self.entries(),
                i <= entries.len(),
                forall|j: int| #![trigger entries[j]] 0 <= j < i ==> entries[j].entry_id != entry_id,
            decreases entries.len() - i,
        {
            i = i + 1;
        }
        if i == self.history.len() {
            let mut text: String = "No entry found with ID: ".to_owned();
            push_decimal(&mut text, entry_id);
            return Err(text);
        }
        assert(entries[i as int].entry_id == entry_id);
        self.history.remove(i);
        assert(self.entries() == entries.remove(i as int));
        proof {
            lemma_ids_after_removal(entries, i as int);
        }
        if self.history.len() == 0 {
            assert(self.entries() =~= Seq::empty());
            return Err("History corrupted".to_owned());
        }
        let value = self.restore();
        assert(old(self).was_cut(self, entries.remove(i as int)));
        Ok(value)
    }

    /// Remove all changes by a specific setter ID, and tell how many they were.
    /// The first entry stays.
    pub fn remove_all_changes_by_setter(&mut self, setter_id: usize) -> (result: Result<
        usize,
        String,
    >)
        requires
            old(self).wf(),
        ensures
            final(self).wf(),
            old(self).was_cut(
                final(self),
                kept(old(self).entries(), setter_id, old(self).entries().len()),
            ),
            old(self).entries().len() > 0 ==> final(self).entries() == seq![
                old(self).entries()[0],
            ] + old(self).entries().skip(1).filter(
                |entry: HistoryEntry<T>| entry.setter_id != setter_id,
            ),
            result is Ok <==> has_change(old(self).entries(), setter_id),
            match result {
                Ok(removed) => removed == old(self).entries().len() - final(self).entries().len(),
                Err(text) => {
                    &&& final(self).entries() == old(self).entries()
                    &&& text@ == "No changes found by setter ID: "@ + decimal(setter_id as nat)
                },
            },
    {
        let ghost entries = self.entries();
        let initial_len = self.history.len();
        // Keep only entries that are not from this setter, and the first one.
        let mut new_history: VecDeque<HistoryEntry<T>> = VecDeque::new();
        let mut i: usize = 0;
        assert(entries.skip(0) =~= entries);
        while i < initial_len
            invariant
                initial_len == entries.len(),
                i <= initial_len,
                self.entries() == entries.skip(i as int),
                self.current() == old(self).current(),
                self.limit() == old(self).limit(),
                self.next_id() == old(self).next_id(),
                new_history@ == kept(entries, setter_id, i as nat),
            decreases initial_len - i,
        {
            if let Some(entry) = self.history.pop_front() {
                assert(entry == entries[i as int]);
                if i == 0 || entry.setter_id != setter_id {
                    new_history.push_back(entry);
                }
            }
            i = i + 1;
            assert(self.entries() =~= entries.skip(i as int));
        }
        proof {
            lemma_kept(entries, setter_id, initial_len as nat);
            law_all_others_kept(entries, setter_id);
        }
        let removed_count: usize = initial_len - new_history.len();
        self.history = new_history;
        // Update current value to the last entry in history.
        if self.history.len() > 0 {
            let last = self.history.len() - 1;
            self.current_value = self.history[last].value.clone();
        }
        if removed_count > 0 {
            Ok(removed_count)
        } else {
            let mut text: String = "No changes found by setter ID: ".to_owned();
            push_decimal(&mut text, setter_id as u64);
            Err(text)
        }
    }

    /// Undo the last change, regardless of setter.
    pub fn undo_last(&mut self) -> (result: Result<T, String>)
        requires
            old(self).wf(),
        ensures
            final(self).wf(),
            result is Ok <==> old(self).entries().len() > 1,
            match result {
                Ok(value) => old(self).was_cut(final(self), old(self).entries().drop_last())
                    && cloned(final(self).current(), value),
                Err(text) => *final(self) == *old(self) && text@
                    == "Cannot undo: no previous values"@,
            },
    {
        if self.history.len() <= 1 {
            return Err("Cannot undo: no previous values".to_owned());
        }
        self.history.pop_back();
        assert(self.entries() =~= old(self).entries().drop_last());
        let value = self.restore();
        Ok(value)
    }

    /// Get the full history.
    pub fn get_history(&self) -> (history: &VecDeque<HistoryEntry<T>>)
        ensures
            history@ == self.entries(),
    {
        &self.history
    }

    /// Get changes by a specific setter ID.
    pub fn get_changes_by_setter(&self, setter_id: usize) -> (list: Vec<&HistoryEntry<T>>)
        ensures
            entries_of(list@) == made_by(self.entries(), setter_id, self.entries().len()),
            entries_of(list@) == self.entries().filter(
                |entry: HistoryEntry<T>| entry.setter_id == setter_id,
            ),
            forall|k: int|
                #![trigger list@[k]]
                0 <= k < list@.len() ==> *list@[k] == self.entries().filter(
                    |entry: HistoryEntry<T>| entry.setter_id == setter_id,
                )[k],
            list@.len() == self.entries().filter(
                |entry: HistoryEntry<T>| entry.setter_id == setter_id,
            ).len(),
    {
        let ghost entries = self.entries();
        proof {
            law_changes_by_setter(entries, setter_id);
        }
        let mut list: Vec<&HistoryEntry<T>> = Vec::new();
        let mut i: usize = 0;
        assert(entries_of(list@) =~= Seq::empty());
        while i < self.history.len()
            invariant
                entries == self.entries(),
                i <= entries.len(),
                entries_of(list@) == made_by(entries, setter_id, i as nat),
            decreases entries.len() - i,
        {
            if self.history[i].setter_id == setter_id {
                let ghost before = list@;
                list.push(&self.history[i]);
                assert(entries_of(list@) =~= entries_of(before).push(entries[i as int]));
            }
            i = i + 1;
        }
        list
    }

    /// Rollback to a specific timestamp: the entries from the first one on that
    /// was made later are dropped.
    pub fn rollback_to_timestamp(&mut self, timestamp: u64) -> (result: Result<T, String>)
        requires
            old(self).wf(),
        ensures
            final(self).wf(),
            result is Err <==> made_until(old(self).entries(), timestamp, 0),
            match result {
                Ok(value) => {
                    &&& exists|n: int| #[trigger]
                        made_until(old(self).entries(), timestamp, n) && old(self).was_cut(
                            final(self),
                            old(self).entries().take(n),
                        )
                    &&& cloned(final(self).current(), value)
                },
                Err(text) => *final(self) == *old(self) && text@
                    == "No entry found before or at timestamp"@,
            },
    {
        let ghost entries = self.entries();
        let mut n: usize = 0;
        while n < self.history.len() && self.history[n].timestamp <= timestamp
            invariant
                entries == self.entries(),
                n <= entries.len(),
                forall|i: int|
                    #![trigger entries[i]]
                    0 <= i < n ==> entries[i].timestamp <= timestamp,
            decreases entries.len() - n,
        {
            n = n + 1;
        }
        assert(made_until(entries, timestamp, n as int));
        if n == 0 {
            return Err("No entry found before or at timestamp".to_owned());
        }
        assert(entries[0].timestamp <= timestamp);
        self.history.truncate(n);
        assert(self.entries() =~= entries.take(n as int));
        let value = self.restore();
        assert(old(self).was_cut(self, entries.take(n as int)));
        Ok(value)
    }

    /// Get statistics about the variable.
    pub fn get_stats(&self) -> (stats: VariableStats)
        ensures
            stats.total_changes == if self.entries().len() > 0 {
                self.entries().len() - 1
            } else {
                0
            },
            stats.unique_setters == setters(self.entries(), self.entries().len()).len(),
            stats.unique_setters == Set::new(
                |id: usize|
                    exists|i: int|
                        0 <= i < self.entries().len() && (#[trigger] self.entries()[i]).setter_id
                            == id,
            ).len(),
            stats.first_change == if self.entries().len() > 0 {
                Some(self.entries().first().timestamp)
            } else {
                None
            },
            stats.last_change == if self.entries().len() > 0 {
                Some(self.entries().last().timestamp)
            } else {
                None
            },
    {
        let ghost entries = self.entries();
        proof {
            law_setters(entries);
        }
        let len = self.history.len();
        let mut unique: HashSet<usize> = HashSet::new();
        let mut i: usize = 0;
        while i < len
            invariant
                entries == self.entries(),
                len == entries.len(),
                i <= len,
                unique@ == setters(entries, i as nat),
            decreases len - i,
        {
            unique.insert(self.history[i].setter_id);
            i = i + 1;
        }
        VariableStats {
            total_changes: len.saturating_sub(1),
            unique_setters: unique.len(),
            first_change: if len > 0 {
                Some(self.history[0].timestamp)
            } else {
                None
            },
            last_change: if len > 0 {
                Some(self.history[len - 1].timestamp)
            } else {
                None
            },
        }
    }
}

/// Removing an entry keeps the ids ascending.
proof fn lemma_ids_after_removal<T>(entries: Seq<HistoryEntry<T>>, i: int)
    requires
        0 <= i < entries.len(),
        forall|a: int, b: int|
            #![trigger entries[a], entries[b]]
            0 <= a < b < entries.len() ==> entries[a].entry_id < entries[b].entry_id,
    ensures
        forall|a: int, b: int|
            #![trigger entries.remove(i)[a], entries.remove(i)[b]]
            0 <= a < b < entries.remove(i).len() ==> entries.remove(i)[a].entry_id
                < entries.remove(i)[b].entry_id,
        forall|a: int|
            #![trigger entries.remove(i)[a]]
            0 <= a < entries.remove(i).len() ==> entries.contains(entries.remove(i)[a]),
{
    let left = entries.remove(i);
    assert forall|a: int, b: int|
        #![trigger left[a], left[b]]
        0 <= a < b < left.len() implies left[a].entry_id < left[b].entry_id by {
        let x = if a < i {
            a
        } else {
            a + 1
        };
        let y = if b < i {
            b
        } else {
            b + 1
        };
        assert(left[a] == entries[x] && left[b] == entries[y]);
    }
    assert forall|a: int| #![trigger left[a]] 0 <= a < left.len() implies entries.contains(
        left[a],
    ) by {
        if a < i {
            assert(left[a] == entries[a]);
        } else {
            assert(left[a] == entries[a + 1]);
        }
    }
}

/// What is kept: entries in their order, with ascending ids, all of them exactly
/// where there is no change to remove.
proof fn lemma_kept<T>(entries: Seq<HistoryEntry<T>>, setter_id: usize, n: nat)
    requires
        n <= entries.len(),
        forall|a: int, b: int|
            #![trigger entries[a], entries[b]]
            0 <= a < b < entries.len() ==> entries[a].entry_id < entries[b].entry_id,
    ensures
        kept(entries, setter_id, n).len() <= n,
        n > 0 ==> kept(entries, setter_id, n).len() > 0,
        (kept(entries, setter_id, n).len() < n) == (exists|i: int|
            #![trigger entries[i]]
            0 < i < n && entries[i].setter_id == setter_id),
        kept(entries, setter_id, n).len() == n ==> kept(entries, setter_id, n) == entries.take(
            n as int,
        ),
        forall|a: int, b: int|
            #![trigger kept(entries, setter_id, n)[a], kept(entries, setter_id, n)[b]]
            0 <= a < b < kept(entries, setter_id, n).len() ==> kept(
                entries,
                setter_id,
                n,
            )[a].entry_id < kept(entries, setter_id, n)[b].entry_id,
        forall|a: int|
            #![trigger kept(entries, setter_id, n)[a]]
            0 <= a < kept(entries, setter_id, n).len() ==> exists|i: int|
                0 <= i < n && entries[i] == kept(entries, setter_id, n)[a],
    decreases n,
{
    if n > 0 {
        lemma_kept(entries, setter_id, (n - 1) as nat);
        let rest = kept(entries, setter_id, (n - 1) as nat);
        let all = kept(entries, setter_id, n);
        let last = entries[n - 1];
        if n == 1 || last.setter_id != setter_id {
            assert forall|a: int| #![trigger all[a]] 0 <= a < all.len() implies exists|i: int|
                0 <= i < n && entries[i] == all[a] by {
                if a < rest.len() {
                    assert(all[a] == rest[a]);
                } else {
                    assert(entries[n - 1] == all[a]);
                }
            }
            assert forall|a: int, b: int|
                #![trigger all[a], all[b]]
                0 <= a < b < all.len() implies all[a].entry_id < all[b].entry_id by {
                assert(all[a] == rest[a]);
                if b < rest.len() {
                    assert(all[b] == rest[b]);
                } else {
                    let i = choose|i: int| 0 <= i < n - 1 && entries[i] == rest[a];
                    assert(entries[i].entry_id < entries[n - 1].entry_id);
                }
            }
            if all.len() == n {
                assert(all =~= entries.take(n as int));
            }
        } else {
            assert(entries[n - 1].setter_id == setter_id);
        }
    } else {
        assert(kept(entries, setter_id, 0) =~= entries.take(0));
    }
}

/// There is a change by a setter exactly when there is a last one, and only one
/// entry is the last one.
pub proof fn law_last_change<T>(entries: Seq<HistoryEntry<T>>, setter_id: usize)
    ensures
        has_change(entries, setter_id) <==> exists|i: int| #[trigger]
            is_last_change(entries, setter_id, i),
        forall|i: int, j: int| #[trigger]
            is_last_change(entries, setter_id, i) && #[trigger] is_last_change(
                entries,
                setter_id,
                j,
            ) ==> i == j,
{
    if has_change(entries, setter_id) {
        let i = choose|i: int|
            #![trigger entries[i]]
            0 < i < entries.len() && entries[i].setter_id == setter_id;
        lemma_last_from(entries, setter_id, i);
    }
    assert forall|i: int| #[trigger] is_last_change(entries, setter_id, i) implies has_change(
        entries,
        setter_id,
    ) by {
        assert(entries[i].setter_id == setter_id);
    }
    assert forall|i: int, j: int| #[trigger]
        is_last_change(entries, setter_id, i) && #[trigger] is_last_change(
            entries,
            setter_id,
            j,
        ) implies i == j by {
        assert(entries[i].setter_id == entries[j].setter_id);
    }
}

proof fn lemma_last_from<T>(entries: Seq<HistoryEntry<T>>, setter_id: usize, i: int)
    requires
        0 < i < entries.len(),
        entries[i].setter_id == setter_id,
    ensures
        exists|k: int| #[trigger] is_last_change(entries, setter_id, k),
    decreases entries.len() - i,
{
    if !is_last_change(entries, setter_id, i) {
        let j = choose|j: int|
            #![trigger entries[j]]
            i < j < entries.len() && entries[j].setter_id == setter_id;
        lemma_last_from(entries, setter_id, j);
    }
}

/// Undoing what was just set gives back the history from before, as long as
/// setting it dropped no entry.
pub proof fn law_set_then_undo<T: Clone>(
    before: &HistoryVariable<T>,
    between: &HistoryVariable<T>,
    after: &HistoryVariable<T>,
    value: T,
    setter_id: usize,
    timestamp: u64,
    reason: Option<Seq<char>>,
)
    requires
        before.wf(),
        before.entries().len() < before.limit(),
        before.was_set(between, value, setter_id, timestamp, reason),
        between.was_cut(after, between.entries().drop_last()),
    ensures
        after.entries() == before.entries(),
        after.limit() == before.limit(),
{
    assert(between.entries().drop_last() =~= before.entries());
}

/// Removing the most recent change of a setter right after that setter set a
/// value gives back the history from before, as long as setting it dropped no
/// entry.
pub proof fn law_set_then_remove<T: Clone>(
    before: &HistoryVariable<T>,
    between: &HistoryVariable<T>,
    after: &HistoryVariable<T>,
    value: T,
    setter_id: usize,
    timestamp: u64,
    reason: Option<Seq<char>>,
    i: int,
)
    requires
        before.wf(),
        0 < before.entries().len() < before.limit(),
        before.was_set(between, value, setter_id, timestamp, reason),
        is_last_change(between.entries(), setter_id, i),
        between.was_cut(after, between.entries().remove(i)),
    ensures
        i == before.entries().len(),
        after.entries() == before.entries(),
{
    let entries = between.entries();
    assert(entries[entries.len() - 1].setter_id == setter_id);
    assert(entries.remove(i) =~= before.entries());
}

/// After all changes by a setter were removed, the first entry is still there,
/// none of the others is by that setter, and there is nothing left to remove.
pub proof fn law_all_removed<T>(entries: Seq<HistoryEntry<T>>, setter_id: usize)
    ensures
        entries.len() > 0 ==> kept(entries, setter_id, entries.len()).len() > 0 && kept(
            entries,
            setter_id,
            entries.len(),
        )[0] == entries[0],
        !has_change(kept(entries, setter_id, entries.len()), setter_id),
{
    lemma_others(entries, setter_id, entries.len());
}

proof fn lemma_others<T>(entries: Seq<HistoryEntry<T>>, setter_id: usize, n: nat)
    requires
        n <= entries.len(),
    ensures
        n > 0 ==> kept(entries, setter_id, n).len() > 0 && kept(entries, setter_id, n)[0]
            == entries[0],
        forall|i: int|
            #![trigger kept(entries, setter_id, n)[i]]
            0 < i < kept(entries, setter_id, n).len() ==> kept(entries, setter_id, n)[i].setter_id
                != setter_id,
    decreases n,
{
    if n > 0 {
        lemma_others(entries, setter_id, (n - 1) as nat);
        let rest = kept(entries, setter_id, (n - 1) as nat);
        let all = kept(entries, setter_id, n);
        assert forall|i: int| #![trigger all[i]] 0 < i < all.len() implies all[i].setter_id
            != setter_id by {
            if i < rest.len() {
                assert(all[i] == rest[i]);
            }
        }
    }
}

/// How far a rollback goes is determined, and rolling back to the same time
/// again changes nothing.
pub proof fn law_rollback<T>(entries: Seq<HistoryEntry<T>>, timestamp: u64, n: int, other: int)
    requires
        made_until(entries, timestamp, n),
        made_until(entries, timestamp, other),
    ensures
        n == other,
        forall|i: int| #![trigger entries[i]] 0 <= i < n ==> entries[i].timestamp <= timestamp,
        n < entries.len() ==> entries[n].timestamp > timestamp,
        made_until(entries.take(n), timestamp, n),
        entries.take(n).take(n) == entries.take(n),
{
    if n < other {
        assert(entries[n].timestamp <= timestamp);
    }
    if other < n {
        assert(entries[other].timestamp <= timestamp);
    }
    assert(entries.take(n).take(n) =~= entries.take(n));
}

/// The changes by a setter are those entries that name it, all of them and
/// no others, in the order in which they were made.
pub proof fn law_changes_by_setter<T>(entries: Seq<HistoryEntry<T>>, setter_id: usize)
    ensures
        made_by(entries, setter_id, entries.len()) == entries.filter(
            |entry: HistoryEntry<T>| entry.setter_id == setter_id,
        ),
        forall|i: int|
            #![trigger entries[i]]
            0 <= i < entries.len() ==> (entries[i].setter_id == setter_id <==> made_by(
                entries,
                setter_id,
                entries.len(),
            ).contains(entries[i])),
        forall|k: int|
            #![trigger made_by(entries, setter_id, entries.len())[k]]
            0 <= k < made_by(entries, setter_id, entries.len()).len() ==> entries.contains(
                made_by(entries, setter_id, entries.len())[k],
            ) && made_by(entries, setter_id, entries.len())[k].setter_id == setter_id,
{
    let own = |entry: HistoryEntry<T>| entry.setter_id == setter_id;
    lemma_made_by(entries, setter_id, entries.len());
    assert(entries.take(entries.len() as int) =~= entries);
    let list = entries.filter(own);
    assert forall|i: int|
        #![trigger entries[i]]
        0 <= i < entries.len() implies (entries[i].setter_id == setter_id <==> list.contains(
        entries[i],
    )) by {
        if list.contains(entries[i]) {
            let k = choose|k: int| 0 <= k < list.len() && list[k] == entries[i];
            entries.lemma_filter_pred(own, k);
        }
        if own(entries[i]) {
            entries.lemma_filter_contains(own, i);
        }
    }
    assert forall|k: int| #![trigger list[k]] 0 <= k < list.len() implies entries.contains(
        list[k],
    ) && list[k].setter_id == setter_id by {
        entries.lemma_filter_pred(own, k);
        assert(list.contains(list[k]));
        entries.lemma_filter_contains_rev(own, list[k]);
    }
}

proof fn lemma_made_by<T>(entries: Seq<HistoryEntry<T>>, setter_id: usize, n: nat)
    requires
        n <= entries.len(),
    ensures
        made_by(entries, setter_id, n) == entries.take(n as int).filter(
            |entry: HistoryEntry<T>| entry.setter_id == setter_id,
        ),
    decreases n,
{
    let own = |entry: HistoryEntry<T>| entry.setter_id == setter_id;
    reveal(Seq::filter);
    if n > 0 {
        let less = (n - 1) as nat;
        lemma_made_by(entries, setter_id, less);
        assert(entries.take(n as int).drop_last() =~= entries.take(less as int));
        assert(entries.take(n as int).last() == entries[n - 1]);
    }
}

/// Removing all changes by a setter keeps the first entry and, in their order,
/// exactly those behind it that are by others.
pub proof fn law_all_others_kept<T>(entries: Seq<HistoryEntry<T>>, setter_id: usize)
    ensures
        entries.len() > 0 ==> kept(entries, setter_id, entries.len()) == seq![entries[0]]
            + entries.skip(1).filter(|entry: HistoryEntry<T>| entry.setter_id != setter_id),
        entries.len() == 0 ==> kept(entries, setter_id, entries.len()).len() == 0,
{
    if entries.len() > 0 {
        lemma_kept_others(entries, setter_id, entries.len());
        assert(entries.subrange(1, entries.len() as int) =~= entries.skip(1));
    }
}

proof fn lemma_kept_others<T>(entries: Seq<HistoryEntry<T>>, setter_id: usize, n: nat)
    requires
        0 < n <= entries.len(),
    ensures
        kept(entries, setter_id, n) == seq![entries[0]] + entries.subrange(1, n as int).filter(
            |entry: HistoryEntry<T>| entry.setter_id != setter_id,
        ),
    decreases n,
{
    let other = |entry: HistoryEntry<T>| entry.setter_id != setter_id;
    reveal(Seq::filter);
    let part = entries.subrange(1, n as int);
    if n == 1 {
        assert(part.len() == 0);
        assert(kept(entries, setter_id, 0) =~= Seq::empty());
        assert(kept(entries, setter_id, n) =~= seq![entries[0]] + part.filter(other));
    } else {
        let less = (n - 1) as nat;
        lemma_kept_others(entries, setter_id, less);
        assert(part.drop_last() =~= entries.subrange(1, less as int));
        assert(part.last() == entries[n - 1]);
        assert(kept(entries, setter_id, n) =~= seq![entries[0]] + part.filter(other));
    }
}

/// The setters that are counted are those that some entry names.
pub proof fn law_setters<T>(entries: Seq<HistoryEntry<T>>)
    ensures
        setters(entries, entries.len()) == Set::new(
            |id: usize|
                exists|i: int| 0 <= i < entries.len() && (#[trigger] entries[i]).setter_id == id,
        ),
{
    lemma_setters(entries, entries.len());
    assert(setters(entries, entries.len()) =~= Set::new(
        |id: usize|
            exists|i: int| 0 <= i < entries.len() && (#[trigger] entries[i]).setter_id == id,
    ));
}

proof fn lemma_setters<T>(entries: Seq<HistoryEntry<T>>, n: nat)
    requires
        n <= entries.len(),
    ensures
        forall|id: usize| #[trigger]
            setters(entries, n).contains(id) <==> exists|i: int|
                0 <= i < n && (#[trigger] entries[i]).setter_id == id,
    decreases n,
{
    if n > 0 {
        lemma_setters(entries, (n - 1) as nat);
        assert forall|id: usize| #[trigger]
            setters(entries, n).contains(id) <==> exists|i: int|
                0 <= i < n && (#[trigger] entries[i]).setter_id == id by {
            if entries[n - 1].setter_id != id && setters(entries, n).contains(id) {
                assert(setters(entries, (n - 1) as nat).contains(id));
            }
            if exists|i: int| 0 <= i < n && (#[trigger] entries[i]).setter_id == id {
                let i = choose|i: int| 0 <= i < n && (#[trigger] entries[i]).setter_id == id;
                if i < n - 1 {
                    assert(setters(entries, (n - 1) as nat).contains(id));
                }
            }
        }
    }
}

/// Setting a value puts one entry behind the others, which says by whom, when
/// and why. The others stay as they are and in their order; where there are
/// more than may be kept, only the oldest one goes. The value is the current
/// one, and no id is given twice.
pub proof fn law_set_adds_an_entry<T: Clone>(
    before: &HistoryVariable<T>,
    after: &HistoryVariable<T>,
    value: T,
    setter_id: usize,
    timestamp: u64,
    reason: Option<Seq<char>>,
)
    requires
        before.wf(),
        before.entries().len() > 0 || before.limit() > 0,
        before.was_set(after, value, setter_id, timestamp, reason),
    ensures
        after.current() == value,
        after.limit() == before.limit(),
        after.entries().len() == if before.entries().len() < before.limit() {
            before.entries().len() + 1
        } else {
            before.entries().len()
        },
        after.entries().drop_last() == if before.entries().len() < before.limit() {
            before.entries()
        } else {
            before.entries().skip(1)
        },
        cloned(value, after.entries().last().value),
        after.entries().last().setter_id == setter_id,
        after.entries().last().timestamp == timestamp,
        after.entries().last().entry_id == before.next_id(),
        after.next_id() > before.next_id(),
        reason is None <==> after.entries().last().reason is None,
        reason is Some ==> after.entries().last().reason->0@ == reason->0,
        forall|i: int|
            #![trigger before.entries()[i]]
            0 <= i < before.entries().len() ==> before.entries()[i].entry_id
                != after.entries().last().entry_id,
{
    let entry = choose|entry: HistoryEntry<T>| #[trigger]
        entry.records(value, setter_id, timestamp, reason, before.next_id()) && after.entries()
            == trimmed(before.entries().push(entry), before.limit() as nat);
    let all = before.entries().push(entry);
    if before.entries().len() < before.limit() {
        assert(after.entries().drop_last() =~= before.entries());
    } else {
        assert(after.entries() =~= all.skip(1));
        assert(after.entries().drop_last() =~= before.entries().skip(1));
    }
    assert(after.entries().last() == entry);
}

/// A new variable has the initial value and one entry, which says so.
pub proof fn law_starts_with_one_entry<T: Clone>(
    var: &HistoryVariable<T>,
    value: T,
    setter_id: usize,
    max_history: usize,
    timestamp: u64,
)
    requires
        var.started(value, setter_id, max_history, timestamp),
    ensures
        var.current() == value,
        var.limit() == max_history,
        var.entries().len() == 1,
        cloned(value, var.entries()[0].value),
        var.entries()[0].setter_id == setter_id,
        var.entries()[0].timestamp == timestamp,
        var.entries()[0].entry_id == 0,
        var.entries()[0].reason is Some,
        var.entries()[0].reason->0@ == "Initial value"@,
{
}

/// Taking entries away changes nothing but the history and the current value,
/// which becomes that of the last entry that is left.
pub proof fn law_cut_restores_the_last_value<T: Clone>(
    before: &HistoryVariable<T>,
    after: &HistoryVariable<T>,
    entries: Seq<HistoryEntry<T>>,
)
    requires
        before.was_cut(after, entries),
    ensures
        after.entries() == entries,
        after.limit() == before.limit(),
        after.next_id() == before.next_id(),
        entries.len() > 0 ==> cloned(entries[entries.len() - 1].value, after.current()),
        entries.len() == 0 ==> after.current() == before.current(),
{
}

/// Which change is removed: of all entries by the setter, the first one aside,
/// the one with the largest id; all others stay, in their order.
pub proof fn law_latest_change_removed<T: Clone>(
    var: &HistoryVariable<T>,
    setter_id: usize,
    i: int,
    j: int,
)
    requires
        var.wf(),
        is_last_change(var.entries(), setter_id, i),
        0 < j < var.entries().len(),
        var.entries()[j].setter_id == setter_id,
    ensures
        var.entries()[i].setter_id == setter_id,
        var.entries()[j].entry_id <= var.entries()[i].entry_id,
        var.entries().remove(i) == var.entries().take(i) + var.entries().skip(i + 1),
{
    let entries = var.entries();
    if j > i {
        assert(entries[j].setter_id != setter_id);
    } else if j < i {
        assert(entries[j].entry_id < entries[i].entry_id);
    }
    assert(entries.remove(i) =~= entries.take(i) + entries.skip(i + 1));
}

} // verus!
