//! Counters of the events that occur during a run.

use vstd::prelude::*;
use crate::text::str_eq;

verus! {

/// The names of the counters that every report holds, in the order in which
/// they are kept.
pub open spec fn known_counters() -> Seq<Seq<char>> {
    seq![
        "backup.file.count"@,
        "backup.skipped.unsupported_file_kind"@,
        "block.read.count"@,
        "block.read.corrupt"@,
        "block.read.misplaced"@,
        "block.write.already_present"@,
        "block.write.compressed_bytes"@,
        "block.write.count"@,
        "block.write.uncompressed_bytes"@,
        "index.write.compressed_bytes"@,
        "index.write.uncompressed_bytes"@,
        "index.write.hunks"@,
        "source.selected.count"@,
        "source.skipped.unsupported_file_kind"@,
        "source.visited.directories.count"@,
        "block.already_present"@,
        "block.write"@,
        "block.read"@,
        "file.empty"@,
        "file.medium"@,
        "file.large"@,
    ]
}

/// The place of `name` in `known_counters`: that of its first occurrence.
pub closed spec fn counter_index(name: Seq<char>) -> int {
    known_counters().index_of_first(name).unwrap()
}

/// True if `name` is the name of a counter that reports hold.
pub open spec fn is_known_counter(name: Seq<char>) -> bool {
    known_counters().contains(name)
}

/// The counter names as executable strings, in the order of `known_counters`.
fn counter_names() -> (names: Vec<&'static str>)
    ensures
        names@.len() == known_counters().len(),
        forall|i: int| 0 <= i < names@.len() ==> (#[trigger] names@[i])@ == known_counters()[i],
{
    let mut names: Vec<&'static str> = Vec::new();
    names.push("backup.file.count");
    names.push("backup.skipped.unsupported_file_kind");
    names.push("block.read.count");
    names.push("block.read.corrupt");
    names.push("block.read.misplaced");
    names.push("block.write.already_present");
    names.push("block.write.compressed_bytes");
    names.push("block.write.count");
    names.push("block.write.uncompressed_bytes");
    names.push("index.write.compressed_bytes");
    names.push("index.write.uncompressed_bytes");
    names.push("index.write.hunks");
    names.push("source.selected.count");
    names.push("source.skipped.unsupported_file_kind");
    names.push("source.visited.directories.count");
    names.push("block.already_present");
    names.push("block.write");
    names.push("block.read");
    names.push("file.empty");
    names.push("file.medium");
    names.push("file.large");
    names
}

/// A copy of `values` that holds `value` at index `at`.
fn with_value_at(values: &Vec<u64>, at: usize, value: u64) -> (updated: Vec<u64>)
    requires
        at < values@.len(),
    ensures
        updated@ == values@.update(at as int, value),
{
    let mut updated: Vec<u64> = Vec::new();
    let mut i: usize = 0;
    while i < values.len()
        invariant
            i <= values@.len(),
            at < values@.len(),
            updated@.len() == i,
            forall|j: int| 0 <= j < i ==> updated@[j] == values@.update(at as int, value)[j],
        decreases values.len() - i,
    {
        if i == at {
            updated.push(value);
        } else {
            updated.push(values[i]);
        }
        i += 1;
    }
    assert(updated@ =~= values@.update(at as int, value));
    updated
}

/// The total that a map of counters holds for `name`: zero where it holds none.
pub open spec fn count_in(counts: Map<Seq<char>, u64>, name: Seq<char>) -> u64 {
    if counts.contains_key(name) {
        counts[name]
    } else {
        0
    }
}

/// A report is told of the events that occur during a run, and counts them.
///
/// It holds one counter for each name in `known_counters`.
#[derive(Debug)]
pub struct Report {
    names: Vec<&'static str>,
    count: Vec<u64>,
}

impl View for Report {
    type V = Map<Seq<char>, u64>;

    /// The counters by name.
    closed spec fn view(&self) -> Map<Seq<char>, u64> {
        Map::new(
            |name: Seq<char>| is_known_counter(name),
            |name: Seq<char>| self.count@[counter_index(name)],
        )
    }
}

impl Clone for Report {
    /// A report with the same counts.
    fn clone(&self) -> (copy: Report)
        ensures
            copy@ == self@,
    {
        proof {
            use_type_invariant(self);
        }
        let names = counter_names();
        let count = with_value_at(&self.count, 0, self.count[0]);
        assert(count@ =~= self.count@);
        Report { names, count }
    }
}

impl Report {
    #[verifier::type_invariant]
    /// The names are the known ones in their order, with a count for each.
    spec fn well_formed(&self) -> bool {
        &&& self.names@.len() == known_counters().len()
        &&& self.count@.len() == known_counters().len()
        &&& forall|i: int|
            0 <= i < self.names@.len() ==> (#[trigger] self.names@[i])@ == known_counters()[i]
    }

    /// A report holds a counter for a name exactly if the name is a known one.
    pub proof fn lemma_domain(&self)
        ensures
            forall|name: Seq<char>| #[trigger] self@.contains_key(name) <==> is_known_counter(name),
    {
    }

    /// A report with every counter at zero.
    pub fn new() -> (report: Report)
        ensures
            report@ == Map::new(|name: Seq<char>| is_known_counter(name), |name: Seq<char>| 0u64),
    {
        let names = counter_names();
        let mut count: Vec<u64> = Vec::new();
        let mut i: usize = 0;
        while i < names.len()
            invariant
                i <= names.len(),
                count@.len() == i,
                forall|j: int| 0 <= j < i ==> count@[j] == 0,
            decreases names.len() - i,
        {
            count.push(0);
            i += 1;
        }
        let report = Report { names, count };
        assert forall|name: Seq<char>| is_known_counter(name) implies (#[trigger] report@[name])
            == 0u64 by {
            known_counters().index_of_first_ensures(name);
        }
        assert(report@ =~= Map::new(
            |name: Seq<char>| is_known_counter(name),
            |name: Seq<char>| 0u64,
        ));
        report
    }

    /// The place at which the counter called `name` is kept, if there is one.
    fn position(&self, name: &str) -> (r: Option<usize>)
        ensures
            match r {
                Some(i) => is_known_counter(name@) && i == counter_index(name@) && i
                    < self.count@.len(),
                None => !is_known_counter(name@),
            },
    {
        proof {
            use_type_invariant(self);
        }
        let mut i: usize = 0;
        while i < self.names.len()
            invariant
                i <= self.names@.len(),
                self.names@.len() == known_counters().len(),
                self.count@.len() == known_counters().len(),
                forall|k: int|
                    0 <= k < self.names@.len() ==> (#[trigger] self.names@[k])@
                        == known_counters()[k],
                forall|j: int| 0 <= j < i ==> known_counters()[j] != name@,
            decreases self.names.len() - i,
        {
            if str_eq(self.names[i], name) {
                proof {
                    assert(known_counters()[i as int] == name@);
                    known_counters().index_of_first_ensures(name@);
                }
                return Some(i);
            }
            i += 1;
        }
        None
    }

    /// Adds `delta` to the counter called `counter_name`.
    pub fn increment(self: &mut Report, counter_name: &'static str, delta: u64)
        requires
            is_known_counter(counter_name@),
            old(self)@[counter_name@] + delta <= u64::MAX,
        ensures
            final(self)@ == old(self)@.insert(
                counter_name@,
                (old(self)@[counter_name@] + delta) as u64,
            ),
    {
        self.add_to(counter_name, delta);
    }

    /// Adds `delta` to the counter called `name`, whatever the lifetime of the name.
    fn add_to(&mut self, name: &str, delta: u64)
        requires
            is_known_counter(name@),
            old(self)@[name@] + delta <= u64::MAX,
        ensures
            final(self)@ == old(self)@.insert(name@, (old(self)@[name@] + delta) as u64),
    {
        proof {
            use_type_invariant(&*self);
        }
        let found = self.position(name);
        match found {
            Some(i) => {
                let now = self.count[i] + delta;
                let updated = with_value_at(&self.count, i, now);
                self.count = updated;
                proof {
                    known_counters().index_of_first_ensures(name@);
                    assert forall|other: Seq<char>| is_known_counter(other) implies (#[trigger] self@[other]) == old(self)@.insert(name@, now)[other] by {
                        known_counters().index_of_first_ensures(other);
                    }
                    assert(self@ =~= old(self)@.insert(name@, now));
                }
            },
            None => {},
        }
    }

    /// The value of the counter called `counter_name`; zero for a name that
    /// reports do not hold.
    pub fn get_count(self: &Report, counter_name: &str) -> (n: u64)
        ensures
            n == count_in(self@, counter_name@),
    {
        proof {
            use_type_invariant(self);
        }
        match self.position(counter_name) {
            Some(i) => self.count[i],
            None => 0,
        }
    }

    /// Adds every counter of `from_report` to the counter of the same name.
    pub fn merge_from(self: &mut Report, from_report: &Report)
        requires
            forall|name: Seq<char>|
                is_known_counter(name) ==> old(self)@[name] + #[trigger] from_report@[name]
                    <= u64::MAX,
        ensures
            final(self)@ == Map::new(
                |name: Seq<char>| is_known_counter(name),
                |name: Seq<char>| (old(self)@[name] + from_report@[name]) as u64,
            ),
    {
        proof {
            use_type_invariant(&*self);
            use_type_invariant(from_report);
        }
        let mut merged: Vec<u64> = Vec::new();
        let mut i: usize = 0;
        while i < self.count.len()
            invariant
                i <= self.count@.len(),
                self.count@.len() == known_counters().len(),
                from_report.count@.len() == known_counters().len(),
                merged@.len() == i,
                forall|j: int|
                    0 <= j < i && self.count@[j] + from_report.count@[j] <= u64::MAX
                        ==> #[trigger] merged@[j] == self.count@[j] + from_report.count@[j],
            decreases self.count.len() - i,
        {
            let mine = self.count[i];
            let theirs = from_report.count[i];
            // A place that no name leads to is never read, and keeps its value.
            let sum = if theirs <= u64::MAX - mine {
                mine + theirs
            } else {
                mine
            };
            merged.push(sum);
            i += 1;
        }
        self.count = merged;
        proof {
            assert forall|name: Seq<char>| is_known_counter(name) implies (#[trigger] self@[name])
                == (old(self)@[name] + from_report@[name]) as u64 by {
                known_counters().index_of_first_ensures(name);
            }
            assert(self@ =~= Map::new(
                |name: Seq<char>| is_known_counter(name),
                |name: Seq<char>| (old(self)@[name] + from_report@[name]) as u64,
            ));
        }
    }
}

} // verus!
