//! The running totals of a scan, and how two of them combine.
//!
//! `Stats` is the mathematical value: a set of file names, three counters and
//! a map from call-site text to its number of occurrences. `Result` is the
//! executable accumulator whose view is a `Stats`. It keeps its names and its
//! call sites in vectors in which no text occurs twice.
use vstd::prelude::*;
use crate::report::{entries_view, report_text, write_report};
use crate::text::same_text;

verus! {

/// What an accumulator holds.
#[verifier::ext_equal]
pub struct Stats {
    /// The names of the files seen.
    pub files: Set<Seq<char>>,
    /// How many regions were seen.
    pub regions: nat,
    /// How many lines were added.
    pub lines_added: nat,
    /// How many lines were removed.
    pub lines_removed: nat,
    /// How many times each call site was seen.
    pub calls: Map<Seq<char>, nat>,
}

/// The number of times `key` was seen according to `calls`: zero for a key
/// that is not held.
pub open spec fn count_in(calls: Map<Seq<char>, nat>, key: Seq<char>) -> nat {
    if calls.dom().contains(key) {
        calls[key]
    } else {
        0
    }
}

/// The sum of two tallies: every call site held by either, with the sum of
/// its counts.
pub open spec fn merge_calls(a: Map<Seq<char>, nat>, b: Map<Seq<char>, nat>) -> Map<Seq<char>, nat> {
    Map::new(
        |key: Seq<char>| a.dom().contains(key) || b.dom().contains(key),
        |key: Seq<char>| count_in(a, key) + count_in(b, key),
    )
}

impl Stats {
    /// Nothing seen yet.
    pub open spec fn empty() -> Stats {
        Stats { files: Set::empty(), regions: 0, lines_added: 0, lines_removed: 0, calls: Map::empty() }
    }

    /// The number of times `key` was seen: zero for a key that is not held.
    pub open spec fn count(self, key: Seq<char>) -> nat {
        count_in(self.calls, key)
    }

    /// `self` with the file `name` seen.
    pub open spec fn with_file(self, name: Seq<char>) -> Stats {
        Stats { files: self.files.insert(name), ..self }
    }

    /// `self` with the call site `key` seen once more.
    pub open spec fn with_call(self, key: Seq<char>) -> Stats {
        Stats { calls: self.calls.insert(key, self.count(key) + 1), ..self }
    }

    /// `self` with one more region.
    pub open spec fn with_region(self) -> Stats {
        Stats { regions: self.regions + 1, ..self }
    }

    /// `self` with one more added line.
    pub open spec fn with_added_line(self) -> Stats {
        Stats { lines_added: self.lines_added + 1, ..self }
    }

    /// `self` with one more removed line.
    pub open spec fn with_removed_line(self) -> Stats {
        Stats { lines_removed: self.lines_removed + 1, ..self }
    }

    /// The sum of two accumulators: the union of the file sets, the sums of
    /// the counters, and for every call site held by either the sum of its
    /// counts.
    pub open spec fn merge(self, other: Stats) -> Stats {
        Stats {
            files: self.files.union(other.files),
            regions: self.regions + other.regions,
            lines_added: self.lines_added + other.lines_added,
            lines_removed: self.lines_removed + other.lines_removed,
            calls: merge_calls(self.calls, other.calls),
        }
    }

    /// Whether `self` holds at least what `earlier` holds: every file of it,
    /// and no counter and no call count below its.
    pub open spec fn at_least(self, earlier: Stats) -> bool {
        &&& earlier.files.subset_of(self.files)
        &&& earlier.regions <= self.regions
        &&& earlier.lines_added <= self.lines_added
        &&& earlier.lines_removed <= self.lines_removed
        &&& forall|key: Seq<char>| earlier.count(key) <= #[trigger] self.count(key)
    }

    /// The sum of `self` and `other` where it can be taken in machine
    /// integers, and `self` where it cannot.
    pub open spec fn merge_if_fits(self, other: Stats) -> Stats {
        if self.fits_with(other) {
            self.merge(other)
        } else {
            self
        }
    }

    /// Whether every counter and every call count is a machine integer.
    pub open spec fn is_bounded(self) -> bool {
        &&& self.regions <= usize::MAX
        &&& self.lines_added <= usize::MAX
        &&& self.lines_removed <= usize::MAX
        &&& forall|key: Seq<char>| #[trigger] self.count(key) <= usize::MAX
    }

    /// Whether `self` and `other` can be summed in machine integers.
    pub open spec fn fits_with(self, other: Stats) -> bool {
        &&& self.regions + other.regions <= usize::MAX
        &&& self.lines_added + other.lines_added <= usize::MAX
        &&& self.lines_removed + other.lines_removed <= usize::MAX
        &&& forall|key: Seq<char>| (#[trigger] self.count(key)) + other.count(key) <= usize::MAX
    }
}

/// Merging does not depend on the order of the two accumulators.
pub proof fn lemma_merge_commutative(a: Stats, b: Stats)
    ensures
        a.merge(b) == b.merge(a),
{
    assert(a.merge(b).files =~= b.merge(a).files);
    assert(a.merge(b).calls =~= b.merge(a).calls);
}

/// Merging three accumulators gives the same whichever two are merged first.
pub proof fn lemma_merge_associative(a: Stats, b: Stats, c: Stats)
    ensures
        a.merge(b).merge(c) == a.merge(b.merge(c)),
{
    assert(a.merge(b).merge(c).files =~= a.merge(b.merge(c)).files);
    assert(a.merge(b).merge(c).calls =~= a.merge(b.merge(c)).calls);
}

/// Merging with the empty accumulator changes nothing.
pub proof fn lemma_merge_empty(a: Stats)
    ensures
        a.merge(Stats::empty()) == a,
        Stats::empty().merge(a) == a,
{
    assert(a.merge(Stats::empty()).files =~= a.files);
    assert(a.merge(Stats::empty()).calls =~= a.calls);
    lemma_merge_commutative(a, Stats::empty());
}

/// Nothing is lost in a merge: the merged accumulator holds at least what
/// either side holds.
pub proof fn lemma_merge_grows(a: Stats, b: Stats)
    ensures
        a.merge(b).at_least(a),
        a.merge(b).at_least(b),
{
}

/// What an accumulator holds is bounded: its counters and its call counts
/// are machine integers. So the empty accumulator can be added to any.
pub proof fn lemma_result_is_bounded(result: Result)
    ensures
        result@.is_bounded(),
        result@.fits_with(Stats::empty()),
        Stats::empty().fits_with(result@),
{
    assert forall|key: Seq<char>| #[trigger] result@.count(key) <= usize::MAX by {
        lemma_entries_map_bounded(result.functionCalls@, key);
    }
}

/// The set of the texts in `names`.
pub open spec fn names_set(names: Seq<String>) -> Set<Seq<char>>
    decreases names.len(),
{
    if names.len() == 0 {
        Set::empty()
    } else {
        names_set(names.drop_last()).insert(names.last()@)
    }
}

/// The map built by inserting the pairs of `entries` in order, so that of two
/// pairs with the same text the later one stays.
pub open spec fn entries_map(entries: Seq<(String, usize)>) -> Map<Seq<char>, nat>
    decreases entries.len(),
{
    if entries.len() == 0 {
        Map::empty()
    } else {
        entries_map(entries.drop_last()).insert(entries.last().0@, entries.last().1 as nat)
    }
}

/// No text occurs twice in `names`.
pub open spec fn distinct_names(names: Seq<String>) -> bool {
    forall|i: int, j: int| 0 <= i < j < names.len() ==> (#[trigger] names[i])@ != (#[trigger] names[j])@
}

/// No text is the key of two pairs of `entries`.
pub open spec fn distinct_keys(entries: Seq<(String, usize)>) -> bool {
    forall|i: int, j: int|
        0 <= i < j < entries.len() ==> (#[trigger] entries[i]).0@ != (#[trigger] entries[j]).0@
}

/// Contains an analysis of a set of diffs.
pub struct Result {
    // The names of the files seen, each once.
    files: Vec<String>,
    // How many regions we have (separated by @@).
    regions: usize,
    // How many lines were added in total.
    lineAdded: usize,
    // How many lines were deleted in total.
    lineDeleted: usize,
    // How many times each function seen in the code is called, each function once.
    functionCalls: Vec<(String, usize)>,
}

impl View for Result {
    type V = Stats;

    closed spec fn view(&self) -> Stats {
        Stats {
            files: names_set(self.files@),
            regions: self.regions as nat,
            lines_added: self.lineAdded as nat,
            lines_removed: self.lineDeleted as nat,
            calls: entries_map(self.functionCalls@),
        }
    }
}

impl Result {
    #[verifier::type_invariant]
    spec fn well_formed(&self) -> bool {
        &&& distinct_names(self.files@)
        &&& distinct_keys(self.functionCalls@)
    }

    /// The file names in the order in which the accumulator holds them.
    pub closed spec fn held_files(&self) -> Seq<Seq<char>> {
        self.files.deep_view()
    }

    /// The functions and their counts in the order in which the accumulator
    /// holds them.
    pub closed spec fn held_calls(&self) -> Seq<(Seq<char>, nat)> {
        entries_view(self.functionCalls@)
    }

    /// Creates an empty `Result`.
    pub fn empty() -> (result: Self)
        ensures
            result@ == Stats::empty(),
    {
        Result { files: Vec::new(), regions: 0, lineAdded: 0, lineDeleted: 0, functionCalls: Vec::new() }
    }

    /// Constructor for a `Result` that expects everything to be handed to it.
    ///
    /// A file name given twice is held once. Of two pairs for the same
    /// function the later one gives the count.
    pub fn new(
        files: Vec<String>,
        regions: usize,
        lineAdded: usize,
        lineDeleted: usize,
        functionCalls: Vec<(String, usize)>,
    ) -> (result: Self)
        ensures
            result@ == (Stats {
                files: names_set(files@),
                regions: regions as nat,
                lines_added: lineAdded as nat,
                lines_removed: lineDeleted as nat,
                calls: entries_map(functionCalls@),
            }),
    {
        let mut names: Vec<String> = Vec::new();
        let mut i: usize = 0;
        while i < files.len()
            invariant
                i <= files.len(),
                distinct_names(names@),
                names_set(names@) == names_set(files@.take(i as int)),
            decreases files.len() - i,
        {
            proof {
                assert(files@.take(i + 1).drop_last() =~= files@.take(i as int));
            }
            insert_name(&mut names, files[i].clone());
            i += 1;
        }
        let mut calls: Vec<(String, usize)> = Vec::new();
        let mut k: usize = 0;
        while k < functionCalls.len()
            invariant
                k <= functionCalls.len(),
                distinct_keys(calls@),
                entries_map(calls@) == entries_map(functionCalls@.take(k as int)),
            decreases functionCalls.len() - k,
        {
            proof {
                assert(functionCalls@.take(k + 1).drop_last() =~= functionCalls@.take(k as int));
            }
            put_entry(&mut calls, functionCalls[k].0.clone(), functionCalls[k].1);
            k += 1;
        }
        proof {
            assert(files@.take(files.len() as int) =~= files@);
            assert(functionCalls@.take(functionCalls.len() as int) =~= functionCalls@);
        }
        Result { files: names, regions, lineAdded, lineDeleted, functionCalls: calls }
    }

    /// Records the file `filename`. A name that is already held changes
    /// nothing.
    pub fn add_filename(&mut self, filename: String)
        ensures
            final(self)@ == old(self)@.with_file(filename@),
    {
        proof {
            use_type_invariant(&*self);
        }
        let mut files = Vec::new();
        core::mem::swap(&mut files, &mut self.files);
        insert_name(&mut files, filename);
        self.files = files;
    }

    /// Counts one more call of `function`; a function not yet held starts at
    /// zero.
    pub fn add_function_call(&mut self, function: String)
        requires
            old(self)@.count(function@) < usize::MAX,
        ensures
            final(self)@ == old(self)@.with_call(function@),
    {
        proof {
            use_type_invariant(&*self);
        }
        let mut calls = Vec::new();
        core::mem::swap(&mut calls, &mut self.functionCalls);
        let current = count_of_key(&calls, function.as_str());
        put_entry(&mut calls, function, current + 1);
        self.functionCalls = calls;
    }

    /// Counts one more region.
    pub fn add_region(&mut self)
        requires
            old(self)@.regions < usize::MAX,
        ensures
            final(self)@ == old(self)@.with_region(),
    {
        proof {
            use_type_invariant(&*self);
        }
        self.regions += 1
    }

    /// Counts one more added line.
    pub fn count_added_line(&mut self)
        requires
            old(self)@.lines_added < usize::MAX,
        ensures
            final(self)@ == old(self)@.with_added_line(),
    {
        proof {
            use_type_invariant(&*self);
        }
        self.lineAdded += 1
    }

    /// Counts one more removed line.
    pub fn count_removed_line(&mut self)
        requires
            old(self)@.lines_removed < usize::MAX,
        ensures
            final(self)@ == old(self)@.with_removed_line(),
    {
        proof {
            use_type_invariant(&*self);
        }
        self.lineDeleted += 1
    }

    /// Adds everything that `other` holds to `self`: the file names join,
    /// the counters add up, and each function's calls add up.
    pub fn add_assign(&mut self, other: Result)
        requires
            old(self)@.fits_with(other@),
        ensures
            final(self)@ == old(self)@.merge(other@),
    {
        proof {
            use_type_invariant(&*self);
            use_type_invariant(&other);
        }
        let ghost mine = self@;
        let ghost theirs = other@;
        let Result { files: their_files, regions, lineAdded, lineDeleted, functionCalls: their_calls } = other;
        let mut files = Vec::new();
        core::mem::swap(&mut files, &mut self.files);
        drain_names(&mut files, their_files);
        self.files = files;
        self.regions += regions;
        self.lineAdded += lineAdded;
        self.lineDeleted += lineDeleted;
        let mut calls = Vec::new();
        core::mem::swap(&mut calls, &mut self.functionCalls);
        proof {
            assert forall|key: Seq<char>|
                (#[trigger] count_in(entries_map(calls@), key)) + count_in(entries_map(their_calls@), key)
                    <= usize::MAX by {
                assert(mine.count(key) + theirs.count(key) <= usize::MAX);
            }
        }
        drain_entries(&mut calls, their_calls);
        self.functionCalls = calls;
    }

    /// Whether everything that `other` holds can be added to `self` without
    /// a counter or a call count leaving the machine integers.
    pub fn fits(&self, other: &Result) -> (fits: bool)
        ensures
            fits == self@.fits_with(other@),
    {
        proof {
            use_type_invariant(self);
            use_type_invariant(other);
        }
        if other.regions > usize::MAX - self.regions || other.lineAdded > usize::MAX - self.lineAdded
            || other.lineDeleted > usize::MAX - self.lineDeleted {
            return false;
        }
        let mut i: usize = 0;
        while i < other.functionCalls.len()
            invariant
                i <= other.functionCalls.len(),
                distinct_keys(self.functionCalls@),
                distinct_keys(other.functionCalls@),
                forall|j: int|
                    0 <= j < i ==> count_in(entries_map(self.functionCalls@), (#[trigger] other.functionCalls[j]).0@)
                        + other.functionCalls[j].1 <= usize::MAX,
            decreases other.functionCalls.len() - i,
        {
            let held = count_of_key(&self.functionCalls, other.functionCalls[i].0.as_str());
            if other.functionCalls[i].1 > usize::MAX - held {
                proof {
                    lemma_entries_map_value(other.functionCalls@, i as int);
                    let key = other.functionCalls[i as int].0@;
                    assert(self@.count(key) + other@.count(key) > usize::MAX);
                }
                return false;
            }
            i += 1;
        }
        proof {
            assert forall|key: Seq<char>| (#[trigger] self@.count(key)) + other@.count(key) <= usize::MAX by {
                lemma_entries_map_bounded(self.functionCalls@, key);
                lemma_entries_map_dom(other.functionCalls@, key);
                if other@.calls.dom().contains(key) {
                    let j = choose|j: int|
                        0 <= j < other.functionCalls@.len() && (#[trigger] other.functionCalls@[j]).0@ == key;
                    lemma_entries_map_value(other.functionCalls@, j);
                }
            }
        }
        true
    }

    /// Adds everything that `other` holds to `self` where that can be done in
    /// machine integers, and says whether it was done. Where it cannot,
    /// `self` stays as it is.
    pub fn try_add_assign(&mut self, other: Result) -> (added: bool)
        ensures
            added == old(self)@.fits_with(other@),
            final(self)@ == old(self)@.merge_if_fits(other@),
    {
        if self.fits(&other) {
            self.add_assign(other);
            true
        } else {
            false
        }
    }

    /// The number of regions counted.
    pub fn regions(&self) -> (count: usize)
        ensures
            count == self@.regions,
    {
        self.regions
    }

    /// The number of added lines counted.
    pub fn lines_added(&self) -> (count: usize)
        ensures
            count == self@.lines_added,
    {
        self.lineAdded
    }

    /// The number of removed lines counted.
    pub fn lines_removed(&self) -> (count: usize)
        ensures
            count == self@.lines_removed,
    {
        self.lineDeleted
    }

    /// Whether the file `name` was seen.
    pub fn has_file(&self, name: &str) -> (held: bool)
        ensures
            held == self@.files.contains(name@),
    {
        position_of_name(&self.files, name).is_some()
    }

    /// The number of distinct files seen.
    pub fn file_count(&self) -> (count: usize)
        ensures
            self@.files.finite(),
            count == self@.files.len(),
    {
        proof {
            use_type_invariant(self);
            lemma_names_set_len(self.files@);
        }
        self.files.len()
    }

    /// The names of the files seen, each once.
    pub fn file_names(&self) -> (names: Vec<String>)
        ensures
            names.deep_view() == self.held_files(),
            names.deep_view().no_duplicates(),
            names.deep_view().to_set() == self@.files,
    {
        let mut names: Vec<String> = Vec::new();
        let mut i: usize = 0;
        while i < self.files.len()
            invariant
                i <= self.files.len(),
                names.len() == i,
                forall|j: int| 0 <= j < i ==> (#[trigger] names[j])@ == self.files[j]@,
            decreases self.files.len() - i,
        {
            names.push(self.files[i].clone());
            i += 1;
        }
        proof {
            use_type_invariant(self);
            assert(names.deep_view() =~= self.files.deep_view());
            assert(names.deep_view() =~= self.files@.map_values(|name: String| name@));
            lemma_texts_of_names(self.files@);
        }
        names
    }

    /// The number of calls counted for `function`: zero for a function that
    /// was never seen.
    pub fn function_calls(&self, function: &str) -> (count: usize)
        ensures
            count == self@.count(function@),
    {
        proof {
            use_type_invariant(self);
        }
        count_of_key(&self.functionCalls, function)
    }

    /// The number of distinct functions held.
    pub fn function_count(&self) -> (count: usize)
        ensures
            self@.calls.dom().finite(),
            count == self@.calls.dom().len(),
    {
        proof {
            use_type_invariant(self);
            lemma_entries_map_len(self.functionCalls@);
        }
        self.functionCalls.len()
    }

    /// The functions seen, each once, with the number of their calls.
    pub fn function_list(&self) -> (calls: Vec<(String, usize)>)
        ensures
            entries_view(calls@) == self.held_calls(),
            distinct_keys(calls@),
            entries_map(calls@) == self@.calls,
    {
        let mut calls: Vec<(String, usize)> = Vec::new();
        let mut i: usize = 0;
        while i < self.functionCalls.len()
            invariant
                i <= self.functionCalls.len(),
                calls.len() == i,
                forall|j: int|
                    0 <= j < i ==> (#[trigger] calls[j]).0@ == self.functionCalls[j].0@ && calls[j].1
                        == self.functionCalls[j].1,
            decreases self.functionCalls.len() - i,
        {
            calls.push((self.functionCalls[i].0.clone(), self.functionCalls[i].1));
            i += 1;
        }
        proof {
            use_type_invariant(self);
            assert(entries_view(calls@) =~= entries_view(self.functionCalls@));
            lemma_entries_map_of_view(calls@, self.functionCalls@);
            assert forall|a: int, b: int| 0 <= a < b < calls@.len() implies (#[trigger] calls@[a]).0@ != (
            #[trigger] calls@[b]).0@ by {
                assert(self.functionCalls@[a].0@ != self.functionCalls@[b].0@);
            }
        }
        calls
    }

    /// Writes the analysis as text: the files, one on a line, then the
    /// regions, the added lines and the deleted lines, then the functions
    /// with their calls, one on a line.
    pub fn to_text(&self) -> (text: String)
        ensures
            text@ == report_text(
                self.held_files(),
                self@.regions,
                self@.lines_added,
                self@.lines_removed,
                self.held_calls(),
            ),
    {
        write_report(&self.files, self.regions, self.lineAdded, self.lineDeleted, &self.functionCalls)
    }
}

/// The index in `names` at which `name` stands, if it stands in it.
fn position_of_name(names: &Vec<String>, name: &str) -> (found: Option<usize>)
    ensures
        found is Some <==> names_set(names@).contains(name@),
        found matches Some(i) ==> i < names.len() && names[i as int]@ == name@,
{
    proof {
        lemma_names_set_contains(names@, name@);
    }
    let mut i: usize = 0;
    while i < names.len()
        invariant
            i <= names.len(),
            forall|j: int| 0 <= j < i ==> (#[trigger] names[j])@ != name@,
            names_set(names@).contains(name@) <==> exists|j: int|
                0 <= j < names.len() && (#[trigger] names[j])@ == name@,
        decreases names.len() - i,
    {
        if same_text(names[i].as_str(), name) {
            return Some(i);
        }
        i += 1;
    }
    None
}

/// The index in `entries` of the pair whose key is `key`, if there is one.
fn position_of_key(entries: &Vec<(String, usize)>, key: &str) -> (found: Option<usize>)
    ensures
        found is Some <==> entries_map(entries@).dom().contains(key@),
        found matches Some(i) ==> i < entries.len() && entries[i as int].0@ == key@,
{
    proof {
        lemma_entries_map_dom(entries@, key@);
    }
    let mut i: usize = 0;
    while i < entries.len()
        invariant
            i <= entries.len(),
            forall|j: int| 0 <= j < i ==> (#[trigger] entries[j]).0@ != key@,
            entries_map(entries@).dom().contains(key@) <==> exists|j: int|
                0 <= j < entries.len() && (#[trigger] entries[j]).0@ == key@,
        decreases entries.len() - i,
    {
        if same_text(entries[i].0.as_str(), key) {
            return Some(i);
        }
        i += 1;
    }
    None
}

/// Appends `name` to `names` unless its text is already there.
fn insert_name(names: &mut Vec<String>, name: String)
    requires
        distinct_names(old(names)@),
    ensures
        distinct_names(final(names)@),
        names_set(final(names)@) == names_set(old(names)@).insert(name@),
{
    match position_of_name(names, name.as_str()) {
        Some(_) => {
            assert(names_set(names@).insert(name@) =~= names_set(names@));
        },
        None => {
            proof {
                lemma_push_distinct_name(names@, name);
            }
            names.push(name);
        },
    }
}

/// Sets the count of `key` in `entries` to `count`, with a new pair where the
/// key is not held yet.
fn put_entry(entries: &mut Vec<(String, usize)>, key: String, count: usize)
    requires
        distinct_keys(old(entries)@),
    ensures
        distinct_keys(final(entries)@),
        entries_map(final(entries)@) == entries_map(old(entries)@).insert(key@, count as nat),
{
    match position_of_key(entries, key.as_str()) {
        Some(i) => {
            proof {
                lemma_entries_map_update(entries@, i as int, (key, count));
            }
            entries.set(i, (key, count));
        },
        None => {
            proof {
                lemma_push_distinct_key(entries@, (key, count));
            }
            entries.push((key, count));
        },
    }
}

/// The count that `entries` holds for `key`: zero where the key is not held.
fn count_of_key(entries: &Vec<(String, usize)>, key: &str) -> (count: usize)
    requires
        distinct_keys(entries@),
    ensures
        count == count_in(entries_map(entries@), key@),
{
    match position_of_key(entries, key) {
        Some(i) => {
            proof {
                lemma_entries_map_value(entries@, i as int);
            }
            entries[i].1
        },
        None => 0,
    }
}

/// Moves every name of `from` into `into`.
fn drain_names(into: &mut Vec<String>, from: Vec<String>)
    requires
        distinct_names(old(into)@),
    ensures
        distinct_names(final(into)@),
        names_set(final(into)@) == names_set(old(into)@).union(names_set(from@)),
{
    let mut from = from;
    let ghost target = names_set(into@).union(names_set(from@));
    while from.len() > 0
        invariant
            distinct_names(into@),
            names_set(into@).union(names_set(from@)) == target,
        decreases from.len(),
    {
        let ghost before = from@;
        let ghost held = names_set(into@);
        let name = from.pop().unwrap();
        proof {
            assert(from@ =~= before.drop_last());
        }
        insert_name(into, name);
        proof {
            assert(held.insert(name@).union(names_set(from@)) =~= held.union(names_set(before)));
        }
    }
    proof {
        assert(names_set(into@).union(names_set(from@)) =~= names_set(into@));
    }
}

/// Moves every pair of `from` into `into`, adding its count to the one that
/// `into` holds for the same key.
fn drain_entries(into: &mut Vec<(String, usize)>, from: Vec<(String, usize)>)
    requires
        distinct_keys(old(into)@),
        distinct_keys(from@),
        forall|key: Seq<char>|
            (#[trigger] count_in(entries_map(old(into)@), key)) + count_in(entries_map(from@), key)
                <= usize::MAX,
    ensures
        distinct_keys(final(into)@),
        entries_map(final(into)@) == merge_calls(entries_map(old(into)@), entries_map(from@)),
{
    let mut from = from;
    let ghost target = merge_calls(entries_map(into@), entries_map(from@));
    while from.len() > 0
        invariant
            distinct_keys(into@),
            distinct_keys(from@),
            merge_calls(entries_map(into@), entries_map(from@)) == target,
            forall|key: Seq<char>| target.dom().contains(key) ==> #[trigger] target[key] <= usize::MAX,
        decreases from.len(),
    {
        let ghost before = from@;
        let ghost held = entries_map(into@);
        proof {
            lemma_front_distinct_keys(before);
        }
        let (key, count) = from.pop().unwrap();
        proof {
            assert(from@ =~= before.drop_last());
            assert(target.dom().contains(key@));
            assert(target[key@] == count_in(held, key@) + count);
        }
        let current = count_of_key(into, key.as_str());
        put_entry(into, key, current + count);
        proof {
            assert(merge_calls(entries_map(into@), entries_map(from@)) =~= merge_calls(
                held,
                entries_map(before),
            ));
        }
    }
    proof {
        assert(merge_calls(entries_map(into@), entries_map(from@)) =~= entries_map(into@));
    }
}

/// A text is in `names_set(names)` exactly if it stands at some index.
pub proof fn lemma_names_set_contains(names: Seq<String>, name: Seq<char>)
    ensures
        names_set(names).contains(name) <==> exists|i: int| 0 <= i < names.len() && (#[trigger] names[i])@ == name,
    decreases names.len(),
{
    if names.len() > 0 {
        let front = names.drop_last();
        lemma_names_set_contains(front, name);
        if names_set(names).contains(name) {
            if names.last()@ == name {
                assert(names[names.len() - 1]@ == name);
            } else {
                let i = choose|i: int| 0 <= i < front.len() && (#[trigger] front[i])@ == name;
                assert(names[i]@ == name);
            }
        }
        if exists|i: int| 0 <= i < names.len() && (#[trigger] names[i])@ == name {
            let i = choose|i: int| 0 <= i < names.len() && (#[trigger] names[i])@ == name;
            if i < names.len() - 1 {
                assert(front[i]@ == name);
            }
        }
    }
}

/// A text is a key of `entries_map(entries)` exactly if it is the key of some
/// pair.
pub proof fn lemma_entries_map_dom(entries: Seq<(String, usize)>, key: Seq<char>)
    ensures
        entries_map(entries).dom().contains(key) <==> exists|i: int|
            0 <= i < entries.len() && (#[trigger] entries[i]).0@ == key,
    decreases entries.len(),
{
    if entries.len() > 0 {
        let front = entries.drop_last();
        lemma_entries_map_dom(front, key);
        if entries_map(entries).dom().contains(key) {
            if entries.last().0@ == key {
                assert(entries[entries.len() - 1].0@ == key);
            } else {
                let i = choose|i: int| 0 <= i < front.len() && (#[trigger] front[i]).0@ == key;
                assert(entries[i].0@ == key);
            }
        }
        if exists|i: int| 0 <= i < entries.len() && (#[trigger] entries[i]).0@ == key {
            let i = choose|i: int| 0 <= i < entries.len() && (#[trigger] entries[i]).0@ == key;
            if i < entries.len() - 1 {
                assert(front[i].0@ == key);
            }
        }
    }
}

/// Every count of `entries_map(entries)` is a machine integer.
proof fn lemma_entries_map_bounded(entries: Seq<(String, usize)>, key: Seq<char>)
    ensures
        count_in(entries_map(entries), key) <= usize::MAX,
    decreases entries.len(),
{
    if entries.len() > 0 {
        lemma_entries_map_bounded(entries.drop_last(), key);
    }
}

/// Where no text occurs twice, none does among all names but the last, and
/// the last is not among them.
proof fn lemma_front_distinct_names(names: Seq<String>)
    requires
        distinct_names(names),
        names.len() > 0,
    ensures
        distinct_names(names.drop_last()),
        !names_set(names.drop_last()).contains(names.last()@),
{
    let front = names.drop_last();
    assert forall|a: int, b: int| 0 <= a < b < front.len() implies (#[trigger] front[a])@ != (
    #[trigger] front[b])@ by {
        assert(names[a]@ != names[b]@);
    }
    lemma_names_set_contains(front, names.last()@);
    if exists|i: int| 0 <= i < front.len() && (#[trigger] front[i])@ == names.last()@ {
        let i = choose|i: int| 0 <= i < front.len() && (#[trigger] front[i])@ == names.last()@;
        assert(names[i]@ != names[names.len() - 1]@);
    }
}

/// Where no key occurs twice, none does among all pairs but the last, and the
/// key of the last is not among theirs.
proof fn lemma_front_distinct_keys(entries: Seq<(String, usize)>)
    requires
        distinct_keys(entries),
        entries.len() > 0,
    ensures
        distinct_keys(entries.drop_last()),
        !entries_map(entries.drop_last()).dom().contains(entries.last().0@),
{
    let front = entries.drop_last();
    assert forall|a: int, b: int| 0 <= a < b < front.len() implies (#[trigger] front[a]).0@ != (
    #[trigger] front[b]).0@ by {
        assert(entries[a].0@ != entries[b].0@);
    }
    lemma_entries_map_dom(front, entries.last().0@);
    if exists|i: int| 0 <= i < front.len() && (#[trigger] front[i]).0@ == entries.last().0@ {
        let i = choose|i: int| 0 <= i < front.len() && (#[trigger] front[i]).0@ == entries.last().0@;
        assert(entries[i].0@ != entries[entries.len() - 1].0@);
    }
}

/// A name that is new keeps the names apart.
proof fn lemma_push_distinct_name(names: Seq<String>, name: String)
    requires
        distinct_names(names),
        !names_set(names).contains(name@),
    ensures
        distinct_names(names.push(name)),
        names.push(name).drop_last() == names,
{
    lemma_names_set_contains(names, name@);
    let pushed = names.push(name);
    assert(pushed.drop_last() =~= names);
    assert forall|a: int, b: int| 0 <= a < b < pushed.len() implies (#[trigger] pushed[a])@ != (
    #[trigger] pushed[b])@ by {
        if b < names.len() {
            assert(names[a]@ != names[b]@);
        } else {
            assert(names[a]@ != name@);
        }
    }
}

/// A pair whose key is new keeps the keys apart.
proof fn lemma_push_distinct_key(entries: Seq<(String, usize)>, pair: (String, usize))
    requires
        distinct_keys(entries),
        !entries_map(entries).dom().contains(pair.0@),
    ensures
        distinct_keys(entries.push(pair)),
        entries.push(pair).drop_last() == entries,
{
    lemma_entries_map_dom(entries, pair.0@);
    let pushed = entries.push(pair);
    assert(pushed.drop_last() =~= entries);
    assert forall|a: int, b: int| 0 <= a < b < pushed.len() implies (#[trigger] pushed[a]).0@ != (
    #[trigger] pushed[b]).0@ by {
        if b < entries.len() {
            assert(entries[a].0@ != entries[b].0@);
        } else {
            assert(entries[a].0@ != pair.0@);
        }
    }
}

/// Where no text occurs twice, there are as many texts as names.
proof fn lemma_names_set_len(names: Seq<String>)
    requires
        distinct_names(names),
    ensures
        names_set(names).finite(),
        names_set(names).len() == names.len(),
    decreases names.len(),
{
    if names.len() > 0 {
        lemma_front_distinct_names(names);
        lemma_names_set_len(names.drop_last());
    }
}

/// Where no text occurs twice in `names`, their texts are a sequence without
/// duplicates that holds what `names_set(names)` holds.
proof fn lemma_texts_of_names(names: Seq<String>)
    requires
        distinct_names(names),
    ensures
        names.map_values(|name: String| name@).no_duplicates(),
        names.map_values(|name: String| name@).to_set() == names_set(names),
{
    let texts = names.map_values(|name: String| name@);
    assert forall|a: int, b: int| 0 <= a < texts.len() && 0 <= b < texts.len() && a != b implies texts[a]
        != texts[b] by {
        if a < b {
            assert(names[a]@ != names[b]@);
        } else {
            assert(names[b]@ != names[a]@);
        }
    }
    assert forall|name: Seq<char>| texts.to_set().contains(name) <==> names_set(names).contains(name) by {
        lemma_names_set_contains(names, name);
        if texts.contains(name) {
            let j = choose|j: int| 0 <= j < texts.len() && texts[j] == name;
            assert(names[j]@ == name);
        }
        if exists|j: int| 0 <= j < names.len() && (#[trigger] names[j])@ == name {
            let j = choose|j: int| 0 <= j < names.len() && (#[trigger] names[j])@ == name;
            assert(texts[j] == name);
        }
    }
    assert(texts.to_set() =~= names_set(names));
}

/// Where no key occurs twice, there are as many keys as pairs.
proof fn lemma_entries_map_len(entries: Seq<(String, usize)>)
    requires
        distinct_keys(entries),
    ensures
        entries_map(entries).dom().finite(),
        entries_map(entries).dom().len() == entries.len(),
    decreases entries.len(),
{
    if entries.len() > 0 {
        lemma_front_distinct_keys(entries);
        lemma_entries_map_len(entries.drop_last());
    }
}

/// Where no key occurs twice, every pair's count is the value of its key.
proof fn lemma_entries_map_value(entries: Seq<(String, usize)>, i: int)
    requires
        distinct_keys(entries),
        0 <= i < entries.len(),
    ensures
        entries_map(entries).dom().contains(entries[i].0@),
        entries_map(entries)[entries[i].0@] == entries[i].1,
    decreases entries.len(),
{
    if i < entries.len() - 1 {
        lemma_front_distinct_keys(entries);
        lemma_entries_map_value(entries.drop_last(), i);
        assert(entries[i].0@ != entries[entries.len() - 1].0@);
    }
}

/// Where no key occurs twice, replacing the pair at `i` by one with the same
/// key gives the map with that key's value replaced.
proof fn lemma_entries_map_update(entries: Seq<(String, usize)>, i: int, pair: (String, usize))
    requires
        distinct_keys(entries),
        0 <= i < entries.len(),
        pair.0@ == entries[i].0@,
    ensures
        distinct_keys(entries.update(i, pair)),
        entries_map(entries.update(i, pair)) == entries_map(entries).insert(pair.0@, pair.1 as nat),
    decreases entries.len(),
{
    let updated = entries.update(i, pair);
    assert forall|a: int, b: int| 0 <= a < b < updated.len() implies (#[trigger] updated[a]).0@ != (
    #[trigger] updated[b]).0@ by {
        assert(entries[a].0@ != entries[b].0@);
    }
    let front = entries.drop_last();
    if i == entries.len() - 1 {
        assert(updated.drop_last() =~= front);
    } else {
        lemma_front_distinct_keys(entries);
        lemma_entries_map_update(front, i, pair);
        assert(updated.drop_last() =~= front.update(i, pair));
        assert(updated.last() == entries.last());
        assert(entries[i].0@ != entries[entries.len() - 1].0@);
    }
    assert(entries_map(updated) =~= entries_map(entries).insert(pair.0@, pair.1 as nat));
}

/// Pairs with the same texts and counts build the same map.
proof fn lemma_entries_map_of_view(a: Seq<(String, usize)>, b: Seq<(String, usize)>)
    requires
        entries_view(a) == entries_view(b),
    ensures
        entries_map(a) == entries_map(b),
    decreases a.len(),
{
    assert(a.len() == entries_view(a).len());
    assert(b.len() == entries_view(b).len());
    if a.len() > 0 {
        assert(entries_view(a.drop_last()) =~= entries_view(a).drop_last());
        assert(entries_view(b.drop_last()) =~= entries_view(b).drop_last());
        lemma_entries_map_of_view(a.drop_last(), b.drop_last());
        assert(entries_view(a)[a.len() - 1] == entries_view(b)[a.len() - 1]);
    }
}

} // verus!
