//! The scan of one diff file: every line is given its category, and what the
//! accepted lines hold is added up.
use vstd::prelude::*;
use vstd::utf8::{decode_utf8, valid_utf8};
use crate::diff_parse::{
    call_sites, declared_paths, find_functions, header_filenames, header_paths, lemma_declared_paths, record_call,
    record_calls,
};
use crate::diff_type::{categories, leading_char, transition, DiffFormatTyper, DiffType};
use crate::result::{Result, Stats};
use crate::text::{decode, lines_of, split_lines};

verus! {

/// The category under which a scan takes `line` after a line of category
/// `last`, or `None` where the scan ends at `line`: the grammar has no place
/// for it, or it is taken for a header and declares no two paths.
pub open spec fn scanned_kind(last: Option<DiffType>, line: Seq<char>) -> Option<DiffType> {
    match transition(last, line) {
        Some(DiffType::Header) => if header_paths(line) is Some {
            Some(DiffType::Header)
        } else {
            None
        },
        other => other,
    }
}

/// `stats` with what the category of a line adds: a header its two paths, the
/// start of a region, an addition and a subtraction one count each.
pub open spec fn count_line(stats: Stats, kind: DiffType, line: Seq<char>) -> Stats {
    match kind {
        DiffType::Header => match header_paths(line) {
            Some((original, new)) => stats.with_file(original).with_file(new),
            None => stats,
        },
        DiffType::NewRegion => stats.with_region(),
        DiffType::Addition => stats.with_added_line(),
        DiffType::Subtraction => stats.with_removed_line(),
        _ => stats,
    }
}

/// `stats` with all that a line of category `kind` adds: what its category
/// adds, and for a line of the file body its call sites.
pub open spec fn record_line(stats: Stats, kind: DiffType, line: Seq<char>) -> Stats {
    if kind.is_file_body() {
        record_calls(count_line(stats, kind, line), call_sites(line))
    } else {
        count_line(stats, kind, line)
    }
}

/// What a scan holds at its end, when it stands at the first of `lines` with
/// `stats` in hand and `last` as the category of the line before. The scan
/// ends at the first line that it cannot take, and keeps what it has.
pub open spec fn scan_from(last: Option<DiffType>, stats: Stats, lines: Seq<Seq<char>>) -> Stats
    decreases lines.len(),
{
    if lines.len() == 0 {
        stats
    } else {
        match scanned_kind(last, lines[0]) {
            None => stats,
            Some(kind) => scan_from(Some(kind), record_line(stats, kind, lines[0]), lines.drop_first()),
        }
    }
}

/// The statistics of the diff made of `lines`.
pub open spec fn scan(lines: Seq<Seq<char>>) -> Stats {
    scan_from(None, Stats::empty(), lines)
}

/// The categories of the lines that a scan takes, in order, when it stands at
/// the first of `lines` with `last` as the category of the line before: one
/// for every line before the one at which the scan ends.
pub open spec fn scanned_kinds(last: Option<DiffType>, lines: Seq<Seq<char>>) -> Seq<DiffType>
    decreases lines.len(),
{
    if lines.len() == 0 {
        Seq::empty()
    } else {
        match scanned_kind(last, lines[0]) {
            None => Seq::empty(),
            Some(kind) => seq![kind] + scanned_kinds(Some(kind), lines.drop_first()),
        }
    }
}

/// The category of the last line that a scan of `lines` takes.
pub open spec fn last_scanned(lines: Seq<Seq<char>>) -> Option<DiffType> {
    let kinds = scanned_kinds(None, lines);
    if kinds.len() == 0 {
        None
    } else {
        Some(kinds.last())
    }
}

/// A diff is valid where a scan takes every line of it.
pub open spec fn is_valid_diff(lines: Seq<Seq<char>>) -> bool {
    scanned_kinds(None, lines).len() == lines.len()
}

/// How a scan went.
pub struct Scan {
    /// What was counted in the lines taken.
    pub result: Result,
    /// The number of lines taken. Where it is less than the number of lines,
    /// the scan ended at the line with this index.
    pub taken: usize,
    /// The category of the last line taken: `None` where no line was taken.
    pub last: Option<DiffType>,
}

/// Gives the statistics of the diff made of `lines`, and how far the scan
/// went.
///
/// The lines are read in order by a fresh `DiffFormatTyper`. The first line
/// that is out of place ends the scan, as does a header that names no two
/// files; what was counted up to there is returned.
pub fn scan_lines(lines: &Vec<String>) -> (outcome: Scan)
    ensures
        outcome.result@ == scan(lines.deep_view()),
        outcome.taken == scanned_kinds(None, lines.deep_view()).len(),
        outcome.taken <= lines.len(),
        outcome.last == last_scanned(lines.deep_view()),
{
    let mut result = Result::empty();
    let mut typer = DiffFormatTyper::new();
    let ghost all = lines.deep_view();
    let ghost mut taken: Seq<DiffType> = Seq::empty();
    let mut i: usize = 0;
    proof {
        assert(all.skip(0) =~= all);
        assert(taken + scanned_kinds(None, all) =~= scanned_kinds(None, all));
    }
    while i < lines.len()
        invariant
            i <= lines.len(),
            all == lines.deep_view(),
            scan_from(typer.last(), result@, all.skip(i as int)) == scan(all),
            taken.len() == i,
            taken + scanned_kinds(typer.last(), all.skip(i as int)) == scanned_kinds(None, all),
            typer.last() == (if i == 0 {
                None
            } else {
                Some(taken.last())
            }),
            result@.regions <= i,
            result@.lines_added <= i,
            result@.lines_removed <= i,
        decreases lines.len() - i,
    {
        let line = lines[i].as_str();
        let last = typer.last_type();
        let ghost before = result@;
        proof {
            assert(all.skip(i as int).drop_first() =~= all.skip(i + 1));
            assert(all.skip(i as int)[0] == line@);
            lemma_scanned_kinds_step(all, i as int, last, taken);
        }
        let kind = match typer.type_line(line) {
            Some(kind) => kind,
            None => {
                return Scan { result, taken: i, last };
            },
        };
        match kind {
            DiffType::Header => match header_filenames(line) {
                Some((file1, file2)) => {
                    result.add_filename(file1);
                    result.add_filename(file2);
                },
                None => {
                    return Scan { result, taken: i, last };
                },
            },
            DiffType::NewRegion => result.add_region(),
            DiffType::Addition => result.count_added_line(),
            DiffType::Subtraction => result.count_removed_line(),
            _ => {},
        }
        if kind.is_file_body() {
            proof {
                lemma_record_calls_keeps_counters(result@, call_sites(line@));
            }
            find_functions(line, &mut result);
        }
        assert(result@ == record_line(before, kind, line@));
        proof {
            taken = taken.push(kind);
        }
        i += 1;
    }
    proof {
        assert(taken + scanned_kinds(typer.last(), all.skip(i as int)) =~= taken);
    }
    Scan { result, taken: i, last: typer.last_type() }
}

/// Given the bytes of a file, returns statistical information about the file
/// as if it were a diff file.
///
/// `None` says that the bytes are no UTF-8 text. Text that is no well-formed
/// diff gives what was counted before its first line that is out of place.
pub fn diffStats(file_data: Vec<u8>) -> (stats: Option<Result>)
    ensures
        stats is Some <==> valid_utf8(file_data@),
        stats matches Some(result) ==> result@ == scan(lines_of(decode_utf8(file_data@))),
{
    match decode(file_data) {
        Some(text) => {
            let lines = split_lines(text.as_str());
            Some(scan_lines(&lines).result)
        },
        None => None,
    }
}

/// The paths that the headers among `lines` declare, where `kinds` gives the
/// category of each line.
pub open spec fn header_files(kinds: Seq<DiffType>, lines: Seq<Seq<char>>) -> Set<Seq<char>>
    decreases kinds.len(),
{
    if kinds.len() == 0 || lines.len() == 0 {
        Set::empty()
    } else {
        (if kinds[0] is Header {
            declared_paths(lines[0])
        } else {
            Set::empty()
        }).union(header_files(kinds.drop_first(), lines.drop_first()))
    }
}

/// How many times `item` stands in `items`.
pub open spec fn count_of<T>(items: Seq<T>, item: T) -> nat
    decreases items.len(),
{
    if items.len() == 0 {
        0
    } else {
        (if items[0] == item {
            1nat
        } else {
            0nat
        }) + count_of(items.drop_first(), item)
    }
}

/// How many of `lines` begin with a plus sign.
pub open spec fn plus_lines(lines: Seq<Seq<char>>) -> nat
    decreases lines.len(),
{
    if lines.len() == 0 {
        0
    } else {
        (if leading_char(lines[0]) == '+' {
            1nat
        } else {
            0nat
        }) + plus_lines(lines.drop_first())
    }
}

/// The number of regions that a scan counts is the number of lines that it
/// takes as the start of a region.
pub proof fn lemma_regions_are_region_starts(lines: Seq<Seq<char>>)
    ensures
        scan(lines).regions == count_of(scanned_kinds(None, lines), DiffType::NewRegion),
{
    lemma_scan_counts(None, Stats::empty(), lines);
}

/// The files that a scan holds are the paths that the lines declare which it
/// takes as headers.
pub proof fn lemma_files_are_declared(lines: Seq<Seq<char>>)
    ensures
        scan(lines).files == header_files(scanned_kinds(None, lines), lines),
{
    lemma_scan_files(None, Stats::empty(), lines);
    assert(Stats::empty().files.union(header_files(scanned_kinds(None, lines), lines)) =~= header_files(
        scanned_kinds(None, lines),
        lines,
    ));
}

/// Every line that a scan takes as an addition is counted once as an added
/// line, and no other line is: a line that names the new file begins with a
/// plus sign too and is not counted.
pub proof fn lemma_added_lines_are_additions(lines: Seq<Seq<char>>)
    ensures
        scan(lines).lines_added == count_of(scanned_kinds(None, lines), DiffType::Addition),
        scanned_kinds(None, lines).len() <= lines.len(),
        plus_lines(lines.take(scanned_kinds(None, lines).len() as int)) == scan(lines).lines_added + count_of(
            scanned_kinds(None, lines),
            DiffType::NewFile,
        ),
{
    lemma_scan_counts(None, Stats::empty(), lines);
}

/// Every line that a scan takes as a subtraction is counted once as a removed
/// line, and no other line is.
pub proof fn lemma_removed_lines_are_subtractions(lines: Seq<Seq<char>>)
    ensures
        scan(lines).lines_removed == count_of(scanned_kinds(None, lines), DiffType::Subtraction),
{
    lemma_scan_counts(None, Stats::empty(), lines);
}

/// For a valid diff, the number of regions counted is the number of lines
/// that a reader accepts as the start of a region.
pub proof fn lemma_valid_diff_regions(lines: Seq<Seq<char>>)
    requires
        is_valid_diff(lines),
    ensures
        scan(lines).regions == count_of(categories(None, lines), Some(DiffType::NewRegion)),
{
    lemma_regions_are_region_starts(lines);
    lemma_valid_diff_categories(None, lines);
    assert(count_of(categories(None, lines), Some(DiffType::NewRegion)) == count_of(
        scanned_kinds(None, lines),
        DiffType::NewRegion,
    ));
}

/// For a valid diff, the number of added lines counted is the number of lines
/// that a reader accepts as an addition, and the lines that begin with a plus
/// sign are those and the lines accepted as naming a new file: no such line
/// is counted as an addition.
pub proof fn lemma_valid_diff_added_lines(lines: Seq<Seq<char>>)
    requires
        is_valid_diff(lines),
    ensures
        scan(lines).lines_added == count_of(categories(None, lines), Some(DiffType::Addition)),
        plus_lines(lines) == scan(lines).lines_added + count_of(
            categories(None, lines),
            Some(DiffType::NewFile),
        ),
{
    lemma_added_lines_are_additions(lines);
    lemma_valid_diff_categories(None, lines);
    assert(lines.take(lines.len() as int) =~= lines);
    assert(count_of(categories(None, lines), Some(DiffType::Addition)) == count_of(
        scanned_kinds(None, lines),
        DiffType::Addition,
    ));
    assert(count_of(categories(None, lines), Some(DiffType::NewFile)) == count_of(
        scanned_kinds(None, lines),
        DiffType::NewFile,
    ));
}

/// In a valid diff the lines that a scan takes are all the lines, each under
/// the category that a reader accepts for it.
pub proof fn lemma_valid_diff_categories(last: Option<DiffType>, lines: Seq<Seq<char>>)
    requires
        scanned_kinds(last, lines).len() == lines.len(),
    ensures
        categories(last, lines) == scanned_kinds(last, lines).map_values(|kind: DiffType| Some(kind)),
        forall|kind: DiffType|
            count_of(categories(last, lines), Some(kind)) == #[trigger] count_of(scanned_kinds(last, lines), kind),
    decreases lines.len(),
{
    let kinds = scanned_kinds(last, lines);
    let wrapped = kinds.map_values(|kind: DiffType| Some(kind));
    if lines.len() == 0 {
        assert(categories(last, lines) =~= wrapped);
    } else {
        match scanned_kind(last, lines[0]) {
            None => {},
            Some(first) => {
                let rest = lines.drop_first();
                let later = scanned_kinds(Some(first), rest);
                assert(kinds.drop_first() =~= later);
                lemma_valid_diff_categories(Some(first), rest);
                assert(transition(last, lines[0]) == Some(first));
                assert(categories(last, lines) =~= wrapped);
                assert(categories(last, lines).drop_first() =~= categories(Some(first), rest));
                assert forall|kind: DiffType|
                    count_of(categories(last, lines), Some(kind)) == #[trigger] count_of(kinds, kind) by {
                    assert(count_of(categories(Some(first), rest), Some(kind)) == count_of(later, kind));
                }
            },
        }
    }
}

/// Nothing that a scan holds is ever taken away again: from any line on, the
/// files stay and no counter and no call count goes down.
pub proof fn lemma_scan_grows(last: Option<DiffType>, stats: Stats, lines: Seq<Seq<char>>)
    ensures
        scan_from(last, stats, lines).at_least(stats),
    decreases lines.len(),
{
    if lines.len() > 0 {
        match scanned_kind(last, lines[0]) {
            None => {},
            Some(kind) => {
                let counted = count_line(stats, kind, lines[0]);
                let next = record_line(stats, kind, lines[0]);
                lemma_record_calls_grows(counted, call_sites(lines[0]));
                assert forall|key: Seq<char>| stats.count(key) <= #[trigger] next.count(key) by {
                    assert(stats.count(key) <= counted.count(key));
                }
                lemma_scan_grows(Some(kind), next, lines.drop_first());
                let end = scan_from(last, stats, lines);
                assert forall|key: Seq<char>| stats.count(key) <= #[trigger] end.count(key) by {
                    assert(stats.count(key) <= next.count(key));
                }
            },
        }
    }
}

/// Counting call sites takes nothing away.
pub proof fn lemma_record_calls_grows(stats: Stats, sites: Seq<Seq<char>>)
    ensures
        record_calls(stats, sites).at_least(stats),
    decreases sites.len(),
{
    if sites.len() > 0 {
        let next = record_call(stats, sites[0]);
        lemma_record_calls_grows(next, sites.drop_first());
        let end = record_calls(stats, sites);
        assert forall|key: Seq<char>| stats.count(key) <= #[trigger] end.count(key) by {
            assert(stats.count(key) <= next.count(key));
        }
    }
}

/// Counting call sites leaves the files and the three counters alone.
pub proof fn lemma_record_calls_keeps_counters(stats: Stats, sites: Seq<Seq<char>>)
    ensures
        record_calls(stats, sites).files == stats.files,
        record_calls(stats, sites).regions == stats.regions,
        record_calls(stats, sites).lines_added == stats.lines_added,
        record_calls(stats, sites).lines_removed == stats.lines_removed,
    decreases sites.len(),
{
    if sites.len() > 0 {
        lemma_record_calls_keeps_counters(record_call(stats, sites[0]), sites.drop_first());
    }
}

/// What a scan adds to the three counters is the number of lines it takes as
/// the start of a region, as an addition and as a subtraction. The lines it
/// takes that begin with a plus sign are its additions and the lines that
/// name a new file.
pub proof fn lemma_scan_counts(last: Option<DiffType>, stats: Stats, lines: Seq<Seq<char>>)
    ensures
        scan_from(last, stats, lines).regions == stats.regions + count_of(
            scanned_kinds(last, lines),
            DiffType::NewRegion,
        ),
        scan_from(last, stats, lines).lines_added == stats.lines_added + count_of(
            scanned_kinds(last, lines),
            DiffType::Addition,
        ),
        scan_from(last, stats, lines).lines_removed == stats.lines_removed + count_of(
            scanned_kinds(last, lines),
            DiffType::Subtraction,
        ),
        scanned_kinds(last, lines).len() <= lines.len(),
        plus_lines(lines.take(scanned_kinds(last, lines).len() as int)) == count_of(
            scanned_kinds(last, lines),
            DiffType::Addition,
        ) + count_of(scanned_kinds(last, lines), DiffType::NewFile),
    decreases lines.len(),
{
    let kinds = scanned_kinds(last, lines);
    if lines.len() == 0 {
        assert(lines.take(0) =~= Seq::<Seq<char>>::empty());
    } else {
        match scanned_kind(last, lines[0]) {
            None => {
                assert(lines.take(0) =~= Seq::<Seq<char>>::empty());
            },
            Some(kind) => {
                let rest = lines.drop_first();
                let later = scanned_kinds(Some(kind), rest);
                lemma_scan_counts(Some(kind), record_line(stats, kind, lines[0]), rest);
                lemma_record_calls_keeps_counters(count_line(stats, kind, lines[0]), call_sites(lines[0]));
                assert(kinds.drop_first() =~= later);
                assert(kinds[0] == kind);
                let taken = lines.take(kinds.len() as int);
                assert(taken.drop_first() =~= rest.take(later.len() as int));
                assert(taken[0] == lines[0]);
                assert(leading_char(lines[0]) == '+' <==> (kind is Addition || kind is NewFile));
            },
        }
    }
}

/// What a scan adds to the files are the paths that the lines declare which
/// it takes as headers.
pub proof fn lemma_scan_files(last: Option<DiffType>, stats: Stats, lines: Seq<Seq<char>>)
    ensures
        scan_from(last, stats, lines).files == stats.files.union(header_files(scanned_kinds(last, lines), lines)),
    decreases lines.len(),
{
    let kinds = scanned_kinds(last, lines);
    if lines.len() == 0 {
        assert(stats.files.union(header_files(kinds, lines)) =~= stats.files);
    } else {
        match scanned_kind(last, lines[0]) {
            None => {
                assert(stats.files.union(header_files(kinds, lines)) =~= stats.files);
            },
            Some(kind) => {
                let rest = lines.drop_first();
                let later = scanned_kinds(Some(kind), rest);
                let next = record_line(stats, kind, lines[0]);
                lemma_scan_files(Some(kind), next, rest);
                lemma_record_calls_keeps_counters(count_line(stats, kind, lines[0]), call_sites(lines[0]));
                assert(kinds.drop_first() =~= later);
                assert(kinds[0] == kind);
                let found = if kind is Header {
                    declared_paths(lines[0])
                } else {
                    Set::empty()
                };
                assert(next.files =~= stats.files.union(found)) by {
                    if kind is Header {
                        let (original, new) = header_paths(lines[0])->0;
                        lemma_declared_paths(lines[0], original, new);
                    }
                }
                assert(next.files.union(header_files(later, rest)) =~= stats.files.union(
                    header_files(kinds, lines),
                ));
            },
        }
    }
}

/// Scanning from a later line on: what the lines from `i` on add to the kinds
/// of the lines before.
proof fn lemma_scanned_kinds_step(lines: Seq<Seq<char>>, i: int, last: Option<DiffType>, taken: Seq<DiffType>)
    requires
        0 <= i < lines.len(),
        taken + scanned_kinds(last, lines.skip(i)) == scanned_kinds(None, lines),
    ensures
        match scanned_kind(last, lines[i]) {
            Some(kind) => taken.push(kind) + scanned_kinds(Some(kind), lines.skip(i + 1)) == scanned_kinds(
                None,
                lines,
            ),
            None => taken == scanned_kinds(None, lines),
        },
{
    let rest = lines.skip(i);
    assert(rest[0] == lines[i]);
    assert(rest.drop_first() =~= lines.skip(i + 1));
    match scanned_kind(last, lines[i]) {
        Some(kind) => {
            assert(taken.push(kind) + scanned_kinds(Some(kind), lines.skip(i + 1)) =~= taken + scanned_kinds(
                last,
                rest,
            ));
        },
        None => {
            assert(taken + scanned_kinds(last, rest) =~= taken);
        },
    }
}

} // verus!
