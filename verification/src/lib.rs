//! Statistics over unified-diff text: the files touched, the number of hunks,
//! added and removed lines, and a tally of call-site-shaped substrings.
#![allow(non_snake_case)]

use vstd::prelude::*;
use vstd::seq_lib::{commutative_foldl, lemma_fold_left_permutation};
use vstd::utf8::{decode_utf8, valid_utf8};
use crate::diff::{diffStats, scan};
use crate::result::{
    lemma_merge_associative, lemma_merge_commutative, lemma_merge_empty, lemma_result_is_bounded, Result, Stats,
};
use crate::text::lines_of;

pub mod diff;
pub mod diff_parse;
pub mod diff_type;
pub mod pattern;
pub mod report;
pub mod result;
pub mod text;

verus! {

broadcast use vstd::std_specs::vec::group_vec_axioms;

/// What one file of a run gives: the statistics of its text as a diff, and
/// nothing where the file could not be read (`None`) or is no UTF-8 text.
pub open spec fn file_stats(file: Option<Seq<u8>>) -> Stats {
    match file {
        Some(bytes) => if valid_utf8(bytes) {
            scan(lines_of(decode_utf8(bytes)))
        } else {
            Stats::empty()
        },
        None => Stats::empty(),
    }
}

/// What a run over `files` gives: the statistics of the files, merged one
/// after the other. A file whose statistics cannot be added in machine
/// integers is left out.
pub open spec fn run_stats(files: Seq<Option<Seq<u8>>>) -> Stats
    decreases files.len(),
{
    if files.len() == 0 {
        Stats::empty()
    } else {
        run_stats(files.drop_last()).merge_if_fits(file_stats(files.last()))
    }
}

/// The merge of the statistics of `files`.
pub open spec fn merged_stats(files: Seq<Option<Seq<u8>>>) -> Stats
    decreases files.len(),
{
    if files.len() == 0 {
        Stats::empty()
    } else {
        merged_stats(files.drop_last()).merge(file_stats(files.last()))
    }
}

/// Whether the statistics of `files` can be merged one after the other in
/// machine integers.
pub open spec fn run_fits(files: Seq<Option<Seq<u8>>>) -> bool
    decreases files.len(),
{
    files.len() > 0 ==> run_fits(files.drop_last()) && merged_stats(files.drop_last()).fits_with(
        file_stats(files.last()),
    )
}

/// Gives the result for a folder of diffs. Each of `files` holds the bytes of
/// one file of the folder, or `None` for a file that could not be read.
///
/// The result is the merge of what the files hold as diffs: the list of the
/// files in the diffs, the number of regions, of lines added and of lines
/// deleted, and the function calls seen with the number of their calls. A
/// file that could not be read adds nothing, nor does one that is no UTF-8
/// text.
pub fn compute(files: Vec<Option<Vec<u8>>>) -> (result: Result)
    ensures
        result@ == run_stats(files.deep_view()),
{
    let mut retVal = Result::empty();
    let ghost all = files.deep_view();
    let ghost given = files@;
    proof {
        assert(all.take(0) =~= Seq::<Option<Seq<u8>>>::empty());
    }
    for entry in entries: files.into_iter()
        invariant
            entries.seq() == given,
            all.len() == given.len(),
            forall|i: int| 0 <= i < given.len() ==> all[i] == (#[trigger] given[i]).deep_view(),
            retVal@ == run_stats(all.take(entries.index() as int)),
    {
        let ghost done = entries.index() as int;
        let ghost before = retVal@;
        let ghost bytes = entry.deep_view();
        proof {
            assert(entry == given[done]);
            assert(all.take(done + 1).drop_last() =~= all.take(done));
            assert(all.take(done + 1).last() == bytes);
            lemma_merge_empty(before);
            lemma_result_is_bounded(retVal);
        }
        let stats = match entry {
            Some(file_data) => {
                assert(file_data.deep_view() =~= file_data@);
                diffStats(file_data)
            },
            None => None,
        };
        match stats {
            Some(stats) => {
                retVal.try_add_assign(stats);
            },
            None => {},
        }
        assert(retVal@ == before.merge_if_fits(file_stats(bytes)));
    }
    proof {
        assert(all.take(given.len() as int) =~= all);
    }
    retVal
}

/// A file that could not be read adds nothing to a run, and the run goes on.
pub proof fn lemma_unread_file_adds_nothing(files: Seq<Option<Seq<u8>>>)
    ensures
        run_stats(files.push(None)) == run_stats(files),
{
    assert(files.push(None).drop_last() =~= files);
    lemma_merge_empty(run_stats(files));
}

/// A file that is no UTF-8 text adds nothing to a run.
pub proof fn lemma_undecodable_file_adds_nothing(files: Seq<Option<Seq<u8>>>, bytes: Seq<u8>)
    requires
        !valid_utf8(bytes),
    ensures
        run_stats(files.push(Some(bytes))) == run_stats(files),
{
    assert(files.push(Some(bytes)).drop_last() =~= files);
    lemma_merge_empty(run_stats(files));
}

/// Where the statistics of the files can be added up in machine integers, a
/// run gives their merge.
pub proof fn lemma_run_is_the_merge(files: Seq<Option<Seq<u8>>>)
    requires
        run_fits(files),
    ensures
        run_stats(files) == merged_stats(files),
    decreases files.len(),
{
    if files.len() > 0 {
        lemma_run_is_the_merge(files.drop_last());
    }
}

/// The merge of the statistics of files does not depend on the order of the
/// files.
pub proof fn lemma_merged_in_any_order(files: Seq<Option<Seq<u8>>>, reordered: Seq<Option<Seq<u8>>>)
    requires
        files.to_multiset() == reordered.to_multiset(),
    ensures
        merged_stats(files) == merged_stats(reordered),
{
    let step = |held: Stats, file: Option<Seq<u8>>| held.merge(file_stats(file));
    assert(commutative_foldl(step)) by {
        assert forall|x: Option<Seq<u8>>, y: Option<Seq<u8>>, held: Stats| #[trigger]
            step(step(held, x), y) == step(step(held, y), x) by {
            lemma_merge_associative(held, file_stats(x), file_stats(y));
            lemma_merge_associative(held, file_stats(y), file_stats(x));
            lemma_merge_commutative(file_stats(x), file_stats(y));
        }
    }
    lemma_merged_is_a_fold(files);
    lemma_merged_is_a_fold(reordered);
    lemma_fold_left_permutation(files, reordered, step, Stats::empty());
}

/// The merge of the statistics of files is the fold of `merge` over them.
proof fn lemma_merged_is_a_fold(files: Seq<Option<Seq<u8>>>)
    ensures
        merged_stats(files) == files.fold_left(
            Stats::empty(),
            |held: Stats, file: Option<Seq<u8>>| held.merge(file_stats(file)),
        ),
    decreases files.len(),
{
    if files.len() > 0 {
        lemma_merged_is_a_fold(files.drop_last());
    }
}

} // verus!
