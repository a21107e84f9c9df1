//! The text in which an analysis is reported.
use vstd::prelude::*;
use vstd::string::StringExecFns;
use crate::text::{decimal, decimal_text};

verus! {

/// The lines of a report that name the files: one line for each of `names`.
pub open spec fn file_lines(names: Seq<Seq<char>>) -> Seq<char>
    decreases names.len(),
{
    if names.len() == 0 {
        Seq::empty()
    } else {
        file_lines(names.drop_last()) + "    -"@ + names.last() + "\n"@
    }
}

/// The lines of a report that give the calls: one line for each of `calls`,
/// with the function and its count.
pub open spec fn call_lines(calls: Seq<(Seq<char>, nat)>) -> Seq<char>
    decreases calls.len(),
{
    if calls.len() == 0 {
        Seq::empty()
    } else {
        call_lines(calls.drop_last()) + "   "@ + calls.last().0 + ": "@ + decimal(calls.last().1) + "\n"@
    }
}

/// The report of an analysis: the files, the three counters, and the calls.
pub open spec fn report_text(
    files: Seq<Seq<char>>,
    regions: nat,
    lines_added: nat,
    lines_removed: nat,
    calls: Seq<(Seq<char>, nat)>,
) -> Seq<char> {
    "Files: \n"@ + file_lines(files) + "Regions: "@ + decimal(regions) + "\n"@ + "LA: "@ + decimal(
        lines_added,
    ) + "\n"@ + "LD: "@ + decimal(lines_removed) + "\n"@ + "Functions calls: \n"@ + call_lines(calls)
}

/// The texts and counts of `entries`.
pub open spec fn entries_view(entries: Seq<(String, usize)>) -> Seq<(Seq<char>, nat)> {
    Seq::new(entries.len(), |i: int| (entries[i].0@, entries[i].1 as nat))
}

/// Writes the report of an analysis that holds `files` and `calls` in this
/// order.
pub fn write_report(
    files: &Vec<String>,
    regions: usize,
    lines_added: usize,
    lines_removed: usize,
    calls: &Vec<(String, usize)>,
) -> (text: String)
    ensures
        text@ == report_text(
            files.deep_view(),
            regions as nat,
            lines_added as nat,
            lines_removed as nat,
            entries_view(calls@),
        ),
{
    let mut text = String::new();
    text.append("Files: \n");
    let ghost names = files.deep_view();
    let mut i: usize = 0;
    while i < files.len()
        invariant
            i <= files.len(),
            names == files.deep_view(),
            text@ == "Files: \n"@ + file_lines(names.take(i as int)),
        decreases files.len() - i,
    {
        let ghost before = text@;
        text.append("    -");
        text.append(files[i].as_str());
        text.append("\n");
        proof {
            assert(names.take(i + 1).drop_last() =~= names.take(i as int));
            assert(names.take(i + 1).last() == files[i as int]@);
            assert(text@ =~= "Files: \n"@ + file_lines(names.take(i + 1)));
        }
        i += 1;
    }
    proof {
        assert(names.take(files.len() as int) =~= names);
    }
    text.append("Regions: ");
    text.append(decimal_text(regions).as_str());
    text.append("\n");
    text.append("LA: ");
    text.append(decimal_text(lines_added).as_str());
    text.append("\n");
    text.append("LD: ");
    text.append(decimal_text(lines_removed).as_str());
    text.append("\n");
    text.append("Functions calls: \n");
    let ghost head = text@;
    let ghost pairs = entries_view(calls@);
    let mut k: usize = 0;
    proof {
        assert(text@ =~= head + call_lines(pairs.take(0)));
    }
    while k < calls.len()
        invariant
            k <= calls.len(),
            pairs == entries_view(calls@),
            text@ == head + call_lines(pairs.take(k as int)),
        decreases calls.len() - k,
    {
        text.append("   ");
        text.append(calls[k].0.as_str());
        text.append(": ");
        text.append(decimal_text(calls[k].1).as_str());
        text.append("\n");
        proof {
            assert(pairs.take(k + 1).drop_last() =~= pairs.take(k as int));
            assert(pairs.take(k + 1).last() == (calls[k as int].0@, calls[k as int].1 as nat));
            assert(text@ =~= head + call_lines(pairs.take(k + 1)));
        }
        k += 1;
    }
    proof {
        assert(pairs.take(calls.len() as int) =~= pairs);
    }
    text
}

} // verus!
