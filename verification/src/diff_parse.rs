//! What is read out of single lines: the two paths of a diff header, and the
//! function calls of a body line.
use vstd::prelude::*;
use vstd::std_specs::iter::IteratorSpec;
use vstd::string::StringExecFns;
use crate::pattern::{capture_groups, find_all, regex_groups, regex_matches};
use crate::result::{Result, Stats};
use crate::text::same_text;

verus! {

broadcast use vstd::string::group_string_axioms;

/// The regular expression of a git diff header. A path is any run of
/// characters that are not a space.
pub const HEADER_GIT_FILENAME: &'static str = "^diff --git a/([^ ]+) b/([^ ]+)$";

/// The text of a git diff header before its first path.
pub const HEADER_START: &'static str = "diff --git a/";

/// The text of a git diff header between its two paths.
pub const HEADER_MIDDLE: &'static str = " b/";

/// The regular expression of a function call: a run of word characters
/// followed at once by an opening bracket.
pub const FUNCTION_REGEX: &'static str = "\\w+\\(";

/// A path is a run of at least one character, none of them a space.
pub open spec fn is_path(path: Seq<char>) -> bool {
    path.len() > 0 && forall|i: int| 0 <= i < path.len() ==> path[i] != ' '
}

/// Whether `header` is the git diff header that declares the paths `original`
/// and `new`: `diff --git a/<original> b/<new>`, and nothing else.
pub open spec fn is_git_header(header: Seq<char>, original: Seq<char>, new: Seq<char>) -> bool {
    &&& is_path(original)
    &&& is_path(new)
    &&& header == HEADER_START@ + original + HEADER_MIDDLE@ + new
}

/// The two paths among the capture groups of a header: the groups 1 and 2,
/// where the header matched and both took part in the match.
pub open spec fn paths_of_groups(groups: Option<Seq<Option<Seq<char>>>>) -> Option<(Seq<char>, Seq<char>)> {
    match groups {
        Some(found) => if found.len() > 2 && found[1] is Some && found[2] is Some {
            Some((found[1]->0, found[2]->0))
        } else {
            None
        },
        None => None,
    }
}

/// The two paths of `header` among capture groups: the groups 1 and 2, where
/// they are a pair of paths which `header` declares.
pub open spec fn declared_among(header: Seq<char>, groups: Option<Seq<Option<Seq<char>>>>) -> Option<
    (Seq<char>, Seq<char>),
> {
    match paths_of_groups(groups) {
        Some((original, new)) => if is_git_header(header, original, new) {
            Some((original, new))
        } else {
            None
        },
        None => None,
    }
}

/// The two paths that the header line `header` declares: what the engine
/// finds with the header pattern, where that is a pair of paths which
/// `header` declares.
pub open spec fn header_paths(header: Seq<char>) -> Option<(Seq<char>, Seq<char>)> {
    declared_among(header, regex_groups(HEADER_GIT_FILENAME@, header))
}

/// A header declares one pair of paths at most.
pub proof fn lemma_header_declares_one_pair(
    header: Seq<char>,
    original: Seq<char>,
    new: Seq<char>,
    other_original: Seq<char>,
    other_new: Seq<char>,
)
    requires
        is_git_header(header, original, new),
        is_git_header(header, other_original, other_new),
    ensures
        original == other_original,
        new == other_new,
{
    reveal_strlit(" b/");
    let start = HEADER_START@;
    let middle = HEADER_MIDDLE@;
    let first = start + original + middle + new;
    let second = start + other_original + middle + other_new;
    assert(middle[0] == ' ');
    if original.len() < other_original.len() {
        let k = (start.len() + original.len()) as int;
        assert(first[k] == middle[0]);
        assert(second[k] == other_original[original.len() as int]);
    } else if other_original.len() < original.len() {
        let k = (start.len() + other_original.len()) as int;
        assert(second[k] == middle[0]);
        assert(first[k] == original[other_original.len() as int]);
    } else {
        assert forall|i: int| 0 <= i < original.len() implies original[i] == other_original[i] by {
            assert(first[start.len() + i] == original[i]);
            assert(second[start.len() + i] == other_original[i]);
        }
        assert(original =~= other_original);
        let offset = (start.len() + original.len() + middle.len()) as int;
        assert(first.len() == second.len());
        assert forall|i: int| 0 <= i < new.len() implies new[i] == other_new[i] by {
            assert(first[offset + i] == new[i]);
            assert(second[offset + i] == other_new[i]);
        }
        assert(new =~= other_new);
    }
}

/// Whether `line` is a git diff header in which `name` is one of the two
/// paths and `other` the other one.
pub open spec fn names_path(line: Seq<char>, name: Seq<char>, other: Seq<char>) -> bool {
    is_git_header(line, name, other) || is_git_header(line, other, name)
}

/// The paths that `line` declares as a git diff header: none where it is no
/// such header.
pub open spec fn declared_paths(line: Seq<char>) -> Set<Seq<char>> {
    Set::new(|name: Seq<char>| exists|other: Seq<char>| names_path(line, name, other))
}

/// The paths that a header declares are its two paths.
pub proof fn lemma_declared_paths(header: Seq<char>, original: Seq<char>, new: Seq<char>)
    requires
        is_git_header(header, original, new),
    ensures
        declared_paths(header) == Set::<Seq<char>>::empty().insert(original).insert(new),
{
    let both = Set::<Seq<char>>::empty().insert(original).insert(new);
    assert forall|name: Seq<char>| declared_paths(header).contains(name) <==> both.contains(name) by {
        if declared_paths(header).contains(name) {
            let other = choose|other: Seq<char>| names_path(header, name, other);
            if is_git_header(header, name, other) {
                lemma_header_declares_one_pair(header, original, new, name, other);
            } else {
                lemma_header_declares_one_pair(header, original, new, other, name);
            }
        }
        if name == original {
            assert(names_path(header, name, new));
        }
        if name == new {
            assert(names_path(header, name, original));
        }
    }
    assert(declared_paths(header) =~= both);
}

/// The paths that are found in a header are the paths that it declares, and
/// a line that declares no paths has none found in it.
pub proof fn lemma_header_paths_are_declared(header: Seq<char>)
    ensures
        header_paths(header) matches Some((original, new)) ==> is_git_header(header, original, new),
        (forall|original: Seq<char>, new: Seq<char>| !is_git_header(header, original, new))
            ==> header_paths(header) is None,
{
}

/// Whether `path` is a run of at least one character, none of them a space.
pub fn is_path_text(path: &str) -> (is: bool)
    ensures
        is == is_path(path@),
{
    let mut chars = path.chars();
    let mut any = false;
    let ghost mut i: int = 0;
    loop
        invariant
            0 <= i <= path@.len(),
            chars.remaining() == path@.skip(i),
            any == (i > 0),
            forall|j: int| 0 <= j < i ==> path@[j] != ' ',
        decreases path@.len() - i,
    {
        match chars.next() {
            None => {
                return any;
            },
            Some(c) => {
                if c == ' ' {
                    assert(path@[i] == ' ');
                    return false;
                }
                any = true;
            },
        }
        proof {
            assert(path@.skip(i).drop_first() =~= path@.skip(i + 1));
            i = i + 1;
        }
    }
}

/// Whether `header` is the git diff header that declares the paths `original`
/// and `new`.
pub fn declares(header: &str, original: &str, new: &str) -> (is: bool)
    ensures
        is == is_git_header(header@, original@, new@),
{
    if !is_path_text(original) || !is_path_text(new) {
        return false;
    }
    let mut expected = String::new();
    expected.append(HEADER_START);
    expected.append(original);
    expected.append(HEADER_MIDDLE);
    expected.append(new);
    assert(expected@ =~= HEADER_START@ + original@ + HEADER_MIDDLE@ + new@);
    same_text(header, expected.as_str())
}

/// Picks the two paths out of the capture groups of a header line.
pub fn paths_from_groups(groups: Option<Vec<Option<String>>>) -> (paths: Option<(String, String)>)
    ensures
        paths.deep_view() == paths_of_groups(groups.deep_view()),
{
    match groups {
        Some(found) => {
            if found.len() > 2 {
                match (&found[1], &found[2]) {
                    (Some(first), Some(second)) => Some((first.clone(), second.clone())),
                    _ => None,
                }
            } else {
                None
            }
        },
        None => None,
    }
}

/// Picks the two paths of `header` out of the capture groups that the engine
/// found in it. They are returned only where `header` is made of them as a
/// git diff header is, so that they are its paths whatever the engine found.
pub fn declared_paths_from(header: &str, groups: Option<Vec<Option<String>>>) -> (paths: Option<(String, String)>)
    ensures
        paths.deep_view() == declared_among(header@, groups.deep_view()),
        paths matches Some((original, new)) ==> is_git_header(header@, original@, new@),
{
    match paths_from_groups(groups) {
        Some((original, new)) => {
            if declares(header, original.as_str(), new.as_str()) {
                Some((original, new))
            } else {
                None
            }
        },
        None => None,
    }
}

/// Returns the two file names present in the diff header.
///
/// The name after `a/` and the name after `b/` are both returned, so that a
/// caller can store each of them once. A line that is no git diff header
/// gives `None`.
pub fn header_filenames(header: &str) -> (paths: Option<(String, String)>)
    ensures
        paths.deep_view() == header_paths(header@),
        paths matches Some((original, new)) ==> is_git_header(header@, original@, new@),
{
    declared_paths_from(header, capture_groups(HEADER_GIT_FILENAME, header))
}

/// The keys under which the matches of the function pattern are counted:
/// each match with a closing bracket behind it. Where the engine found
/// nothing to search with, there are none.
pub open spec fn keys_of_matches(matches: Option<Seq<Seq<char>>>) -> Seq<Seq<char>> {
    match matches {
        Some(found) => Seq::new(found.len(), |i: int| found[i].push(')')),
        None => Seq::empty(),
    }
}

/// The call sites of `text`, in the order in which they stand in it.
pub open spec fn call_sites(text: Seq<char>) -> Seq<Seq<char>> {
    keys_of_matches(regex_matches(FUNCTION_REGEX@, text))
}

/// `stats` with the call site `key` counted once more. A count that stands at
/// the largest machine integer stays there.
pub open spec fn record_call(stats: Stats, key: Seq<char>) -> Stats {
    if stats.count(key) < usize::MAX {
        stats.with_call(key)
    } else {
        stats
    }
}

/// `stats` with every call site of `sites` counted, one after the other.
pub open spec fn record_calls(stats: Stats, sites: Seq<Seq<char>>) -> Stats
    decreases sites.len(),
{
    if sites.len() == 0 {
        stats
    } else {
        record_calls(record_call(stats, sites[0]), sites.drop_first())
    }
}

/// Turns the matches of the function pattern into the keys under which they
/// are counted.
pub fn call_site_keys(matches: Option<Vec<String>>) -> (keys: Vec<String>)
    ensures
        keys.deep_view() == keys_of_matches(matches.deep_view()),
{
    let mut keys: Vec<String> = Vec::new();
    match matches {
        Some(found) => {
            let mut i: usize = 0;
            while i < found.len()
                invariant
                    i <= found.len(),
                    keys.len() == i,
                    forall|j: int| 0 <= j < i ==> (#[trigger] keys[j])@ == found[j]@.push(')'),
                decreases found.len() - i,
            {
                proof {
                    reveal_strlit(")");
                    assert(")"@ =~= seq![')']);
                }
                let key = found[i].clone().concat(")");
                assert(key@ =~= found[i as int]@.push(')'));
                keys.push(key);
                i += 1;
            }
            assert(keys.deep_view() =~= keys_of_matches(matches.deep_view()));
        },
        None => {
            assert(keys.deep_view() =~= keys_of_matches(matches.deep_view()));
        },
    }
    keys
}

/// Finds the function calls of `text`: every run of word characters that an
/// opening bracket follows at once, written as `name()`.
///
/// This is a coarse notion of a call. White space before the bracket hides a
/// call, and `for(` counts as one.
pub fn find_call_sites(text: &str) -> (sites: Vec<String>)
    ensures
        sites.deep_view() == call_sites(text@),
{
    call_site_keys(find_all(FUNCTION_REGEX, text))
}

/// Counts every call site of `sites` in `result`.
pub fn record_call_sites(sites: &Vec<String>, result: &mut Result)
    ensures
        final(result)@ == record_calls(old(result)@, sites.deep_view()),
{
    let mut i: usize = 0;
    proof {
        assert(sites.deep_view().skip(0) =~= sites.deep_view());
    }
    while i < sites.len()
        invariant
            i <= sites.len(),
            record_calls(result@, sites.deep_view().skip(i as int)) == record_calls(
                old(result)@,
                sites.deep_view(),
            ),
        decreases sites.len() - i,
    {
        proof {
            assert(sites.deep_view().skip(i as int).drop_first() =~= sites.deep_view().skip(i + 1));
        }
        if result.function_calls(sites[i].as_str()) < usize::MAX {
            result.add_function_call(sites[i].clone());
        }
        i += 1;
    }
}

/// Finds all function calls of `string` and counts them in `result`.
pub fn find_functions(string: &str, result: &mut Result)
    ensures
        final(result)@ == record_calls(old(result)@, call_sites(string@)),
{
    let sites = find_call_sites(string);
    record_call_sites(&sites, result);
}

} // verus!
