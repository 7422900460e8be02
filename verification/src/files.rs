//! Files of a project: which file an incomplete path or a name means.
use crate::paths::{
    components_of, file_name_of, is_absolute_path, joined_path, opt_text, path_components,
    path_file_name, path_is_absolute, path_join,
};
use crate::text::{equal, join, joined, law_texts_are_those_of_the_strings, texts};
use rayon::slice::ParallelSliceMut;
use vstd::prelude::*;

verus! {

/// The file name of a path, or nothing where it ends in none.
pub open spec fn name_of(path: Seq<char>) -> Seq<char> {
    match file_name_of(path) {
        Some(name) => name,
        None => Seq::empty(),
    }
}

/// The glob patterns by which the files of a project are searched for a name: the name itself,
/// whatever holds it, and the same for Rust files.
pub open spec fn patterns_of(root: Seq<char>, name: Seq<char>) -> Seq<Seq<char>> {
    seq![
        joined_path(root, "**/"@ + name),
        joined_path(root, "**/*"@ + name + "*"@),
        joined_path(root, "**/"@ + name + ".rs"@),
        joined_path(root, "**/*"@ + name + ".rs"@),
    ]
}

/// The glob patterns by which the files of a project are searched for a name.
pub fn search_patterns(root: &str, filename_pattern: &str) -> (res: Vec<String>)
    ensures
        texts(res@) == patterns_of(root@, filename_pattern@),
{
    let exact = "**/".to_owned().concat(filename_pattern);
    let holds = "**/*".to_owned().concat(filename_pattern).concat("*");
    let rust = "**/".to_owned().concat(filename_pattern).concat(".rs");
    let rust_holds = "**/*".to_owned().concat(filename_pattern).concat(".rs");
    let mut out: Vec<String> = Vec::new();
    out.push(path_join(root, exact.as_str()));
    out.push(path_join(root, holds.as_str()));
    out.push(path_join(root, rust.as_str()));
    out.push(path_join(root, rust_holds.as_str()));
    assert(texts(out@) =~= patterns_of(root@, filename_pattern@));
    out
}

/// The paths, each once, in the order in which they first appear.
pub open spec fn each_once(paths: Seq<Seq<char>>) -> Seq<Seq<char>>
    decreases paths.len(),
{
    if paths.len() == 0 {
        Seq::empty()
    } else {
        let before = each_once(paths.drop_last());
        if before.contains(paths.last()) {
            before
        } else {
            before.push(paths.last())
        }
    }
}

/// A file comes before another where its name is the one that was looked for and the other's is
/// not, then where it lies less deep; otherwise the two keep their order.
pub open spec fn ranks_before(
    files: Seq<Seq<char>>,
    pattern: Seq<char>,
    i: int,
    j: int,
) -> bool {
    let i_exact = name_of(files[i]) == pattern;
    let j_exact = name_of(files[j]) == pattern;
    let i_depth = components_of(files[i]).len();
    let j_depth = components_of(files[j]).len();
    ||| i_exact && !j_exact
    ||| i_exact == j_exact && i_depth < j_depth
    ||| i_exact == j_exact && i_depth == j_depth && i < j
}

/// `order` holds the index of every file, by rank.
pub open spec fn is_ranking(files: Seq<Seq<char>>, pattern: Seq<char>, order: Seq<int>) -> bool {
    &&& order.len() == files.len()
    &&& forall|k: int| 0 <= k < order.len() ==> 0 <= #[trigger] order[k] < files.len()
    &&& forall|k: int, l: int|
        0 <= k < l < order.len() ==> ranks_before(
            files,
            pattern,
            #[trigger] order[k],
            #[trigger] order[l],
        )
}

/// The first files by rank, no more of them than `max`.
pub open spec fn are_best_files(
    files: Seq<Seq<char>>,
    pattern: Seq<char>,
    max: nat,
    best: Seq<Seq<char>>,
) -> bool {
    exists|order: Seq<int>| #[trigger]
        is_ranking(files, pattern, order) && best == order.take(
            if max < order.len() {
                max as int
            } else {
                order.len() as int
            },
        ).map_values(|i: int| files[i])
}

/// The order of tuples.
pub open spec fn key_le(a: (u8, usize, usize), b: (u8, usize, usize)) -> bool {
    ||| a.0 < b.0
    ||| a.0 == b.0 && a.1 < b.1
    ||| a.0 == b.0 && a.1 == b.1 && a.2 <= b.2
}

/// The keys stand in order.
pub open spec fn is_sorted(keys: Seq<(u8, usize, usize)>) -> bool {
    forall|i: int, j: int| 0 <= i < j < keys.len() ==> key_le(#[trigger] keys[i], #[trigger] keys[j])
}

/// rayon's `par_sort`: the items in the order of tuples, none lost and none added.
#[verifier::external_body]
fn sort_in_parallel(keys: &mut Vec<(u8, usize, usize)>)
    ensures
        is_sorted(final(keys)@),
        final(keys)@.to_multiset() == old(keys)@.to_multiset(),
{
    keys.par_sort()
}

fn sort_in_turn(keys: &Vec<(u8, usize, usize)>) -> (res: Vec<(u8, usize, usize)>)
    ensures
        is_sorted(res@),
        res@.to_multiset() == keys@.to_multiset(),
{
    broadcast use vstd::seq_lib::group_to_multiset_ensures;

    let mut out: Vec<(u8, usize, usize)> = Vec::new();
    let mut i: usize = 0;
    assert(out@ =~= keys@.take(0));
    while i < keys.len()
        invariant
            i <= keys@.len(),
            out@.len() == i,
            is_sorted(out@),
            out@.to_multiset() == keys@.take(i as int).to_multiset(),
        decreases keys@.len() - i,
    {
        let key = keys[i];
        let mut at: usize = out.len();
        while at > 0 && !(out[at - 1].0 < key.0 || (out[at - 1].0 == key.0 && (out[at - 1].1 < key.1
            || (out[at - 1].1 == key.1 && out[at - 1].2 <= key.2))))
            invariant
                at <= out@.len(),
                is_sorted(out@),
                forall|k: int| at <= k < out@.len() ==> key_le(key, #[trigger] out@[k]),
            decreases at,
        {
            at -= 1;
        }
        let ghost before = out@;
        out.insert(at, key);
        proof {
            assert(keys@.take(i + 1) =~= keys@.take(i as int).push(key));
            vstd::seq_lib::to_multiset_insert(before, at as int, key);
            vstd::seq_lib::to_multiset_build(keys@.take(i as int), key);
            assert forall|k: int, l: int| 0 <= k < l < out@.len() implies key_le(
                #[trigger] out@[k],
                #[trigger] out@[l],
            ) by {
                if k < at {
                    assert(out@[k] == before[k]);
                }
                if l > at {
                    assert(out@[l] == before[l - 1]);
                }
                if k > at {
                    assert(out@[k] == before[k - 1]);
                }
                if l < at {
                    assert(out@[l] == before[l]);
                }
            }
        }
        i += 1;
    }
    assert(keys@.take(i as int) =~= keys@);
    out
}

/// The key of a file by which it is ranked.
pub open spec fn rank_key(files: Seq<Seq<char>>, pattern: Seq<char>, i: int) -> (u8, usize, usize) {
    (
        if name_of(files[i]) == pattern {
            0u8
        } else {
            1u8
        },
        components_of(files[i]).len() as usize,
        i as usize,
    )
}

proof fn lemma_sorted_ranking(
    files: Seq<Seq<char>>,
    pattern: Seq<char>,
    keys: Seq<(u8, usize, usize)>,
    sorted: Seq<(u8, usize, usize)>,
)
    requires
        files.len() <= usize::MAX,
        keys.len() == files.len(),
        forall|i: int| 0 <= i < files.len() ==> components_of(#[trigger] files[i]).len() <= usize::MAX,
        forall|i: int| 0 <= i < keys.len() ==> #[trigger] keys[i] == rank_key(files, pattern, i),
        is_sorted(sorted),
        sorted.to_multiset() == keys.to_multiset(),
    ensures
        is_ranking(files, pattern, sorted.map_values(|k: (u8, usize, usize)| k.2 as int)),
{
    broadcast use vstd::seq_lib::group_to_multiset_ensures;

    let order = sorted.map_values(|k: (u8, usize, usize)| k.2 as int);
    vstd::seq_lib::to_multiset_len(sorted);
    vstd::seq_lib::to_multiset_len(keys);
    assert(keys.no_duplicates()) by {
        assert forall|i: int, j: int| 0 <= i < keys.len() && 0 <= j < keys.len() && i != j implies
            keys[i] != keys[j] by {
            assert(keys[i].2 == i);
            assert(keys[j].2 == j);
        }
    }
    keys.lemma_multiset_has_no_duplicates();
    sorted.lemma_multiset_has_no_duplicates_conv();
    assert forall|k: int| 0 <= k < sorted.len() implies 0 <= #[trigger] order[k] < files.len()
        && sorted[k] == rank_key(files, pattern, order[k]) by {
        vstd::seq_lib::to_multiset_contains(sorted, sorted[k]);
        vstd::seq_lib::to_multiset_contains(keys, sorted[k]);
        assert(sorted.contains(sorted[k]));
        assert(keys.contains(sorted[k]));
        let i = choose|i: int| 0 <= i < keys.len() && keys[i] == sorted[k];
        assert(keys[i] == rank_key(files, pattern, i));
        assert(order[k] == i);
    }
    assert forall|k: int, l: int| 0 <= k < l < order.len() implies ranks_before(
        files,
        pattern,
        #[trigger] order[k],
        #[trigger] order[l],
    ) by {
        assert(key_le(sorted[k], sorted[l]));
        assert(sorted[k] != sorted[l]);
        assert(components_of(files[order[k]]).len() <= usize::MAX);
        assert(components_of(files[order[l]]).len() <= usize::MAX);
    }
}

fn list_once(paths: &Vec<String>) -> (res: Vec<String>)
    ensures
        texts(res@) == each_once(texts(paths@)),
{
    let mut out: Vec<String> = Vec::new();
    let mut i: usize = 0;
    assert(texts(out@) =~= each_once(texts(paths@).take(0)));
    while i < paths.len()
        invariant
            i <= paths@.len(),
            texts(out@) == each_once(texts(paths@).take(i as int)),
        decreases paths@.len() - i,
    {
        let ghost next = texts(paths@).take(i + 1);
        assert(next.drop_last() =~= texts(paths@).take(i as int));
        assert(next.last() == paths@[i as int]@);
        let mut known = false;
        let mut j: usize = 0;
        while j < out.len()
            invariant
                i < paths@.len(),
                j <= out@.len(),
                known <==> exists|k: int| 0 <= k < j && (#[trigger] out@[k])@ == paths@[i as int]@,
            decreases out@.len() - j,
        {
            if out[j] == paths[i] {
                known = true;
            }
            j += 1;
        }
        let ghost before = texts(out@);
        proof {
            if known {
                let k = choose|k: int| 0 <= k < j && (#[trigger] out@[k])@ == paths@[i as int]@;
                assert(before[k] == paths@[i as int]@);
            } else if before.contains(paths@[i as int]@) {
                let k = choose|k: int| 0 <= k < before.len() && before[k] == paths@[i as int]@;
                assert(out@[k]@ == paths@[i as int]@);
            }
        }
        if !known {
            out.push(paths[i].clone());
            assert(texts(out@) =~= before.push(paths@[i as int]@));
        }
        i += 1;
    }
    assert(texts(paths@).take(i as int) =~= texts(paths@));
    out
}

/// The files that were found for a name, each once, the best of them first and no more than
/// `max_results`. Files of that very name come first, then those that lie less deep.
pub fn find_files_by_name(
    found: &Vec<String>,
    filename_pattern: &str,
    max_results: usize,
) -> (res: Vec<String>)
    ensures
        are_best_files(
            each_once(texts(found@)),
            filename_pattern@,
            max_results as nat,
            texts(res@),
        ),
{
    let files = list_once(found);
    let ghost all = texts(files@);
    assert(all.len() == files@.len());
    let total: usize = files.len();
    let mut keys: Vec<(u8, usize, usize)> = Vec::new();
    let mut i: usize = 0;
    while i < total
        invariant
            total == files@.len(),
            all == texts(files@),
            i <= total,
            keys@.len() == i,
            forall|k: int| 0 <= k < i ==> components_of(#[trigger] all[k]).len() <= usize::MAX,
            forall|k: int| 0 <= k < i ==> #[trigger] keys@[k] == rank_key(all, filename_pattern@, k),
        decreases total - i,
    {
        let name = match path_file_name(files[i].as_str()) {
            Some(name) => name,
            None => String::new(),
        };
        let class: u8 = if equal(name.as_str(), filename_pattern) {
            0
        } else {
            1
        };
        let parts = path_components(files[i].as_str());
        let depth: usize = parts.len();
        assert(components_of(all[i as int]).len() == depth) by {
            assert(texts(parts@).len() == parts@.len());
        }
        assert(name@ =~= name_of(all[i as int]));
        keys.push((class, depth, i));
        i += 1;
    }
    let ghost unsorted = keys@;
    if total > 100 {
        sort_in_parallel(&mut keys);
    } else {
        keys = sort_in_turn(&keys);
    }
    let ghost order = keys@.map_values(|k: (u8, usize, usize)| k.2 as int);
    proof {
        lemma_sorted_ranking(all, filename_pattern@, unsorted, keys@);
    }
    let kept: usize = if max_results < total {
        max_results
    } else {
        total
    };
    let mut out: Vec<String> = Vec::new();
    let mut k: usize = 0;
    while k < kept
        invariant
            total == files@.len(),
            all == texts(files@),
            kept <= total,
            keys@.len() == total,
            k <= kept,
            order == keys@.map_values(|k: (u8, usize, usize)| k.2 as int),
            is_ranking(all, filename_pattern@, order),
            out@.len() == k,
            forall|j: int| 0 <= j < k ==> (#[trigger] out@[j])@ == all[order[j]],
        decreases kept - k,
    {
        assert(0 <= order[k as int] < all.len());
        assert(order[k as int] == keys@[k as int].2);
        out.push(files[keys[k].2].clone());
        k += 1;
    }
    assert(texts(out@) =~= order.take(kept as int).map_values(|i: int| all[i]));
    out
}

/// The number of files that a search for an incomplete path keeps.
pub const MAX_MATCHES: usize = 5;

/// What is known of the files that a path may mean.
#[derive(Clone, Debug)]
pub struct FileFacts {
    /// Whether a file lies at the path itself.
    pub absolute_exists: Option<bool>,
    /// Whether a file lies at the path from the root of the project.
    pub relative_exists: Option<bool>,
    /// The files that the search for the name found.
    pub found: Option<Vec<String>>,
}

/// The next step in finding the file that a path means.
#[derive(Clone, Debug)]
pub enum FileStep {
    /// Find out whether a file lies at the path itself.
    AskAbsolute(String),
    /// Find out whether a file lies at the path from the root of the project.
    AskRelative(String),
    /// Search the files of the project for the name, by these patterns.
    Search { filename: String, patterns: Vec<String> },
    /// The file is found, and there is a note where it is one of several.
    Found { path: String, note: Option<String> },
    /// There is no such file.
    Missing(String),
}

/// The name that is searched for: the file name of the path, or the whole path where it ends in
/// no name.
pub open spec fn searched_name(path: Seq<char>) -> Seq<char> {
    match file_name_of(path) {
        Some(name) => name,
        None => path,
    }
}

/// The note on a file that is one of several.
pub open spec fn several_note(path: Seq<char>, matches: Seq<Seq<char>>) -> Seq<char> {
    "Multiple files found for '"@ + path + "'. Using: "@ + matches[0] + ". Alternatives: "@
        + joined(matches.skip(1), ", "@)
}

/// The end of the search, by the files that it found.
pub open spec fn search_ends(
    root: Seq<char>,
    path: Seq<char>,
    found: Seq<Seq<char>>,
    step: FileStep,
) -> bool {
    exists|matches: Seq<Seq<char>>| #[trigger]
        are_best_files(each_once(found), searched_name(path), MAX_MATCHES as nat, matches)
            && match step {
            FileStep::Missing(message) => matches.len() == 0 && message@
                == "No files found matching '"@ + path + "' in project '"@ + root + "'"@,
            FileStep::Found { path: file, note } => matches.len() > 0 && file@ == matches[0]
                && opt_text(note) == if matches.len() == 1 {
                None::<Seq<char>>
            } else {
                Some(several_note(path, matches))
            },
            _ => false,
        }
}

/// The step that follows from what is known: first an absolute path that exists, then the path
/// from the root of the project, then the best match of a search.
pub open spec fn step_from(
    root: Seq<char>,
    path: Seq<char>,
    facts: FileFacts,
    step: FileStep,
) -> bool {
    if is_absolute_path(path) && facts.absolute_exists is None {
        step matches FileStep::AskAbsolute(p) && p@ == path
    } else if is_absolute_path(path) && facts.absolute_exists->0 {
        step matches FileStep::Found { path: p, note } && p@ == path && note is None
    } else if facts.relative_exists is None {
        step matches FileStep::AskRelative(p) && p@ == joined_path(root, path)
    } else if facts.relative_exists->0 {
        step matches FileStep::Found { path: p, note } && p@ == joined_path(root, path)
            && note is None
    } else {
        match facts.found {
            None => step matches FileStep::Search { filename, patterns } && filename@
                == searched_name(path) && texts(patterns@) == patterns_of(
                root,
                searched_name(path),
            ),
            Some(found) => search_ends(root, path, texts(found@), step),
        }
    }
}

/// The next step in finding the file that a path means, which may be incomplete or a mere name.
pub fn resolve_file_path(root: &str, file_path_or_name: &str, facts: &FileFacts) -> (res: FileStep)
    ensures
        step_from(root@, file_path_or_name@, *facts, res),
{
    if path_is_absolute(file_path_or_name) {
        match facts.absolute_exists {
            None => return FileStep::AskAbsolute(file_path_or_name.to_owned()),
            Some(true) => return FileStep::Found {
                path: file_path_or_name.to_owned(),
                note: None,
            },
            Some(false) => {},
        }
    }
    let relative = path_join(root, file_path_or_name);
    match facts.relative_exists {
        None => return FileStep::AskRelative(relative),
        Some(true) => return FileStep::Found { path: relative, note: None },
        Some(false) => {},
    }
    let filename = match path_file_name(file_path_or_name) {
        Some(name) => name,
        None => file_path_or_name.to_owned(),
    };
    let found = match &facts.found {
        None => {
            let patterns = search_patterns(root, filename.as_str());
            return FileStep::Search { filename, patterns };
        },
        Some(found) => found,
    };
    let matches = find_files_by_name(found, filename.as_str(), MAX_MATCHES);
    let ghost paths = texts(matches@);
    assert(are_best_files(
        each_once(texts(found@)),
        searched_name(file_path_or_name@),
        MAX_MATCHES as nat,
        paths,
    ));
    if matches.len() == 0 {
        return FileStep::Missing(
            "No files found matching '".to_owned().concat(file_path_or_name).concat(
                "' in project '",
            ).concat(root).concat("'"),
        );
    }
    let best = matches[0].clone();
    if matches.len() == 1 {
        return FileStep::Found { path: best, note: None };
    }
    let mut alternatives: Vec<String> = Vec::new();
    let mut i: usize = 1;
    while i < matches.len()
        invariant
            1 <= i <= matches@.len(),
            texts(alternatives@) == texts(matches@).subrange(1, i as int),
        decreases matches@.len() - i,
    {
        let ghost before = texts(alternatives@);
        alternatives.push(matches[i].clone());
        assert(texts(alternatives@) =~= before.push(matches@[i as int]@));
        i += 1;
        assert(texts(alternatives@) =~= texts(matches@).subrange(1, i as int));
    }
    assert(texts(alternatives@) =~= paths.skip(1));
    let others = join(&alternatives, ", ");
    let note = "Multiple files found for '".to_owned().concat(file_path_or_name).concat(
        "'. Using: ",
    ).concat(best.as_str()).concat(". Alternatives: ").concat(others.as_str());
    assert(note@ == several_note(file_path_or_name@, paths));
    FileStep::Found { path: best, note: Some(note) }
}

/// The rank of files is settled: two rankings of the same files are the same.
pub proof fn law_ranking_is_unique(
    files: Seq<Seq<char>>,
    pattern: Seq<char>,
    a: Seq<int>,
    b: Seq<int>,
)
    requires
        is_ranking(files, pattern, a),
        is_ranking(files, pattern, b),
    ensures
        a == b,
{
    lemma_ranking_covers(files, pattern, a);
    lemma_ranking_covers(files, pattern, b);
    assert forall|k: int| 0 <= k < a.len() implies a[k] == b[k] by {
        lemma_ranking_prefix(files, pattern, a, b, k);
    }
    assert(a =~= b);
}

proof fn lemma_ranking_prefix(
    files: Seq<Seq<char>>,
    pattern: Seq<char>,
    a: Seq<int>,
    b: Seq<int>,
    k: int,
)
    requires
        is_ranking(files, pattern, a),
        is_ranking(files, pattern, b),
        forall|i: int| 0 <= i < files.len() ==> #[trigger] a.contains(i),
        forall|i: int| 0 <= i < files.len() ==> #[trigger] b.contains(i),
        0 <= k < a.len(),
    ensures
        a[k] == b[k],
    decreases k,
{
    assert forall|j: int| 0 <= j < k implies a[j] == b[j] by {
        lemma_ranking_prefix(files, pattern, a, b, j);
    }
    assert(b.contains(a[k]));
    assert(a.contains(b[k]));
    let i = choose|i: int| 0 <= i < b.len() && b[i] == a[k];
    let j = choose|j: int| 0 <= j < a.len() && a[j] == b[k];
    if i < k {
        assert(a[i] == b[i]);
        assert(ranks_before(files, pattern, a[i], a[k]));
    }
    if j < k {
        assert(a[j] == b[j]);
        assert(ranks_before(files, pattern, b[j], b[k]));
    }
    if i > k && j > k {
        assert(ranks_before(files, pattern, b[k], b[i]));
        assert(ranks_before(files, pattern, a[k], a[j]));
    }
}

proof fn lemma_ranking_covers(files: Seq<Seq<char>>, pattern: Seq<char>, order: Seq<int>)
    requires
        is_ranking(files, pattern, order),
    ensures
        forall|i: int| 0 <= i < files.len() ==> #[trigger] order.contains(i),
{
    assert(order.no_duplicates()) by {
        assert forall|k: int, l: int|
            0 <= k < order.len() && 0 <= l < order.len() && k != l implies order[k] != order[l] by {
            if k < l {
                assert(ranks_before(files, pattern, order[k], order[l]));
            } else {
                assert(ranks_before(files, pattern, order[l], order[k]));
            }
        }
    }
    order.unique_seq_to_set();
    let all = vstd::set_lib::set_int_range(0, files.len() as int);
    vstd::set_lib::lemma_int_range(0, files.len() as int);
    assert(order.to_set().subset_of(all)) by {
        assert forall|i: int| order.to_set().contains(i) implies all.contains(i) by {
            let k = choose|k: int| 0 <= k < order.len() && order[k] == i;
            assert(0 <= order[k] < files.len());
        }
    }
    vstd::set_lib::lemma_subset_equality(order.to_set(), all);
    assert forall|i: int| 0 <= i < files.len() implies #[trigger] order.contains(i) by {
        assert(all.contains(i));
        assert(order.to_set().contains(i));
    }
}

/// The files that a search keeps are files that were found, none of them twice, and no more than
/// were asked for; none is left out while there is room.
pub proof fn law_best_files_were_found(
    found: Seq<Seq<char>>,
    pattern: Seq<char>,
    max: nat,
    best: Seq<Seq<char>>,
)
    requires
        are_best_files(each_once(found), pattern, max, best),
    ensures
        forall|k: int| 0 <= k < best.len() ==> found.contains(#[trigger] best[k]),
        best.no_duplicates(),
        best.len() == if max < each_once(found).len() {
            max
        } else {
            each_once(found).len()
        },
        max >= each_once(found).len() ==> forall|i: int|
            0 <= i < found.len() ==> best.contains(#[trigger] found[i]),
{
    let files = each_once(found);
    lemma_each_once(found);
    let order = choose|order: Seq<int>| #[trigger]
        is_ranking(files, pattern, order) && best == order.take(
            if max < order.len() {
                max as int
            } else {
                order.len() as int
            },
        ).map_values(|i: int| files[i]);
    assert forall|k: int| 0 <= k < best.len() implies found.contains(#[trigger] best[k]) by {
        assert(best[k] == files[order[k]]);
        assert(files.contains(files[order[k]]));
    }
    assert forall|k: int, l: int| 0 <= k < best.len() && 0 <= l < best.len() && k != l implies
        best[k] != best[l] by {
        if k < l {
            assert(ranks_before(files, pattern, order[k], order[l]));
        } else {
            assert(ranks_before(files, pattern, order[l], order[k]));
        }
        assert(best[k] == files[order[k]]);
        assert(best[l] == files[order[l]]);
        assert(order[k] != order[l]);
    }
    if max >= files.len() {
        lemma_ranking_covers(files, pattern, order);
        assert forall|i: int| 0 <= i < found.len() implies best.contains(#[trigger] found[i]) by {
            assert(files.contains(found[i]));
            let j = choose|j: int| 0 <= j < files.len() && files[j] == found[i];
            assert(order.contains(j));
            let k = choose|k: int| 0 <= k < order.len() && order[k] == j;
            assert(best[k] == found[i]);
        }
    }
}

proof fn lemma_each_once(paths: Seq<Seq<char>>)
    ensures
        each_once(paths).no_duplicates(),
        forall|p: Seq<char>| #[trigger] each_once(paths).contains(p) <==> paths.contains(p),
    decreases paths.len(),
{
    if paths.len() > 0 {
        let rest = paths.drop_last();
        lemma_each_once(rest);
        let before = each_once(rest);
        let last = paths.last();
        assert forall|p: Seq<char>| #[trigger] each_once(paths).contains(p) <==> paths.contains(
            p,
        ) by {
            if paths.contains(p) {
                let i = choose|i: int| 0 <= i < paths.len() && paths[i] == p;
                if i < rest.len() {
                    assert(rest[i] == p);
                    assert(before.contains(p));
                    let j = choose|j: int| 0 <= j < before.len() && before[j] == p;
                    assert(each_once(paths)[j] == p);
                } else if !before.contains(last) {
                    assert(each_once(paths)[before.len() as int] == p);
                }
            }
            if each_once(paths).contains(p) {
                let j = choose|j: int| 0 <= j < each_once(paths).len() && each_once(paths)[j] == p;
                if j < before.len() {
                    assert(before[j] == p);
                    assert(before.contains(p));
                    let i = choose|i: int| 0 <= i < rest.len() && rest[i] == p;
                    assert(paths[i] == p);
                } else {
                    assert(paths[paths.len() - 1] == p);
                }
            }
        }
    }
}

/// A file with the name that was looked for stands before every file with another name; of two files
/// that both have it or both have not, the one that lies less deep stands first.
pub proof fn law_best_files_come_first(
    found: Seq<Seq<char>>,
    pattern: Seq<char>,
    max: nat,
    best: Seq<Seq<char>>,
    k: int,
    l: int,
)
    requires
        are_best_files(each_once(found), pattern, max, best),
        pattern.len() > 0,
        0 <= k < l < best.len(),
    ensures
        file_name_of(best[l]) == Some(pattern) ==> file_name_of(best[k]) == Some(pattern),
        (file_name_of(best[k]) == Some(pattern)) == (file_name_of(best[l]) == Some(pattern))
            ==> components_of(best[k]).len() <= components_of(best[l]).len(),
{
    let files = each_once(found);
    let order = choose|order: Seq<int>| #[trigger]
        is_ranking(files, pattern, order) && best == order.take(
            if max < order.len() {
                max as int
            } else {
                order.len() as int
            },
        ).map_values(|i: int| files[i]);
    assert(best[k] == files[order[k]]);
    assert(best[l] == files[order[l]]);
    assert(ranks_before(files, pattern, order[k], order[l]));
}

/// A file is left out only where as many files are kept as were asked for, and none of them has less
/// of a claim than the file.
pub proof fn law_left_out_files_have_no_better_claim(
    found: Seq<Seq<char>>,
    pattern: Seq<char>,
    max: nat,
    best: Seq<Seq<char>>,
    left_out: Seq<char>,
    k: int,
)
    requires
        are_best_files(each_once(found), pattern, max, best),
        pattern.len() > 0,
        found.contains(left_out),
        !best.contains(left_out),
        0 <= k < best.len(),
    ensures
        best.len() == max,
        file_name_of(left_out) == Some(pattern) ==> file_name_of(best[k]) == Some(pattern),
        (file_name_of(best[k]) == Some(pattern)) == (file_name_of(left_out) == Some(pattern))
            ==> components_of(best[k]).len() <= components_of(left_out).len(),
{
    let files = each_once(found);
    lemma_each_once(found);
    let order = choose|order: Seq<int>| #[trigger]
        is_ranking(files, pattern, order) && best == order.take(
            if max < order.len() {
                max as int
            } else {
                order.len() as int
            },
        ).map_values(|i: int| files[i]);
    lemma_ranking_covers(files, pattern, order);
    assert(files.contains(left_out));
    let j = choose|j: int| 0 <= j < files.len() && files[j] == left_out;
    assert(order.contains(j));
    let m = choose|m: int| 0 <= m < order.len() && order[m] == j;
    if m < best.len() {
        assert(best[m] == left_out);
    }
    assert(best[k] == files[order[k]]);
    assert(ranks_before(files, pattern, order[k], order[m]));
}

proof fn lemma_each_once_order(found: Seq<Seq<char>>, a: int, b: int)
    requires
        0 <= a < b < each_once(found).len(),
    ensures
        exists|i: int|
            #![trigger found[i]]
            0 <= i < found.len() && found[i] == each_once(found)[a] && forall|j: int|
                0 <= j <= i ==> #[trigger] found[j] != each_once(found)[b],
    decreases found.len(),
{
    let rest = found.drop_last();
    let before = each_once(rest);
    let all = each_once(found);
    lemma_each_once(rest);
    assert(all[a] == before[a]);
    if b < before.len() {
        lemma_each_once_order(rest, a, b);
        let i = choose|i: int|
            #![trigger rest[i]]
            0 <= i < rest.len() && rest[i] == before[a] && forall|j: int|
                0 <= j <= i ==> #[trigger] rest[j] != before[b];
        assert(found[i] == rest[i]);
        assert forall|j: int| 0 <= j <= i implies #[trigger] found[j] != all[b] by {
            assert(found[j] == rest[j]);
        }
    } else {
        assert(before.contains(before[a]));
        assert(rest.contains(before[a]));
        let i = choose|i: int| 0 <= i < rest.len() && rest[i] == before[a];
        assert(found[i] == rest[i]);
        assert forall|j: int| 0 <= j <= i implies #[trigger] found[j] != all[b] by {
            assert(found[j] == rest[j]);
            assert(rest.contains(rest[j]));
            assert(before.contains(rest[j]));
            assert(!before.contains(found.last()));
        }
    }
}

/// Two files with the same claim stand in the order in which they were found.
pub proof fn law_files_with_one_claim_keep_their_order(
    found: Seq<Seq<char>>,
    pattern: Seq<char>,
    max: nat,
    best: Seq<Seq<char>>,
    k: int,
    l: int,
)
    requires
        are_best_files(each_once(found), pattern, max, best),
        pattern.len() > 0,
        0 <= k < l < best.len(),
        (file_name_of(best[k]) == Some(pattern)) == (file_name_of(best[l]) == Some(pattern)),
        components_of(best[k]).len() == components_of(best[l]).len(),
    ensures
        exists|i: int|
            #![trigger found[i]]
            0 <= i < found.len() && found[i] == best[k] && forall|j: int|
                0 <= j <= i ==> #[trigger] found[j] != best[l],
{
    let files = each_once(found);
    let order = choose|order: Seq<int>| #[trigger]
        is_ranking(files, pattern, order) && best == order.take(
            if max < order.len() {
                max as int
            } else {
                order.len() as int
            },
        ).map_values(|i: int| files[i]);
    assert(best[k] == files[order[k]]);
    assert(best[l] == files[order[l]]);
    assert(ranks_before(files, pattern, order[k], order[l]));
    lemma_each_once_order(found, order[k], order[l]);
}

/// A path is taken as it is where it is absolute and a file lies there, then from the root of the
/// project; only then the project is searched for the name, and for nothing but the name.
pub proof fn law_file_is_looked_for_in_order(
    root: Seq<char>,
    path: Seq<char>,
    facts: FileFacts,
    step: FileStep,
)
    requires
        step_from(root, path, facts, step),
    ensures
        is_absolute_path(path) && facts.absolute_exists is None ==> (
        step matches FileStep::AskAbsolute(asked) && asked@ == path),
        is_absolute_path(path) && facts.absolute_exists == Some(true) ==> (
        step matches FileStep::Found { path: own, note } && own@ == path && note is None),
        !is_absolute_path(path) || facts.absolute_exists == Some(false) ==> {
            &&& facts.relative_exists is None ==> (step matches FileStep::AskRelative(asked)
                && asked@ == joined_path(root, path))
            &&& facts.relative_exists == Some(true) ==> (
            step matches FileStep::Found { path: own, note } && own@ == joined_path(root, path)
                && note is None)
            &&& facts.relative_exists == Some(false) && facts.found is None ==> {
                let name = match file_name_of(path) {
                    Some(name) => name,
                    None => path,
                };
                step matches FileStep::Search { filename, patterns } && filename@ == name
                    && patterns@.len() == 4 && patterns@[0]@ == joined_path(root, "**/"@ + name)
                    && patterns@[1]@ == joined_path(root, "**/*"@ + name + "*"@) && patterns@[2]@
                    == joined_path(root, "**/"@ + name + ".rs"@) && patterns@[3]@ == joined_path(
                    root,
                    "**/*"@ + name + ".rs"@,
                )
            }
            &&& facts.relative_exists == Some(false) && facts.found is Some ==> step is Found
                || step is Missing
        },
{
    if let FileStep::Search { filename: _, patterns } = step {
        law_texts_are_those_of_the_strings(patterns@);
        assert(texts(patterns@).len() == 4);
        assert(texts(patterns@)[0] == patterns@[0]@);
        assert(texts(patterns@)[1] == patterns@[1]@);
        assert(texts(patterns@)[2] == patterns@[2]@);
        assert(texts(patterns@)[3] == patterns@[3]@);
    }
}

/// A search that found files ends with one of them, and no file that was found has a better claim to
/// the name; there is a note on it where others were found.
pub proof fn law_search_ends_with_the_best_file(
    root: Seq<char>,
    path: Seq<char>,
    name: Seq<char>,
    found: Seq<Seq<char>>,
    step: FileStep,
    other: Seq<char>,
)
    requires
        search_ends(root, path, found, step),
        file_name_of(path) == Some(name),
        name.len() > 0,
        found.contains(other),
    ensures
        step matches FileStep::Found { path: own, note } && {
            &&& found.contains(own@)
            &&& file_name_of(other) == Some(name) ==> file_name_of(own@) == Some(name)
            &&& (file_name_of(own@) == Some(name)) == (file_name_of(other) == Some(name))
                ==> components_of(own@).len() <= components_of(other).len()
            &&& other != own@ ==> note is Some
            &&& note matches Some(text) ==> ("Multiple files found for '"@ + path + "'. Using: "@
                + own@ + ". Alternatives: "@).is_prefix_of(text@)
        },
{
    let matches = choose|matches: Seq<Seq<char>>| #[trigger]
        are_best_files(each_once(found), searched_name(path), MAX_MATCHES as nat, matches)
            && match step {
            FileStep::Missing(message) => matches.len() == 0 && message@
                == "No files found matching '"@ + path + "' in project '"@ + root + "'"@,
            FileStep::Found { path: file, note } => matches.len() > 0 && file@ == matches[0]
                && opt_text(note) == if matches.len() == 1 {
                None::<Seq<char>>
            } else {
                Some(several_note(path, matches))
            },
            _ => false,
        };
    law_best_files_were_found(found, name, MAX_MATCHES as nat, matches);
    lemma_each_once(found);
    assert(each_once(found).contains(other));
    assert(each_once(found).len() > 0);
    if matches.contains(other) {
        let k = choose|k: int| 0 <= k < matches.len() && matches[k] == other;
        if k > 0 {
            law_best_files_come_first(found, name, MAX_MATCHES as nat, matches, 0, k);
        }
    } else {
        law_left_out_files_have_no_better_claim(
            found,
            name,
            MAX_MATCHES as nat,
            matches,
            other,
            0,
        );
    }
}

/// A search that found no file ends with an error that names the path and the project.
pub proof fn law_empty_search_is_an_error(
    root: Seq<char>,
    path: Seq<char>,
    step: FileStep,
)
    requires
        search_ends(root, path, Seq::empty(), step),
    ensures
        step matches FileStep::Missing(message) && message@ == "No files found matching '"@ + path
            + "' in project '"@ + root + "'"@,
{
    let found = Seq::<Seq<char>>::empty();
    let matches = choose|matches: Seq<Seq<char>>| #[trigger]
        are_best_files(each_once(found), searched_name(path), MAX_MATCHES as nat, matches)
            && match step {
            FileStep::Missing(message) => matches.len() == 0 && message@
                == "No files found matching '"@ + path + "' in project '"@ + root + "'"@,
            FileStep::Found { path: file, note } => matches.len() > 0 && file@ == matches[0]
                && opt_text(note) == if matches.len() == 1 {
                None::<Seq<char>>
            } else {
                Some(several_note(path, matches))
            },
            _ => false,
        };
    law_best_files_were_found(found, searched_name(path), MAX_MATCHES as nat, matches);
}

/// The note on a file that is one of several names the others, in their order, up to four of them.
pub proof fn law_note_names_the_other_files(
    root: Seq<char>,
    path: Seq<char>,
    found: Seq<Seq<char>>,
    step: FileStep,
)
    requires
        search_ends(root, path, found, step),
    ensures
        step matches FileStep::Found { path: own, note: Some(text) } ==> exists|
            others: Seq<Seq<char>>,
        |
            #![trigger joined(others, ", "@)]
            {
                &&& 1 <= others.len() <= 4
                &&& text@ == "Multiple files found for '"@ + path + "'. Using: "@ + own@
                    + ". Alternatives: "@ + joined(others, ", "@)
                &&& are_best_files(
                    each_once(found),
                    match file_name_of(path) {
                        Some(name) => name,
                        None => path,
                    },
                    5,
                    seq![own@] + others,
                )
            },
{
    if let FileStep::Found { path: own, note: Some(text) } = step {
        let matches = choose|matches: Seq<Seq<char>>| #[trigger]
            are_best_files(each_once(found), searched_name(path), MAX_MATCHES as nat, matches)
                && match step {
                FileStep::Missing(message) => matches.len() == 0 && message@
                    == "No files found matching '"@ + path + "' in project '"@ + root + "'"@,
                FileStep::Found { path: file, note } => matches.len() > 0 && file@ == matches[0]
                    && opt_text(note) == if matches.len() == 1 {
                    None::<Seq<char>>
                } else {
                    Some(several_note(path, matches))
                },
                _ => false,
            };
        law_best_files_were_found(found, searched_name(path), MAX_MATCHES as nat, matches);
        let others = matches.skip(1);
        assert(matches =~= seq![own@] + others);
        assert(text@ == several_note(path, matches));
        assert(joined(others, ", "@) == joined(matches.skip(1), ", "@));
    }
}

}
