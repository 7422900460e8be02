//! Symbols of a project: which of several symbols with one name is meant.
use crate::edits::Range;
use crate::paths::{file_path_of, opt_str, path_ends_with, path_has_tail, uri_to_path};
use crate::text::{
    contains, count, count_of, ends_with, join, joined, law_count_is_of_equals, lowercase, occurs,
    texts,
};
use lsp_types::SymbolKind;
use rayon::iter::{IntoParallelRefIterator, ParallelIterator};
use vstd::prelude::*;

verus! {

/// A symbol and where it is defined.
#[derive(Clone, Debug)]
pub struct SymbolInformation {
    pub name: String,
    pub kind: i32,
    pub uri: String,
    pub range: Range,
    pub container_name: Option<String>,
}

/// A symbol of a workspace, whose range a server may leave out.
#[derive(Clone, Debug)]
pub struct WorkspaceSymbol {
    pub name: String,
    pub kind: i32,
    pub uri: String,
    pub range: Option<Range>,
    pub container_name: Option<String>,
}

/// The two forms in which a server lists symbols.
#[derive(Clone, Debug)]
pub enum WorkspaceSymbolResponse {
    Flat(Vec<SymbolInformation>),
    Nested(Vec<WorkspaceSymbol>),
}

/// The name of a kind of symbol.
pub uninterp spec fn kind_name_of(kind: i32) -> Seq<char>;

/// The form that `{:?}` gives an `lsp_types::SymbolKind`: the name of the kind with that number,
/// or, where no kind has it, the name of the type with the number in brackets.
#[verifier::external_body]
pub(crate) fn kind_name(kind: i32) -> (res: String)
    ensures
        res@ == kind_name_of(kind),
{
    let kind: Option<SymbolKind> = serde_json::from_value(kind.into()).ok();
    kind.map(|kind| format!("{:?}", kind)).unwrap_or_default()
}

/// The path of the file in which a symbol is defined, if its URI names one.
pub open spec fn path_of(symbol: SymbolInformation) -> Option<Seq<char>> {
    file_path_of(symbol.uri@)
}

/// The text ends like a source file in a common language.
pub open spec fn is_source(path: Seq<char>) -> bool {
    ||| ".rs"@.is_suffix_of(path)
    ||| ".ts"@.is_suffix_of(path)
    ||| ".js"@.is_suffix_of(path)
    ||| ".py"@.is_suffix_of(path)
    ||| ".java"@.is_suffix_of(path)
    ||| ".cpp"@.is_suffix_of(path)
    ||| ".c"@.is_suffix_of(path)
    ||| ".h"@.is_suffix_of(path)
}

/// How much a file is to be preferred, by its path in lower case.
pub open spec fn path_score(path: Seq<char>) -> int {
    let sources: int = if occurs(path, "/src/"@) || occurs(path, "\\src\\"@) {
        50
    } else {
        0
    };
    let tests: int = if occurs(path, "test"@) || occurs(path, "spec"@) {
        30
    } else {
        0
    };
    let generated: int = if occurs(path, "generated"@) || occurs(path, "build"@) || occurs(
        path,
        "target"@,
    ) {
        40
    } else {
        0
    };
    let extension: int = if is_source(path) {
        20
    } else {
        0
    };
    let root: int = if "lib.rs"@.is_suffix_of(path) || "main.rs"@.is_suffix_of(path) {
        30
    } else if "mod.rs"@.is_suffix_of(path) {
        10
    } else {
        0
    };
    100 + sources - tests - generated + extension - 2 * (count_of(path, '/') + count_of(path, '\\'))
        + root
}

/// How much a symbol is to be preferred. One without a file has no score.
pub open spec fn symbol_score(symbol: SymbolInformation) -> int {
    match path_of(symbol) {
        Some(path) => path_score(lowercase(path)),
        None => 0,
    }
}

/// `i` is the first of the symbols with the highest score.
pub open spec fn is_first_best(group: Seq<SymbolInformation>, i: int) -> bool {
    &&& 0 <= i < group.len()
    &&& forall|j: int|
        0 <= j < group.len() ==> symbol_score(#[trigger] group[j]) <= symbol_score(group[i])
    &&& forall|j: int| 0 <= j < i ==> symbol_score(#[trigger] group[j]) < symbol_score(group[i])
}

/// The first of the symbols with the highest score.
pub open spec fn best_of(group: Seq<SymbolInformation>) -> SymbolInformation {
    group[choose|i: int| is_first_best(group, i)]
}

/// What symbols that stand for the same thing share: their name and their kind.
pub open spec fn symbol_key(symbol: SymbolInformation) -> Seq<char> {
    symbol.name@ + "-"@ + kind_name_of(symbol.kind)
}

/// The keys of the symbols, each once, in the order in which they first appear.
pub open spec fn keys_of(symbols: Seq<SymbolInformation>) -> Seq<Seq<char>>
    decreases symbols.len(),
{
    if symbols.len() == 0 {
        Seq::empty()
    } else {
        let before = keys_of(symbols.drop_last());
        let key = symbol_key(symbols.last());
        if before.contains(key) {
            before
        } else {
            before.push(key)
        }
    }
}

/// The symbols with a key, in their order.
pub open spec fn group_of(symbols: Seq<SymbolInformation>, key: Seq<char>) -> Seq<
    SymbolInformation,
>
    decreases symbols.len(),
{
    if symbols.len() == 0 {
        Seq::empty()
    } else if symbol_key(symbols.last()) == key {
        group_of(symbols.drop_last(), key).push(symbols.last())
    } else {
        group_of(symbols.drop_last(), key)
    }
}

/// One symbol for each key: the best of those that share it.
pub open spec fn deduplicated(symbols: Seq<SymbolInformation>) -> Seq<SymbolInformation> {
    keys_of(symbols).map_values(|key: Seq<char>| best_of(group_of(symbols, key)))
}

impl SymbolInformation {
    /// A copy of the symbol.
    pub fn copy(&self) -> (res: SymbolInformation)
        ensures
            res == *self,
    {
        let container_name = match &self.container_name {
            Some(name) => Some(name.clone()),
            None => None,
        };
        SymbolInformation {
            name: self.name.clone(),
            kind: self.kind,
            uri: self.uri.clone(),
            range: self.range,
            container_name,
        }
    }
}

fn has_source_extension(path: &str) -> (res: bool)
    ensures
        res == is_source(path@),
{
    ends_with(path, ".rs") || ends_with(path, ".ts") || ends_with(path, ".js") || ends_with(
        path,
        ".py",
    ) || ends_with(path, ".java") || ends_with(path, ".cpp") || ends_with(path, ".c")
        || ends_with(path, ".h")
}

/// How much a symbol is to be preferred, by where it is defined.
pub fn calculate_symbol_score(symbol: &SymbolInformation) -> (res: i128)
    ensures
        res == symbol_score(*symbol),
{
    let file_path = match uri_to_path(symbol.uri.as_str()) {
        Some(path) => path,
        None => return 0,
    };
    let lower = file_path.as_str().to_lowercase();
    let path = lower.as_str();
    let mut score: i128 = 100;
    if contains(path, "/src/") || contains(path, "\\src\\") {
        score = score + 50;
    }
    if contains(path, "test") || contains(path, "spec") {
        score = score - 30;
    }
    if contains(path, "generated") || contains(path, "build") || contains(path, "target") {
        score = score - 40;
    }
    if has_source_extension(path) {
        score = score + 20;
    }
    let depth: i128 = count(path, '/') as i128 + count(path, '\\') as i128;
    score = score - depth * 2;
    if ends_with(path, "lib.rs") || ends_with(path, "main.rs") {
        score = score + 30;
    } else if ends_with(path, "mod.rs") {
        score = score + 10;
    }
    score
}

proof fn lemma_first_best_unique(group: Seq<SymbolInformation>, i: int)
    requires
        is_first_best(group, i),
    ensures
        best_of(group) == group[i],
{
    let k = choose|k: int| is_first_best(group, k);
    assert(is_first_best(group, k));
    assert(symbol_score(group[k]) == symbol_score(group[i]));
    assert(k == i);
}

/// The best of symbols that share a name and a kind; the first of them where several are best.
pub fn choose_best_symbol(symbols: &Vec<SymbolInformation>) -> (res: SymbolInformation)
    requires
        symbols@.len() > 0,
    ensures
        res == best_of(symbols@),
{
    let mut best: usize = 0;
    let mut best_score: i128 = calculate_symbol_score(&symbols[0]);
    let mut i: usize = 1;
    while i < symbols.len()
        invariant
            best < i <= symbols@.len(),
            best_score == symbol_score(symbols@[best as int]),
            forall|j: int|
                0 <= j < i ==> symbol_score(#[trigger] symbols@[j]) <= best_score,
            forall|j: int|
                0 <= j < best ==> symbol_score(#[trigger] symbols@[j]) < best_score,
        decreases symbols@.len() - i,
    {
        let score: i128 = calculate_symbol_score(&symbols[i]);
        if score > best_score {
            best = i;
            best_score = score;
        }
        i += 1;
    }
    proof {
        lemma_first_best_unique(symbols@, best as int);
    }
    symbols[best].copy()
}

/// A parallel map of `choose_best_symbol` over groups, by rayon's `par_iter`, `map` and
/// `collect`. rayon collects the results of an indexed parallel iterator in the order of its
/// items, so the symbols stand as their groups do.
#[verifier::external_body]
fn choose_in_parallel(groups: &Vec<Vec<SymbolInformation>>) -> (res: Vec<SymbolInformation>)
    requires
        forall|i: int| 0 <= i < groups@.len() ==> (#[trigger] groups@[i])@.len() > 0,
    ensures
        res@.len() == groups@.len(),
        forall|i: int| 0 <= i < groups@.len() ==> #[trigger] res@[i] == best_of(groups@[i]@),
{
    groups.par_iter().map(|group| choose_best_symbol(group)).collect()
}

fn choose_in_turn(groups: &Vec<Vec<SymbolInformation>>) -> (res: Vec<SymbolInformation>)
    requires
        forall|i: int| 0 <= i < groups@.len() ==> (#[trigger] groups@[i])@.len() > 0,
    ensures
        res@.len() == groups@.len(),
        forall|i: int| 0 <= i < groups@.len() ==> #[trigger] res@[i] == best_of(groups@[i]@),
{
    let mut out: Vec<SymbolInformation> = Vec::new();
    let mut i: usize = 0;
    while i < groups.len()
        invariant
            forall|i: int| 0 <= i < groups@.len() ==> (#[trigger] groups@[i])@.len() > 0,
            i <= groups@.len(),
            out@.len() == i,
            forall|j: int| 0 <= j < i ==> #[trigger] out@[j] == best_of(groups@[j]@),
        decreases groups@.len() - i,
    {
        assert(groups@[i as int]@.len() > 0);
        out.push(choose_best_symbol(&groups[i]));
        i += 1;
    }
    out
}

fn find_key(keys: &Vec<String>, key: &String) -> (res: Option<usize>)
    ensures
        match res {
            Some(i) => i < keys@.len() && keys@[i as int]@ == key@,
            None => !texts(keys@).contains(key@),
        },
{
    let mut i: usize = 0;
    while i < keys.len()
        invariant
            i <= keys@.len(),
            forall|j: int| 0 <= j < i ==> (#[trigger] keys@[j])@ != key@,
        decreases keys@.len() - i,
    {
        if keys[i] == *key {
            return Some(i);
        }
        i += 1;
    }
    proof {
        if texts(keys@).contains(key@) {
            let j = choose|j: int| 0 <= j < texts(keys@).len() && texts(keys@)[j] == key@;
            assert(keys@[j]@ == key@);
        }
    }
    None
}

/// Each group holds the symbols with its key.
pub open spec fn are_grouped(
    symbols: Seq<SymbolInformation>,
    keys: Seq<Seq<char>>,
    groups: Seq<Vec<SymbolInformation>>,
) -> bool {
    &&& keys == keys_of(symbols)
    &&& groups.len() == keys.len()
    &&& forall|i: int| 0 <= i < groups.len() ==> (#[trigger] groups[i])@ == group_of(symbols, keys[i])
}

proof fn lemma_keys(symbols: Seq<SymbolInformation>)
    ensures
        forall|i: int, j: int|
            0 <= i < j < keys_of(symbols).len() ==> keys_of(symbols)[i] != keys_of(symbols)[j],
        forall|key: Seq<char>|
            keys_of(symbols).contains(key) <==> #[trigger] group_of(symbols, key).len() > 0,
    decreases symbols.len(),
{
    if symbols.len() > 0 {
        let rest = symbols.drop_last();
        lemma_keys(rest);
        let last = symbol_key(symbols.last());
        let before = keys_of(rest);
        assert forall|key: Seq<char>|
            keys_of(symbols).contains(key) <==> #[trigger] group_of(symbols, key).len() > 0 by {
            assert(before.contains(key) <==> group_of(rest, key).len() > 0);
            if !before.contains(last) {
                assert(before.push(last)[before.len() as int] == last);
                if before.contains(key) {
                    let i = choose|i: int| 0 <= i < before.len() && before[i] == key;
                    assert(before.push(last)[i] == key);
                }
                if before.push(last).contains(key) && key != last {
                    let i = choose|i: int|
                        0 <= i < before.push(last).len() && before.push(last)[i] == key;
                    assert(before[i] == key);
                }
            }
        }
    }
}

/// One symbol for each name and kind: the best of those that share them.
pub fn deduplicate_symbols(symbols: &Vec<SymbolInformation>) -> (res: Vec<SymbolInformation>)
    ensures
        res@ == deduplicated(symbols@),
{
    let mut keys: Vec<String> = Vec::new();
    let mut groups: Vec<Vec<SymbolInformation>> = Vec::new();
    let mut i: usize = 0;
    assert(texts(keys@) =~= keys_of(symbols@.take(0)));
    while i < symbols.len()
        invariant
            i <= symbols@.len(),
            are_grouped(symbols@.take(i as int), texts(keys@), groups@),
        decreases symbols@.len() - i,
    {
        let ghost done = symbols@.take(i as int);
        let ghost next = symbols@.take(i + 1);
        proof {
            assert(next.drop_last() =~= done);
            assert(next.last() == symbols@[i as int]);
            lemma_keys(done);
        }
        let symbol = &symbols[i];
        let kind = kind_name(symbol.kind);
        let key = symbol.name.clone().concat("-").concat(kind.as_str());
        let ghost old_keys = texts(keys@);
        let ghost old_groups = groups@;
        match find_key(&keys, &key) {
            Some(at) => {
                let mut group = groups.remove(at);
                group.push(symbol.copy());
                groups.insert(at, group);
                assert(old_keys[at as int] == key@);
                assert forall|k: int| 0 <= k < groups@.len() implies (#[trigger] groups@[k])@
                    == group_of(next, texts(keys@)[k]) by {
                    if k == at {
                        assert(groups@[k]@ == old_groups[k]@.push(*symbol));
                    } else {
                        assert(groups@[k] == old_groups[k]);
                        assert(old_keys[k] != key@);
                    }
                }
            },
            None => {
                let mut group: Vec<SymbolInformation> = Vec::new();
                group.push(symbol.copy());
                keys.push(key);
                groups.push(group);
                assert(texts(keys@) =~= old_keys.push(key@));
                assert forall|k: int| 0 <= k < groups@.len() implies (#[trigger] groups@[k])@
                    == group_of(next, texts(keys@)[k]) by {
                    if k < old_groups.len() {
                        assert(groups@[k] == old_groups[k]);
                        assert(old_keys.contains(old_keys[k]));
                    } else {
                        assert(group_of(done, key@).len() == 0);
                        assert(groups@[k]@ =~= group_of(next, key@));
                    }
                }
            },
        }
        i += 1;
    }
    assert(symbols@.take(i as int) =~= symbols@);
    proof {
        lemma_keys(symbols@);
        assert forall|k: int| 0 <= k < groups@.len() implies (#[trigger] groups@[k])@.len() > 0 by {
            assert(keys_of(symbols@).contains(keys_of(symbols@)[k]));
        }
    }
    let res = if groups.len() > 10 {
        choose_in_parallel(&groups)
    } else {
        choose_in_turn(&groups)
    };
    assert(res@ =~= deduplicated(symbols@));
    res
}

/// The symbols of a workspace that have a range.
pub open spec fn flattened(symbols: Seq<WorkspaceSymbol>) -> Seq<SymbolInformation>
    decreases symbols.len(),
{
    if symbols.len() == 0 {
        Seq::empty()
    } else {
        let rest = flattened(symbols.drop_last());
        let last = symbols.last();
        match last.range {
            Some(range) => rest.push(
                SymbolInformation {
                    name: last.name,
                    kind: last.kind,
                    uri: last.uri,
                    range,
                    container_name: last.container_name,
                },
            ),
            None => rest,
        }
    }
}

/// The symbols that a server listed. A server that answers nothing lists none.
pub open spec fn listed_symbols(reply: Option<WorkspaceSymbolResponse>) -> Seq<SymbolInformation> {
    match reply {
        None => Seq::empty(),
        Some(WorkspaceSymbolResponse::Flat(symbols)) => symbols@,
        Some(WorkspaceSymbolResponse::Nested(symbols)) => flattened(symbols@),
    }
}

/// The file of the symbol answers to the hint: its path ends with the hint as a path, or holds
/// the hint as a text.
pub open spec fn answers_hint(symbol: SymbolInformation, hint: Seq<char>) -> bool {
    match path_of(symbol) {
        Some(path) => path_ends_with(path, hint) || occurs(path, hint),
        None => false,
    }
}

/// `i` is the first of the symbols that answers to the hint.
pub open spec fn is_first_hinted(
    symbols: Seq<SymbolInformation>,
    hint: Seq<char>,
    i: int,
) -> bool {
    &&& 0 <= i < symbols.len()
    &&& answers_hint(symbols[i], hint)
    &&& forall|j: int| 0 <= j < i ==> !answers_hint(#[trigger] symbols[j], hint)
}

/// How a symbol is shown where several may be meant.
pub open spec fn candidate_line(symbol: SymbolInformation, path: Seq<char>) -> Seq<char> {
    "- `"@ + symbol.name@ + "` (kind: "@ + kind_name_of(symbol.kind) + ") in `"@ + path + "`"@
}

/// The lines that show the symbols whose URI names a file.
pub open spec fn candidate_lines(symbols: Seq<SymbolInformation>) -> Seq<Seq<char>>
    decreases symbols.len(),
{
    if symbols.len() == 0 {
        Seq::empty()
    } else {
        let rest = candidate_lines(symbols.drop_last());
        match path_of(symbols.last()) {
            Some(path) => rest.push(candidate_line(symbols.last(), path)),
            None => rest,
        }
    }
}

/// The message where several symbols may be meant.
pub open spec fn ambiguous_message(name: Seq<char>, symbols: Seq<SymbolInformation>) -> Seq<char> {
    "Symbol '"@ + name
        + "' is ambiguous. Please provide a more specific file_hint or ask the user to clarify from the following candidates:\n"@
        + joined(candidate_lines(symbols), "\n"@)
}

/// The message where no symbol has the name.
pub open spec fn unknown_message(name: Seq<char>) -> Seq<char> {
    "Symbol '"@ + name + "' not found in project."@
}

/// What comes of a search for a symbol among the symbols that a server listed.
pub open spec fn resolution(
    symbols: Seq<SymbolInformation>,
    name: Seq<char>,
    hint: Option<Seq<char>>,
    res: Result<SymbolInformation, String>,
) -> bool {
    let distinct = deduplicated(symbols);
    if symbols.len() == 0 {
        res matches Err(message) && message@ == unknown_message(name)
    } else if symbols.len() == 1 {
        res == Ok::<SymbolInformation, String>(symbols[0])
    } else if distinct.len() == 1 {
        res == Ok::<SymbolInformation, String>(distinct[0])
    } else if hint is Some && exists|i: int| is_first_hinted(distinct, hint->0, i) {
        exists|i: int|
            is_first_hinted(distinct, hint->0, i) && res == Ok::<SymbolInformation, String>(
                distinct[i],
            )
    } else {
        res matches Err(message) && message@ == ambiguous_message(name, distinct)
    }
}

fn flatten(symbols: Vec<WorkspaceSymbol>) -> (res: Vec<SymbolInformation>)
    ensures
        res@ == flattened(symbols@),
{
    let mut out: Vec<SymbolInformation> = Vec::new();
    let mut i: usize = 0;
    while i < symbols.len()
        invariant
            i <= symbols@.len(),
            out@ == flattened(symbols@.take(i as int)),
        decreases symbols@.len() - i,
    {
        assert(symbols@.take(i + 1).drop_last() =~= symbols@.take(i as int));
        let symbol = &symbols[i];
        if let Some(range) = symbol.range {
            let container_name = match &symbol.container_name {
                Some(name) => Some(name.clone()),
                None => None,
            };
            out.push(
                SymbolInformation {
                    name: symbol.name.clone(),
                    kind: symbol.kind,
                    uri: symbol.uri.clone(),
                    range,
                    container_name,
                },
            );
        }
        i += 1;
    }
    assert(symbols@.take(i as int) =~= symbols@);
    out
}

fn find_hinted(symbols: &Vec<SymbolInformation>, hint: &str) -> (res: Option<usize>)
    ensures
        match res {
            Some(i) => is_first_hinted(symbols@, hint@, i as int),
            None => forall|i: int|
                0 <= i < symbols@.len() ==> !answers_hint(#[trigger] symbols@[i], hint@),
        },
{
    let mut i: usize = 0;
    while i < symbols.len()
        invariant
            i <= symbols@.len(),
            forall|j: int| 0 <= j < i ==> !answers_hint(#[trigger] symbols@[j], hint@),
        decreases symbols@.len() - i,
    {
        if let Some(path) = uri_to_path(symbols[i].uri.as_str()) {
            if path_has_tail(path.as_str(), hint) || contains(path.as_str(), hint) {
                return Some(i);
            }
        }
        i += 1;
    }
    None
}

fn list_candidates(symbols: &Vec<SymbolInformation>) -> (res: Vec<String>)
    ensures
        texts(res@) == candidate_lines(symbols@),
{
    let mut out: Vec<String> = Vec::new();
    let mut i: usize = 0;
    assert(texts(out@) =~= candidate_lines(symbols@.take(0)));
    while i < symbols.len()
        invariant
            i <= symbols@.len(),
            texts(out@) == candidate_lines(symbols@.take(i as int)),
        decreases symbols@.len() - i,
    {
        assert(symbols@.take(i + 1).drop_last() =~= symbols@.take(i as int));
        let symbol = &symbols[i];
        let ghost before = out@;
        if let Some(path) = uri_to_path(symbol.uri.as_str()) {
            let kind = kind_name(symbol.kind);
            let line = "- `".to_owned().concat(symbol.name.as_str()).concat("` (kind: ").concat(
                kind.as_str(),
            ).concat(") in `").concat(path.as_str()).concat("`");
            assert(line@ == candidate_line(*symbol, path@));
            out.push(line);
            assert(texts(out@) =~= texts(before).push(line@));
        }
        i += 1;
    }
    assert(symbols@.take(i as int) =~= symbols@);
    out
}

/// Finds the symbol that a name and a hint mean among the symbols that a server listed for the
/// name. The reply of the server is an error text, nothing, or a list in one of two forms.
pub fn resolve_symbol_in_project(
    reply: Result<Option<WorkspaceSymbolResponse>, String>,
    symbol_name: &str,
    file_hint: Option<&str>,
) -> (res: Result<SymbolInformation, String>)
    ensures
        match reply {
            Err(e) => res matches Err(message) && message@
                == "LSP error while searching for symbol: "@ + e@,
            Ok(listed) => resolution(
                listed_symbols(listed),
                symbol_name@,
                opt_str(file_hint),
                res,
            ),
        },
{
    let listed = match reply {
        Err(e) => {
            return Err("LSP error while searching for symbol: ".to_owned().concat(e.as_str()));
        },
        Ok(listed) => listed,
    };
    let symbols: Vec<SymbolInformation> = match listed {
        None => Vec::new(),
        Some(WorkspaceSymbolResponse::Flat(symbols)) => symbols,
        Some(WorkspaceSymbolResponse::Nested(symbols)) => flatten(symbols),
    };
    if symbols.len() == 0 {
        return Err("Symbol '".to_owned().concat(symbol_name).concat("' not found in project."));
    }
    if symbols.len() == 1 {
        return Ok(symbols[0].copy());
    }
    let distinct = deduplicate_symbols(&symbols);
    if distinct.len() == 1 {
        return Ok(distinct[0].copy());
    }
    if let Some(hint) = file_hint {
        if let Some(i) = find_hinted(&distinct, hint) {
            return Ok(distinct[i].copy());
        }
    }
    let candidates = list_candidates(&distinct);
    let lines = join(&candidates, "\n");
    Err(
        "Symbol '".to_owned().concat(symbol_name).concat(
            "' is ambiguous. Please provide a more specific file_hint or ask the user to clarify from the following candidates:\n",
        ).concat(lines.as_str()),
    )
}

proof fn lemma_first_best_exists(group: Seq<SymbolInformation>)
    requires
        group.len() > 0,
    ensures
        exists|i: int| is_first_best(group, i),
    decreases group.len(),
{
    if group.len() == 1 {
        assert(is_first_best(group, 0));
    } else {
        let rest = group.drop_last();
        lemma_first_best_exists(rest);
        let i = choose|i: int| is_first_best(rest, i);
        let n = group.len() - 1;
        assert forall|j: int| 0 <= j < n implies rest[j] == #[trigger] group[j] by {}
        if symbol_score(group[n]) > symbol_score(group[i]) {
            assert(is_first_best(group, n));
        } else {
            assert(is_first_best(group, i));
        }
    }
}

proof fn lemma_group(symbols: Seq<SymbolInformation>, key: Seq<char>)
    ensures
        forall|i: int|
            0 <= i < group_of(symbols, key).len() ==> symbols.contains(
                #[trigger] group_of(symbols, key)[i],
            ) && symbol_key(group_of(symbols, key)[i]) == key,
        forall|j: int|
            0 <= j < symbols.len() && symbol_key(symbols[j]) == key ==> group_of(
                symbols,
                key,
            ).contains(#[trigger] symbols[j]),
    decreases symbols.len(),
{
    if symbols.len() > 0 {
        let rest = symbols.drop_last();
        lemma_group(rest, key);
        let group = group_of(symbols, key);
        let before = group_of(rest, key);
        assert forall|i: int| 0 <= i < group.len() implies symbols.contains(#[trigger] group[i])
            && symbol_key(group[i]) == key by {
            if i < before.len() {
                assert(group[i] == before[i]);
                let j = choose|j: int| 0 <= j < rest.len() && rest[j] == before[i];
                assert(symbols[j] == group[i]);
            } else {
                assert(symbols[symbols.len() - 1] == group[i]);
            }
        }
        assert forall|j: int|
            0 <= j < symbols.len() && symbol_key(symbols[j]) == key implies group.contains(
            #[trigger] symbols[j],
        ) by {
            if j < rest.len() {
                assert(rest[j] == symbols[j]);
                let i = choose|i: int| 0 <= i < before.len() && before[i] == rest[j];
                assert(group[i] == symbols[j]);
            } else {
                assert(group[group.len() - 1] == symbols[j]);
            }
        }
    }
}

proof fn lemma_best(symbols: Seq<SymbolInformation>, key: Seq<char>)
    requires
        keys_of(symbols).contains(key),
    ensures
        group_of(symbols, key).contains(best_of(group_of(symbols, key))),
        symbols.contains(best_of(group_of(symbols, key))),
        symbol_key(best_of(group_of(symbols, key))) == key,
        forall|j: int|
            0 <= j < symbols.len() && symbol_key(symbols[j]) == key ==> symbol_score(
                #[trigger] symbols[j],
            ) <= symbol_score(best_of(group_of(symbols, key))),
{
    let group = group_of(symbols, key);
    lemma_keys(symbols);
    lemma_group(symbols, key);
    lemma_first_best_exists(group);
    let i = choose|i: int| is_first_best(group, i);
    assert(best_of(group) == group[i]);
    assert forall|j: int| 0 <= j < symbols.len() && symbol_key(symbols[j]) == key implies
        symbol_score(#[trigger] symbols[j]) <= symbol_score(best_of(group)) by {
        let k = choose|k: int| 0 <= k < group.len() && group[k] == symbols[j];
        assert(symbol_score(group[k]) <= symbol_score(group[i]));
    }
}

/// No two of the symbols that remain share a name and a kind, each is one of the symbols that
/// were given, and for each of those one remains that shares its name and kind and is preferred
/// at least as much.
pub proof fn law_one_symbol_remains(symbols: Seq<SymbolInformation>)
    ensures
        forall|i: int, j: int|
            0 <= i < j < deduplicated(symbols).len() ==> symbol_key(
                #[trigger] deduplicated(symbols)[i],
            ) != symbol_key(#[trigger] deduplicated(symbols)[j]),
        forall|i: int|
            0 <= i < deduplicated(symbols).len() ==> symbols.contains(
                #[trigger] deduplicated(symbols)[i],
            ),
        forall|k: int|
            0 <= k < symbols.len() ==> exists|i: int|
                0 <= i < deduplicated(symbols).len() && symbol_key(
                    #[trigger] deduplicated(symbols)[i],
                ) == symbol_key(#[trigger] symbols[k]) && symbol_score(deduplicated(symbols)[i])
                    >= symbol_score(symbols[k]),
{
    let keys = keys_of(symbols);
    let d = deduplicated(symbols);
    lemma_keys(symbols);
    assert forall|i: int| 0 <= i < d.len() implies symbols.contains(#[trigger] d[i]) && symbol_key(
        d[i],
    ) == keys[i] by {
        assert(keys.contains(keys[i]));
        lemma_best(symbols, keys[i]);
    }
    assert forall|k: int| 0 <= k < symbols.len() implies exists|i: int|
        0 <= i < d.len() && symbol_key(#[trigger] d[i]) == symbol_key(#[trigger] symbols[k])
            && symbol_score(d[i]) >= symbol_score(symbols[k]) by {
        let key = symbol_key(symbols[k]);
        lemma_group(symbols, key);
        assert(group_of(symbols, key).contains(symbols[k]));
        assert(keys.contains(key));
        lemma_best(symbols, key);
        let i = choose|i: int| 0 <= i < keys.len() && keys[i] == key;
        assert(d[i] == best_of(group_of(symbols, key)));
    }
}

/// A search that succeeds finds one of the symbols that the server listed.
pub proof fn law_resolved_symbol_is_listed(
    symbols: Seq<SymbolInformation>,
    name: Seq<char>,
    hint: Option<Seq<char>>,
    symbol: SymbolInformation,
)
    requires
        resolution(symbols, name, hint, Ok(symbol)),
    ensures
        symbols.contains(symbol),
{
    law_one_symbol_remains(symbols);
    if symbols.len() == 1 {
        assert(symbols[0] == symbol);
    }
}

/// A second round leaves out nothing more.
pub proof fn law_remaining_symbols_are_kept(symbols: Seq<SymbolInformation>)
    ensures
        deduplicated(deduplicated(symbols)) == deduplicated(symbols),
{
    let d = deduplicated(symbols);
    law_one_symbol_remains(symbols);
    lemma_distinct_kept(d);
}

proof fn lemma_distinct_kept(d: Seq<SymbolInformation>)
    requires
        forall|i: int, j: int|
            0 <= i < j < d.len() ==> symbol_key(#[trigger] d[i]) != symbol_key(#[trigger] d[j]),
    ensures
        deduplicated(d) == d,
{
    lemma_distinct_keys(d);
    assert forall|i: int| 0 <= i < d.len() implies best_of(group_of(d, symbol_key(d[i])))
        == #[trigger] d[i] by {
        let key = symbol_key(d[i]);
        lemma_group(d, key);
        assert(group_of(d, key).contains(d[i]));
        lemma_keys(d);
        assert(keys_of(d)[i] == key);
        lemma_best(d, key);
        let best = best_of(group_of(d, key));
        let j = choose|j: int| 0 <= j < d.len() && d[j] == best;
        assert(j == i);
    }
    assert(deduplicated(d) =~= d);
}

proof fn lemma_distinct_keys(d: Seq<SymbolInformation>)
    requires
        forall|i: int, j: int|
            0 <= i < j < d.len() ==> symbol_key(#[trigger] d[i]) != symbol_key(#[trigger] d[j]),
    ensures
        keys_of(d).len() == d.len(),
        forall|i: int| 0 <= i < d.len() ==> #[trigger] keys_of(d)[i] == symbol_key(d[i]),
    decreases d.len(),
{
    if d.len() > 0 {
        let rest = d.drop_last();
        assert forall|i: int, j: int| 0 <= i < j < rest.len() implies symbol_key(
            #[trigger] rest[i],
        ) != symbol_key(#[trigger] rest[j]) by {
            assert(rest[i] == d[i] && rest[j] == d[j]);
        }
        lemma_distinct_keys(rest);
        let before = keys_of(rest);
        if before.contains(symbol_key(d.last())) {
            let i = choose|i: int| 0 <= i < before.len() && before[i] == symbol_key(d.last());
            assert(symbol_key(rest[i]) == symbol_key(d.last()));
            assert(rest[i] == d[i] && d.last() == d[d.len() - 1]);
        }
        assert forall|i: int| 0 <= i < d.len() implies #[trigger] keys_of(d)[i] == symbol_key(
            d[i],
        ) by {
            if i < rest.len() {
                assert(keys_of(d)[i] == before[i]);
                assert(rest[i] == d[i]);
            }
        }
    }
}

/// The symbols of a workspace that are searched are those that have a range, in their order and with
/// all that is known of them. A list that is flat is searched as it is.
pub proof fn law_symbols_with_a_range_are_searched(
    flat: Vec<SymbolInformation>,
    nested: Vec<WorkspaceSymbol>,
)
    ensures
        listed_symbols(Some(WorkspaceSymbolResponse::Flat(flat))) == flat@,
        listed_symbols(Some(WorkspaceSymbolResponse::Nested(nested))) == nested@.filter_map(
            |symbol: WorkspaceSymbol|
                match symbol.range {
                    Some(range) => Some(
                        SymbolInformation {
                            name: symbol.name,
                            kind: symbol.kind,
                            uri: symbol.uri,
                            range,
                            container_name: symbol.container_name,
                        },
                    ),
                    None => None,
                },
        ),
        listed_symbols(None).len() == 0,
{
    lemma_flattened(nested@);
}

proof fn lemma_flattened(symbols: Seq<WorkspaceSymbol>)
    ensures
        flattened(symbols) == symbols.filter_map(
            |symbol: WorkspaceSymbol|
                match symbol.range {
                    Some(range) => Some(
                        SymbolInformation {
                            name: symbol.name,
                            kind: symbol.kind,
                            uri: symbol.uri,
                            range,
                            container_name: symbol.container_name,
                        },
                    ),
                    None => None,
                },
        ),
    decreases symbols.len(),
{
    if symbols.len() > 0 {
        lemma_flattened(symbols.drop_last());
    }
}

proof fn lemma_first_hinted(symbols: Seq<SymbolInformation>, hint: Seq<char>, i: int)
    requires
        0 <= i < symbols.len(),
        answers_hint(symbols[i], hint),
    ensures
        exists|k: int| is_first_hinted(symbols, hint, k),
    decreases i,
{
    if exists|j: int| 0 <= j < i && answers_hint(#[trigger] symbols[j], hint) {
        let j = choose|j: int| 0 <= j < i && answers_hint(#[trigger] symbols[j], hint);
        lemma_first_hinted(symbols, hint, j);
    } else {
        assert(is_first_hinted(symbols, hint, i));
    }
}

/// Where several symbols remain, a hint finds the first of them whose file it tells: one whose path
/// holds the hint as a text, or ends with it by its components. The search fails exactly where
/// there is no such symbol.
pub proof fn law_hint_finds_the_symbol(
    symbols: Seq<SymbolInformation>,
    name: Seq<char>,
    hint: Seq<char>,
    res: Result<SymbolInformation, String>,
)
    requires
        resolution(symbols, name, Some(hint), res),
        symbols.len() > 1,
        deduplicated(symbols).len() > 1,
    ensures
        ({
            let left = deduplicated(symbols);
            &&& res is Ok <==> exists|i: int|
                0 <= i < left.len() && (file_path_of((#[trigger] left[i]).uri@) matches Some(path)
                    && (occurs(path, hint) || path_ends_with(path, hint)))
            &&& res matches Ok(symbol) ==> exists|i: int|
                0 <= i < left.len() && #[trigger] left[i] == symbol && (file_path_of(
                    left[i].uri@,
                ) matches Some(path) && (occurs(path, hint) || path_ends_with(path, hint)))
                    && forall|j: int|
                    0 <= j < i ==> !(file_path_of((#[trigger] left[j]).uri@) matches Some(path)
                        && (occurs(path, hint) || path_ends_with(path, hint)))
        }),
{
    let left = deduplicated(symbols);
    assert forall|i: int| 0 <= i < left.len() implies answers_hint(#[trigger] left[i], hint) == (
    file_path_of(left[i].uri@) matches Some(path) && (occurs(path, hint) || path_ends_with(
        path,
        hint,
    ))) by {}
    if exists|i: int|
        0 <= i < left.len() && (file_path_of((#[trigger] left[i]).uri@) matches Some(path) && (
        occurs(path, hint) || path_ends_with(path, hint))) {
        let i = choose|i: int|
            0 <= i < left.len() && (file_path_of((#[trigger] left[i]).uri@) matches Some(path) && (
            occurs(path, hint) || path_ends_with(path, hint)));
        assert(answers_hint(left[i], hint));
        lemma_first_hinted(left, hint, i);
    }
    if exists|k: int| is_first_hinted(left, hint, k) {
        let k = choose|k: int|
            is_first_hinted(left, hint, k) && res == Ok::<SymbolInformation, String>(left[k]);
        assert(answers_hint(left[k], hint));
        assert forall|j: int| 0 <= j < k implies !(file_path_of(
            (#[trigger] left[j]).uri@,
        ) matches Some(path) && (occurs(path, hint) || path_ends_with(path, hint))) by {
            assert(!answers_hint(left[j], hint));
        }
        assert(res matches Ok(symbol) && left[k] == symbol);
    }
}

/// A search fails where nothing is listed, and where several symbols remain and no hint is given;
/// it succeeds where one symbol is listed or one remains, whatever the hint.
pub proof fn law_search_needs_one_symbol(
    symbols: Seq<SymbolInformation>,
    name: Seq<char>,
    hint: Option<Seq<char>>,
    res: Result<SymbolInformation, String>,
)
    requires
        resolution(symbols, name, hint, res),
    ensures
        symbols.len() == 0 ==> (res matches Err(message) && message@ == "Symbol '"@ + name
            + "' not found in project."@),
        symbols.len() == 1 ==> res == Ok::<SymbolInformation, String>(symbols[0]),
        symbols.len() > 1 && deduplicated(symbols).len() == 1 ==> res == Ok::<
            SymbolInformation,
            String,
        >(deduplicated(symbols)[0]),
        symbols.len() > 1 && deduplicated(symbols).len() > 1 && hint is None ==> res is Err,
{
}

proof fn lemma_candidates_filtered(symbols: Seq<SymbolInformation>)
    ensures
        candidate_lines(symbols) == symbols.filter_map(
            |symbol: SymbolInformation|
                match file_path_of(symbol.uri@) {
                    Some(path) => Some(
                        "- `"@ + symbol.name@ + "` (kind: "@ + kind_name_of(symbol.kind)
                            + ") in `"@ + path + "`"@,
                    ),
                    None => None,
                },
        ),
    decreases symbols.len(),
{
    if symbols.len() > 0 {
        lemma_candidates_filtered(symbols.drop_last());
    }
}

/// A search that leaves several symbols to choose from names every one of them whose URI names a
/// file, with its kind and its path, each on a line.
pub proof fn law_ambiguity_names_every_candidate(
    symbols: Seq<SymbolInformation>,
    name: Seq<char>,
    hint: Option<Seq<char>>,
    message: String,
)
    requires
        resolution(symbols, name, hint, Err(message)),
        symbols.len() > 1,
    ensures
        deduplicated(symbols).len() != 1,
        message@ == "Symbol '"@ + name
            + "' is ambiguous. Please provide a more specific file_hint or ask the user to clarify from the following candidates:\n"@
            + joined(
            deduplicated(symbols).filter_map(
                |symbol: SymbolInformation|
                    match file_path_of(symbol.uri@) {
                        Some(path) => Some(
                            "- `"@ + symbol.name@ + "` (kind: "@ + kind_name_of(symbol.kind)
                                + ") in `"@ + path + "`"@,
                        ),
                        None => None,
                    },
            ),
            "\n"@,
        ),
{
    lemma_candidates_filtered(deduplicated(symbols));
}

/// How much a file is preferred, by its path in lower case: a hundred, fifty more in a directory of
/// sources, thirty less for tests, forty less for what is generated or built, twenty more for a
/// source file, thirty more for the root of a crate or ten for that of a module, and two less for
/// each separator. A symbol without a file has nothing.
pub proof fn law_score_is_by_the_path(symbol: SymbolInformation, path: Seq<char>)
    requires
        file_path_of(symbol.uri@) matches Some(own) && lowercase(own) == path,
    ensures
        ({
            let plain = symbol_score(symbol) + 2 * (path.filter(|c: char| c == '/').len()
                + path.filter(|c: char| c == '\\').len());
            let in_sources = occurs(path, "/src/"@) || occurs(path, "\\src\\"@);
            let is_test = occurs(path, "test"@) || occurs(path, "spec"@);
            let is_made = occurs(path, "generated"@) || occurs(path, "build"@) || occurs(
                path,
                "target"@,
            );
            let is_root = "lib.rs"@.is_suffix_of(path) || "main.rs"@.is_suffix_of(path);
            let is_module = !is_root && "mod.rs"@.is_suffix_of(path);
            let is_code = ".rs"@.is_suffix_of(path) || ".ts"@.is_suffix_of(path)
                || ".js"@.is_suffix_of(path) || ".py"@.is_suffix_of(path) || ".java"@.is_suffix_of(
                path,
            ) || ".cpp"@.is_suffix_of(path) || ".c"@.is_suffix_of(path) || ".h"@.is_suffix_of(path);
            let gained = plain - (if in_sources { 50int } else { 0 }) - (if is_code {
                20int
            } else {
                0
            }) - (if is_root { 30int } else { 0 }) - (if is_module { 10int } else { 0 });
            100 == gained + (if is_test { 30int } else { 0 }) + (if is_made { 40int } else { 0 })
        }),
{
    law_count_is_of_equals(path, '/');
    law_count_is_of_equals(path, '\\');
}

/// Without a file a symbol has no score.
pub proof fn law_symbol_without_file_has_no_score(symbol: SymbolInformation)
    requires
        file_path_of(symbol.uri@) is None,
    ensures
        symbol_score(symbol) == 0,
{
}

proof fn lemma_group_order(symbols: Seq<SymbolInformation>, key: Seq<char>, i: int)
    requires
        0 <= i < group_of(symbols, key).len(),
    ensures
        exists|k: int|
            0 <= k < symbols.len() && #[trigger] symbols[k] == group_of(symbols, key)[i] && forall|
                j: int,
            |
                0 <= j < k && symbol_key(#[trigger] symbols[j]) == key ==> exists|l: int|
                    0 <= l < i && #[trigger] group_of(symbols, key)[l] == symbols[j],
    decreases symbols.len(),
{
    let rest = symbols.drop_last();
    let (group, before) = (group_of(symbols, key), group_of(rest, key));
    if i < before.len() {
        lemma_group_order(rest, key, i);
        let k = choose|k: int|
            0 <= k < rest.len() && #[trigger] rest[k] == before[i] && forall|j: int|
                0 <= j < k && symbol_key(#[trigger] rest[j]) == key ==> exists|l: int|
                    0 <= l < i && #[trigger] before[l] == rest[j];
        assert(symbols[k] == group[i]);
        assert forall|j: int| 0 <= j < k && symbol_key(#[trigger] symbols[j]) == key implies exists|
            l: int,
        |
            0 <= l < i && #[trigger] group[l] == symbols[j] by {
            assert(rest[j] == symbols[j]);
            let l = choose|l: int| 0 <= l < i && #[trigger] before[l] == rest[j];
            assert(group[l] == symbols[j]);
        }
    } else {
        let n = symbols.len() - 1;
        assert(symbols[n] == group[i]);
        lemma_group(rest, key);
        assert forall|j: int| 0 <= j < n && symbol_key(#[trigger] symbols[j]) == key implies exists|
            l: int,
        |
            0 <= l < i && #[trigger] group[l] == symbols[j] by {
            assert(rest[j] == symbols[j]);
            let l = choose|l: int| 0 <= l < before.len() && before[l] == rest[j];
            assert(group[l] == symbols[j]);
        }
    }
}

/// What remains of the symbols that share a name and a kind is one that none of them is preferred
/// to, and the first such.
pub proof fn law_first_best_symbol_remains(symbols: Seq<SymbolInformation>, i: int)
    requires
        0 <= i < deduplicated(symbols).len(),
    ensures
        exists|k: int|
            0 <= k < symbols.len() && #[trigger] symbols[k] == deduplicated(symbols)[i] && forall|
                j: int,
            |
                0 <= j < symbols.len() && (#[trigger] symbols[j]).name@ + "-"@ + kind_name_of(
                    symbols[j].kind,
                ) == symbols[k].name@ + "-"@ + kind_name_of(symbols[k].kind) ==> symbol_score(
                    symbols[j],
                ) <= symbol_score(symbols[k]) && (j < k ==> symbol_score(symbols[j])
                    < symbol_score(symbols[k])),
{
    let key = keys_of(symbols)[i];
    let group = group_of(symbols, key);
    assert(keys_of(symbols).contains(key));
    lemma_best(symbols, key);
    lemma_keys(symbols);
    lemma_first_best_exists(group);
    let b = choose|b: int| is_first_best(group, b);
    assert(best_of(group) == group[b]);
    assert(deduplicated(symbols)[i] == group[b]);
    lemma_group_order(symbols, key, b);
    let k = choose|k: int|
        0 <= k < symbols.len() && #[trigger] symbols[k] == group[b] && forall|j: int|
            0 <= j < k && symbol_key(#[trigger] symbols[j]) == key ==> exists|l: int|
                0 <= l < b && #[trigger] group[l] == symbols[j];
    assert(symbol_key(symbols[k]) == key);
    assert forall|j: int|
        0 <= j < symbols.len() && (#[trigger] symbols[j]).name@ + "-"@ + kind_name_of(
            symbols[j].kind,
        ) == symbols[k].name@ + "-"@ + kind_name_of(symbols[k].kind) implies symbol_score(symbols[j])
        <= symbol_score(symbols[k]) && (j < k ==> symbol_score(symbols[j]) < symbol_score(
        symbols[k],
    )) by {
        assert(symbol_key(symbols[j]) == key);
        if j < k {
            let l = choose|l: int| 0 <= l < b && #[trigger] group[l] == symbols[j];
            assert(symbol_score(group[l]) < symbol_score(group[b]));
        }
    }
}

/// The symbols that remain stand in the order in which their names and kinds first appear.
pub proof fn law_remaining_symbols_keep_their_order(
    symbols: Seq<SymbolInformation>,
    i: int,
    j: int,
)
    requires
        0 <= i < j < deduplicated(symbols).len(),
    ensures
        ({
            let (a, b) = (deduplicated(symbols)[i], deduplicated(symbols)[j]);
            exists|k: int|
                0 <= k < symbols.len() && (#[trigger] symbols[k]).name@ + "-"@ + kind_name_of(
                    symbols[k].kind,
                ) == a.name@ + "-"@ + kind_name_of(a.kind) && forall|l: int|
                    0 <= l <= k ==> (#[trigger] symbols[l]).name@ + "-"@ + kind_name_of(
                        symbols[l].kind,
                    ) != b.name@ + "-"@ + kind_name_of(b.kind)
        }),
{
    let keys = keys_of(symbols);
    lemma_keys(symbols);
    assert(keys.contains(keys[i]) && keys.contains(keys[j]));
    lemma_best(symbols, keys[i]);
    lemma_best(symbols, keys[j]);
    lemma_keys_order(symbols, i, j);
    let k = choose|k: int|
        0 <= k < symbols.len() && symbol_key(#[trigger] symbols[k]) == keys[i] && forall|l: int|
            0 <= l <= k ==> symbol_key(#[trigger] symbols[l]) != keys[j];
    assert forall|l: int| 0 <= l <= k implies (#[trigger] symbols[l]).name@ + "-"@ + kind_name_of(
        symbols[l].kind,
    ) != keys[j] by {
        assert(symbol_key(symbols[l]) != keys[j]);
    }
    assert(symbol_key(symbols[k]) == keys[i]);
}

proof fn lemma_keys_order(symbols: Seq<SymbolInformation>, i: int, j: int)
    requires
        0 <= i < j < keys_of(symbols).len(),
    ensures
        exists|k: int|
            0 <= k < symbols.len() && symbol_key(#[trigger] symbols[k]) == keys_of(symbols)[i]
                && forall|l: int|
                0 <= l <= k ==> symbol_key(#[trigger] symbols[l]) != keys_of(symbols)[j],
    decreases symbols.len(),
{
    let rest = symbols.drop_last();
    let (keys, before) = (keys_of(symbols), keys_of(rest));
    lemma_keys(symbols);
    if j < before.len() {
        lemma_keys_order(rest, i, j);
        let k = choose|k: int|
            0 <= k < rest.len() && symbol_key(#[trigger] rest[k]) == before[i] && forall|l: int|
                0 <= l <= k ==> symbol_key(#[trigger] rest[l]) != before[j];
        assert(symbols[k] == rest[k]);
        assert forall|l: int| 0 <= l <= k implies symbol_key(#[trigger] symbols[l]) != keys[j] by {
            assert(symbols[l] == rest[l]);
        }
    } else {
        lemma_keys(rest);
        assert(before.contains(before[i]));
        assert(group_of(rest, before[i]).len() > 0);
        lemma_group(rest, before[i]);
        let s = group_of(rest, before[i])[0];
        assert(rest.contains(s));
        let k = choose|k: int| 0 <= k < rest.len() && rest[k] == s;
        assert(symbols[k] == rest[k]);
        assert forall|l: int| 0 <= l <= k implies symbol_key(#[trigger] symbols[l]) != keys[j] by {
            assert(symbols[l] == rest[l]);
            if symbol_key(rest[l]) == keys[j] {
                lemma_group(rest, keys[j]);
                assert(group_of(rest, keys[j]).contains(rest[l]));
                assert(before.contains(keys[j]));
            }
        }
    }
}

/// Two searches for the same symbol among the same symbols come to the same: the same symbol, or the
/// same message.
pub proof fn law_one_search_has_one_result(
    symbols: Seq<SymbolInformation>,
    name: Seq<char>,
    hint: Option<Seq<char>>,
    a: Result<SymbolInformation, String>,
    b: Result<SymbolInformation, String>,
)
    requires
        resolution(symbols, name, hint, a),
        resolution(symbols, name, hint, b),
    ensures
        match (a, b) {
            (Ok(x), Ok(y)) => x == y,
            (Err(x), Err(y)) => x@ == y@,
            _ => false,
        },
{
    let left = deduplicated(symbols);
    if symbols.len() > 1 && left.len() != 1 && hint is Some && exists|i: int|
        is_first_hinted(left, hint->0, i) {
        let i = choose|i: int|
            is_first_hinted(left, hint->0, i) && a == Ok::<SymbolInformation, String>(left[i]);
        let j = choose|j: int|
            is_first_hinted(left, hint->0, j) && b == Ok::<SymbolInformation, String>(left[j]);
        if i < j {
            assert(!answers_hint(left[i], hint->0));
        } else if j < i {
            assert(!answers_hint(left[j], hint->0));
        }
    }
}

/// The best of some symbols is one of them, none of them is preferred to it, and none before it is
/// preferred as much.
pub proof fn law_best_symbol_is_the_first_that_none_is_preferred_to(
    symbols: Seq<SymbolInformation>,
)
    requires
        symbols.len() > 0,
    ensures
        exists|i: int|
            0 <= i < symbols.len() && #[trigger] symbols[i] == best_of(symbols) && forall|j: int|
                0 <= j < symbols.len() ==> symbol_score(#[trigger] symbols[j]) <= symbol_score(
                    symbols[i],
                ) && (j < i ==> symbol_score(symbols[j]) < symbol_score(symbols[i])),
{
    lemma_first_best_exists(symbols);
    let i = choose|i: int| is_first_best(symbols, i);
    assert(symbols[i] == best_of(symbols));
}

}
