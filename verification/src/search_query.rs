//! Queries: what they look for, and where.

use crate::search_files::{SearchPage, SearchResultItem};
use crate::search_index;
use crate::search_index::SearchFilter;
use crate::text;
use crate::text::{
    chars_of, join_texts, push_decimal, same_text, split_whitespace, string_of, to_lowercase,
};
use vstd::prelude::*;

verus! {

/// How many results a page may hold.
pub const QUERY_LIMIT_MAX: u32 = 500;

/// How many rows a statement writes or reads.
pub const ROW_CHUNK: usize = 500;

/// How many changes are taken over to the query index at a time.
pub const CHANGE_BATCH: usize = 4_096;

/// What a query looks for: its words, small.
pub open spec fn terms_of(query: Seq<char>) -> Seq<Seq<char>> {
    text::not_empty(text::words(query).map_values(|w: Seq<char>| text::lowercase(w)))
}

pub fn query_terms(query: &str) -> (r: Vec<String>)
    ensures
        text::texts(r@) == terms_of(query@),
{
    let words = split_whitespace(query);
    let ghost small = text::words(query@).map_values(|w: Seq<char>| text::lowercase(w));
    let mut r: Vec<String> = Vec::new();
    assert(text::texts(r@) =~= text::not_empty(small.take(0)));
    for i in 0..words.len()
        invariant
            text::spelled(words@) == text::words(query@),
            small == text::words(query@).map_values(|w: Seq<char>| text::lowercase(w)),
            text::texts(r@) == text::not_empty(small.take(i as int)),
    {
        let ghost before = text::texts(r@);
        assert(text::spelled(words@)[i as int] == words@[i as int]@);
        assert(small.take(i + 1).drop_last() =~= small.take(i as int));
        let term = to_lowercase(string_of(words[i].as_slice()).as_str());
        assert(term@ == small[i as int]);
        if term.as_str().unicode_len() > 0 {
            r.push(term);
            assert(text::texts(r@) =~= before.push(term@));
        }
    }
    assert(text::spelled(words@).len() == words@.len());
    assert(small.take(small.len() as int) =~= small);
    r
}

/// A sign of paths, which the query index does not know.
pub open spec fn path_sign(c: char) -> bool {
    c == '\\' || c == '/' || c == ':'
}

pub open spec fn holds_path_sign(s: Seq<char>) -> bool {
    exists|i: int| 0 <= i < s.len() && path_sign(#[trigger] s[i])
}

/// The query index can be asked: no term looks for a part of a path.
pub open spec fn index_serves(terms: Seq<Seq<char>>) -> bool {
    forall|i: int| 0 <= i < terms.len() ==> !holds_path_sign(#[trigger] terms[i])
}

pub fn can_use_index(terms: &Vec<String>) -> (r: bool)
    ensures
        r == index_serves(text::texts(terms@)),
{
    let ghost all = text::texts(terms@);
    for i in 0..terms.len()
        invariant
            all == text::texts(terms@),
            forall|j: int| 0 <= j < i ==> !holds_path_sign(#[trigger] all[j]),
    {
        let chars = chars_of(terms[i].as_str());
        assert(all[i as int] == chars@);
        for k in 0..chars.len()
            invariant
                i < terms@.len(),
                all == text::texts(terms@),
                chars@ == all[i as int],
                forall|j: int| 0 <= j < k ==> !path_sign(#[trigger] chars@[j]),
        {
            if chars[k] == '\\' || chars[k] == '/' || chars[k] == ':' {
                assert(path_sign(all[i as int][k as int]));
                assert(holds_path_sign(all[i as int]));
                return false;
            }
        }
    }
    true
}

/// How many results are shown: at least one, and not too many.
pub fn page_limit(limit: u32) -> (r: u32)
    ensures
        1 <= r <= QUERY_LIMIT_MAX,
        1 <= limit <= QUERY_LIMIT_MAX ==> r == limit,
        limit == 0 ==> r == 1,
        limit > QUERY_LIMIT_MAX ==> r == QUERY_LIMIT_MAX,
        r < search_index::MAX_QUERY_CANDIDATES,
{
    if limit < 1 {
        1
    } else if limit > QUERY_LIMIT_MAX {
        QUERY_LIMIT_MAX
    } else {
        limit
    }
}

/// How a query is answered.
#[derive(Debug)]
pub enum QueryPlan {
    /// It looks for nothing: the page is empty.
    Nothing(SearchPage),
    /// The query index is asked, and the stored files where it cannot answer.
    Index { terms: Vec<String>, filter: SearchFilter, limit: u32 },
    /// The stored files are asked.
    Store { terms: Vec<String>, filter: SearchFilter, limit: u32 },
}

/// Plans a query; `phase` is what the search is doing.
pub fn plan_query(query: &str, filter: &str, limit: u32, phase: &str) -> (r: QueryPlan)
    ensures
        ({
            let terms = terms_of(query@);
            let limited: u32 = if limit < 1 {
                1
            } else if limit > QUERY_LIMIT_MAX {
                QUERY_LIMIT_MAX
            } else {
                limit
            };
            match r {
                QueryPlan::Nothing(page) => terms.len() == 0 && page.items@.len() == 0
                    && page.total == 0 && page.partial == (phase@ != "ready"@) && page.elapsed_ms
                    == 0,
                QueryPlan::Index { terms: t, filter: f, limit: l } => terms.len() > 0
                    && index_serves(terms) && text::texts(t@) == terms && f == SearchFilter::named(
                    filter@,
                ) && l == limited,
                QueryPlan::Store { terms: t, filter: f, limit: l } => terms.len() > 0
                    && !index_serves(terms) && text::texts(t@) == terms && f
                    == SearchFilter::named(filter@) && l == limited,
            }
        }),
{
    let terms = query_terms(query);
    assert(text::texts(terms@).len() == terms@.len());
    if terms.len() == 0 {
        return QueryPlan::Nothing(
            SearchPage {
                items: Vec::new(),
                total: 0,
                partial: !same_text(phase, "ready"),
                elapsed_ms: 0,
            },
        );
    }
    let filter = SearchFilter::from_name(filter);
    let limit: u32 = page_limit(limit);
    if can_use_index(&terms) {
        QueryPlan::Index { terms, filter, limit }
    } else {
        QueryPlan::Store { terms, filter, limit }
    }
}

/// The page that answers a query.
pub fn answered_page(items: Vec<SearchResultItem>, total: u64, phase: &str, elapsed_ms: u64) -> (r:
    SearchPage)
    ensures
        r.items == items,
        r.total == total,
        r.partial == (phase@ != "ready"@),
        r.elapsed_ms == elapsed_ms,
{
    SearchPage { items, total, partial: !same_text(phase, "ready"), elapsed_ms }
}

/// The condition that the term at a place is part of name or path.
pub open spec fn term_condition(i: int) -> Seq<char> {
    "instr(lower(f.name || ' ' || f.path), ?"@ + text::decimal((i + 1) as nat) + ") > 0"@
}

pub open spec fn term_conditions(n: nat) -> Seq<Seq<char>> {
    Seq::new(n, |i: int| term_condition(i))
}

/// The conditions of a query of the stored files: every term occurs.
pub open spec fn like_conditions(n: nat, filter: SearchFilter) -> Seq<char> {
    " WHERE "@ + text::joined_by(term_conditions(n), " AND "@) + filter.sql_text()
}

/// The conditions of a query of the stored files for `n` terms.
pub fn like_where(n: usize, filter: SearchFilter) -> (r: String)
    requires
        n < usize::MAX,
    ensures
        r@ == like_conditions(n as nat, filter),
{
    let mut clauses: Vec<String> = Vec::new();
    assert(text::texts(clauses@) =~= term_conditions(0));
    for i in 0..n
        invariant
            n < usize::MAX,
            text::texts(clauses@) == term_conditions(i as nat),
    {
        let ghost before = text::texts(clauses@);
        let mut clause = "instr(lower(f.name || ' ' || f.path), ?".to_owned();
        push_decimal(&mut clause, i as u64 + 1);
        clause.append(") > 0");
        assert(clause@ =~= term_condition(i as int));
        clauses.push(clause);
        assert(text::texts(clauses@) =~= before.push(clause@));
        assert(term_conditions((i + 1) as nat) =~= before.push(clause@));
    }
    let mut r = " WHERE ".to_owned();
    r.append(join_texts(&clauses, " AND ").as_str());
    r.append(filter.sql());
    r
}

/// The statement that counts the stored files a query finds.
pub fn like_count_sql(n: usize, filter: SearchFilter) -> (r: String)
    requires
        n < usize::MAX,
    ensures
        r@ == "SELECT COUNT(*) FROM files f"@ + like_conditions(n as nat, filter),
{
    let mut r = "SELECT COUNT(*) FROM files f".to_owned();
    r.append(like_where(n, filter).as_str());
    r
}

/// The statement that reads a page of the stored files a query finds:
/// short names first, then by name and path.
pub open spec fn like_page_text(n: nat, filter: SearchFilter, offset: u32, limit: u32) -> Seq<
    char,
> {
    "SELECT f.path, f.name, f.parent, f.size, f.modified_ms, f.is_log, f.is_archive FROM files f"@
        + like_conditions(n, filter)
        + " ORDER BY length(f.name), f.name COLLATE NOCASE, f.path COLLATE NOCASE LIMIT "@
        + text::decimal(limit as nat) + " OFFSET "@ + text::decimal(offset as nat)
}

pub fn like_page_sql(n: usize, filter: SearchFilter, offset: u32, limit: u32) -> (r: String)
    requires
        n < usize::MAX,
    ensures
        r@ == like_page_text(n as nat, filter, offset, limit),
{
    let mut r =
        "SELECT f.path, f.name, f.parent, f.size, f.modified_ms, f.is_log, f.is_archive FROM files f".to_owned();
    r.append(like_where(n, filter).as_str());
    r.append(" ORDER BY length(f.name), f.name COLLATE NOCASE, f.path COLLATE NOCASE LIMIT ");
    push_decimal(&mut r, limit as u64);
    r.append(" OFFSET ");
    push_decimal(&mut r, offset as u64);
    r
}

/// `n` places for values, separated by commas.
pub fn placeholders(group: &str, n: usize) -> (r: String)
    ensures
        r@ == text::joined_by(Seq::new(n as nat, |i: int| group@), ","@),
{
    let mut all: Vec<String> = Vec::new();
    assert(text::texts(all@) =~= Seq::new(0, |i: int| group@));
    for i in 0..n
        invariant
            text::texts(all@) == Seq::new(i as nat, |j: int| group@),
    {
        let ghost before = text::texts(all@);
        all.push(group.to_owned());
        assert(text::texts(all@) =~= before.push(group@));
        assert(Seq::new((i + 1) as nat, |j: int| group@) =~= before.push(group@));
    }
    join_texts(&all, ",")
}

/// The operation of a change that stored a file; others removed it.
pub const UPSERTED: i64 = 1;

/// A change of the stored files that the index does not know yet.
#[derive(Debug)]
pub struct IndexChange {
    pub path: String,
    pub operation: i64,
}

/// The paths of changes.
pub open spec fn change_paths(changes: Seq<IndexChange>) -> Seq<Seq<char>> {
    changes.map_values(|c: IndexChange| c.path@)
}

/// The paths of changes that stored a file.
pub open spec fn stored_paths(changes: Seq<IndexChange>) -> Seq<Seq<char>>
    decreases changes.len(),
{
    if changes.len() == 0 {
        Seq::empty()
    } else {
        let earlier = stored_paths(changes.drop_last());
        if changes.last().operation == UPSERTED {
            earlier.push(changes.last().path@)
        } else {
            earlier
        }
    }
}

/// What changes do to the index: every path is taken out of it, and the
/// second ones are put in again as they are stored.
pub fn split_changes(changes: &Vec<IndexChange>) -> (r: (Vec<String>, Vec<String>))
    ensures
        text::texts(r.0@) == change_paths(changes@),
        text::texts(r.1@) == stored_paths(changes@),
{
    let mut all: Vec<String> = Vec::new();
    let mut stored: Vec<String> = Vec::new();
    assert(text::texts(all@) =~= change_paths(changes@).take(0));
    assert(text::texts(stored@) =~= stored_paths(changes@.take(0)));
    for i in 0..changes.len()
        invariant
            text::texts(all@) == change_paths(changes@).take(i as int),
            text::texts(stored@) == stored_paths(changes@.take(i as int)),
    {
        let ghost all_before = all@;
        let ghost stored_before = stored@;
        assert(changes@.take(i + 1).drop_last() =~= changes@.take(i as int));
        all.push(changes[i].path.clone());
        assert(text::texts(all@) =~= text::texts(all_before).push(changes@[i as int].path@));
        assert(change_paths(changes@).take(i + 1) =~= change_paths(changes@).take(i as int).push(
            changes@[i as int].path@,
        ));
        if changes[i].operation == UPSERTED {
            stored.push(changes[i].path.clone());
            assert(text::texts(stored@) =~= text::texts(stored_before).push(
                changes@[i as int].path@,
            ));
        }
    }
    assert(change_paths(changes@).take(changes@.len() as int) =~= change_paths(changes@));
    assert(changes@.take(changes@.len() as int) =~= changes@);
    (all, stored)
}

/// A change that stored a file also takes its former entry out: the index
/// never holds a path twice.
pub proof fn stored_paths_are_taken_out_first(changes: Seq<IndexChange>, path: Seq<char>)
    requires
        stored_paths(changes).contains(path),
    ensures
        change_paths(changes).contains(path),
    decreases changes.len(),
{
    let all = change_paths(changes);
    if changes.last().operation == UPSERTED && changes.last().path@ == path {
        assert(all[changes.len() - 1] == path);
    } else {
        let earlier = stored_paths(changes.drop_last());
        let i = stored_paths(changes).index_of(path);
        assert(earlier[i] == path);
        stored_paths_are_taken_out_first(changes.drop_last(), path);
        let j = change_paths(changes.drop_last()).index_of(path);
        assert(all[j] == path);
    }
}

/// A query looks for all its words, in small letters and in their order,
/// whatever blanks stand between them.
pub proof fn query_looks_for_all_its_words(words: Seq<Seq<char>>, blank: char)
    requires
        text::white_space(blank),
        forall|i: int| 0 <= i < words.len() ==> (#[trigger] words[i]).len() > 0 && text::lowercase(
            words[i],
        ).len() > 0,
        forall|i: int, j: int|
            0 <= i < words.len() && 0 <= j < words[i].len() ==> !text::white_space(
                #[trigger] words[i][j],
            ),
    ensures
        terms_of(text::joined_by(words, seq![blank])) == words.map_values(
            |w: Seq<char>| text::lowercase(w),
        ),
{
    text::words_come_apart(words, blank);
    let small = words.map_values(|w: Seq<char>| text::lowercase(w));
    assert forall|i: int| 0 <= i < small.len() implies (#[trigger] small[i]).len() > 0 by {
        assert(words[i].len() > 0);
    }
    text::all_are_not_empty(small);
}

/// The query index is asked unless a term holds a slash, a backslash or a
/// colon.
pub proof fn index_serves_names(terms: Seq<Seq<char>>)
    ensures
        index_serves(terms) <==> forall|i: int|
            0 <= i < terms.len() ==> !(#[trigger] terms[i]).contains('\\') && !terms[i].contains('/')
                && !terms[i].contains(':'),
{
    assert forall|i: int| 0 <= i < terms.len() implies holds_path_sign(#[trigger] terms[i]) == (
    terms[i].contains('\\') || terms[i].contains('/') || terms[i].contains(':')) by {
        let s = terms[i];
        if holds_path_sign(s) {
            let j = choose|j: int| 0 <= j < s.len() && path_sign(#[trigger] s[j]);
            assert(s.contains(s[j]));
        }
        if s.contains('\\') || s.contains('/') || s.contains(':') {
            let c = if s.contains('\\') {
                '\\'
            } else if s.contains('/') {
                '/'
            } else {
                ':'
            };
            let j = choose|j: int| 0 <= j < s.len() && s[j] == c;
            assert(path_sign(s[j]));
        }
    }
}

/// Every change that stored a file puts its path in again, in the order of the
/// changes; no other does.
pub proof fn stored_files_are_put_in_again(changes: Seq<IndexChange>)
    ensures
        stored_paths(changes) == change_paths(
            changes.filter(|c: IndexChange| c.operation == 1),
        ),
    decreases changes.len(),
{
    let p = |c: IndexChange| c.operation == 1;
    reveal(Seq::filter);
    if changes.len() > 0 {
        stored_files_are_put_in_again(changes.drop_last());
        let earlier = changes.drop_last().filter(p);
        if p(changes.last()) {
            assert(change_paths(earlier.push(changes.last())) =~= change_paths(earlier).push(
                changes.last().path@,
            ));
        }
    } else {
        assert(stored_paths(changes) =~= change_paths(changes.filter(p)));
    }
}

/// A query of the stored files asks of each term, by its number, that it is a
/// part of name and path in small letters, and reads the page asked for: short
/// names first.
pub proof fn every_term_is_asked_for(
    n: nat,
    filter: SearchFilter,
    offset: u32,
    limit: u32,
    i: int,
)
    requires
        0 <= i < n,
    ensures
        term_conditions(n).len() == n,
        term_conditions(n)[i] == "instr(lower(f.name || ' ' || f.path), ?"@ + text::decimal(
            (i + 1) as nat,
        ) + ") > 0"@,
        like_conditions(n, filter) == " WHERE "@ + text::joined_by(term_conditions(n), " AND "@)
            + filter.sql_text(),
        like_page_text(n, filter, offset, limit)
            == "SELECT f.path, f.name, f.parent, f.size, f.modified_ms, f.is_log, f.is_archive FROM files f"@
            + like_conditions(n, filter)
            + " ORDER BY length(f.name), f.name COLLATE NOCASE, f.path COLLATE NOCASE LIMIT "@
            + text::decimal(limit as nat) + " OFFSET "@ + text::decimal(offset as nat),
{
}

} // verus!
