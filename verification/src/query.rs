//! Turns the conditions of an entry search into the `WHERE` part of its SQL
//! and the values bound to it.

use vstd::prelude::*;
use crate::models::{EntryQuery, UserFilter};
use crate::text::{contains_pattern, contains_pattern_of, trim, trimmed};

verus! {

/// The order in which searched entries are listed: latest work date first,
/// and among those the latest update first.
pub const ORDER_BY: &'static str = " ORDER BY e.work_date DESC, e.updated_at DESC";

/// A value bound to a `?` of an SQL statement.
#[derive(Clone, Debug, PartialEq)]
pub enum SqlParam {
    Text(String),
    Integer(i64),
}

/// What a bound value stands for.
pub enum ParamValue {
    Text(Seq<char>),
    Integer(int),
}

impl View for SqlParam {
    type V = ParamValue;

    open spec fn view(&self) -> ParamValue {
        match self {
            SqlParam::Text(s) => ParamValue::Text(s@),
            SqlParam::Integer(i) => ParamValue::Integer(*i as int),
        }
    }
}

/// The condition on the keyword: it may occur in the title, content or
/// ticket.
pub open spec fn keyword_clause() -> Seq<char> {
    "(e.title LIKE ? ESCAPE '\\' OR IFNULL(e.content, '') LIKE ? ESCAPE '\\' OR IFNULL(e.ticket, '') LIKE ? ESCAPE '\\')"@
}

/// The condition on the first work date.
pub open spec fn from_clause() -> Seq<char> {
    "e.work_date >= ?"@
}

/// The condition on the last work date.
pub open spec fn to_clause() -> Seq<char> {
    "e.work_date <= ?"@
}

/// The condition that an entry has no owner.
pub open spec fn unowned_clause() -> Seq<char> {
    "e.user_id IS NULL"@
}

/// The condition that an entry belongs to one user.
pub open spec fn one_user_clause() -> Seq<char> {
    "e.user_id = ?"@
}

/// `n` placeholders separated by `, `.
pub open spec fn placeholders(n: nat) -> Seq<char>
    decreases n,
{
    if n == 0 {
        Seq::empty()
    } else if n == 1 {
        "?"@
    } else {
        placeholders((n - 1) as nat) + ", ?"@
    }
}

/// The condition that the status is one of `n` given ones.
pub open spec fn status_clause(n: nat) -> Seq<char> {
    "e.status_id IN ("@ + placeholders(n) + ")"@
}

/// The texts of `list` joined, with `sep` between each two.
pub open spec fn joined(list: Seq<Seq<char>>, sep: Seq<char>) -> Seq<char>
    decreases list.len(),
{
    if list.len() == 0 {
        Seq::empty()
    } else if list.len() == 1 {
        list[0]
    } else {
        joined(list.drop_last(), sep) + sep + list.last()
    }
}

/// Whether a search restricts the entries to one user's.
pub open spec fn restricts_to_one_user(q: EntryQuery) -> bool {
    q.user_filter == UserFilter::One && q.user_id is Some
}

/// The conditions a search imposes, in order: keyword, first date, last
/// date, statuses, owner. Blank texts and an empty status list impose none.
pub open spec fn clauses_of(q: EntryQuery) -> Seq<Seq<char>> {
    (if trimmed(q.keyword@).len() > 0 { seq![keyword_clause()] } else { Seq::empty() })
    + (if trimmed(q.date_from@).len() > 0 { seq![from_clause()] } else { Seq::empty() })
    + (if trimmed(q.date_to@).len() > 0 { seq![to_clause()] } else { Seq::empty() })
    + (if q.status_ids@.len() > 0 { seq![status_clause(q.status_ids@.len())] } else { Seq::empty() })
    + (if q.user_filter == UserFilter::Unowned {
        seq![unowned_clause()]
    } else if restricts_to_one_user(q) {
        seq![one_user_clause()]
    } else {
        Seq::empty()
    })
}

/// The values bound to the conditions, in the order of their placeholders:
/// the keyword pattern three times, the trimmed dates, the status ids, the
/// user id.
pub open spec fn params_of(q: EntryQuery) -> Seq<ParamValue> {
    let kw = trimmed(q.keyword@);
    let like = ParamValue::Text(contains_pattern(kw));
    (if kw.len() > 0 { seq![like, like, like] } else { Seq::empty() })
    + (if trimmed(q.date_from@).len() > 0 { seq![ParamValue::Text(trimmed(q.date_from@))] } else { Seq::empty() })
    + (if trimmed(q.date_to@).len() > 0 { seq![ParamValue::Text(trimmed(q.date_to@))] } else { Seq::empty() })
    + q.status_ids@.map_values(|id: i64| ParamValue::Integer(id as int))
    + (if restricts_to_one_user(q) {
        seq![ParamValue::Integer(q.user_id->0 as int)]
    } else {
        Seq::empty()
    })
}

/// The `WHERE` part: empty where there is no condition, otherwise ` WHERE `
/// and the conditions joined with ` AND `.
pub open spec fn where_of(q: EntryQuery) -> Seq<char> {
    if clauses_of(q).len() == 0 {
        Seq::empty()
    } else {
        " WHERE "@ + joined(clauses_of(q), " AND "@)
    }
}

/// Builds `n` placeholders separated by `, `.
fn placeholder_list(n: usize) -> (r: String)
    requires
        n > 0,
    ensures
        r@ == placeholders(n as nat),
{
    let mut out = String::from_str("?");
    let mut i: usize = 1;
    while i < n
        invariant
            1 <= i <= n,
            out@ == placeholders(i as nat),
        decreases n - i,
    {
        out.append(", ?");
        i = i + 1;
    }
    out
}

/// Joins the texts with `sep` between each two.
fn join_texts(list: &Vec<String>, sep: &str) -> (r: String)
    ensures
        r@ == joined(list@.map_values(|s: String| s@), sep@),
{
    let ghost views = list@.map_values(|s: String| s@);
    let mut out = String::new();
    let mut i: usize = 0;
    while i < list.len()
        invariant
            i <= list.len(),
            views == list@.map_values(|s: String| s@),
            out@ == joined(views.take(i as int), sep@),
        decreases list.len() - i,
    {
        assert(views.take(i + 1).drop_last() =~= views.take(i as int));
        if i > 0 {
            out.append(sep);
        }
        out.append(list[i].as_str());
        assert(views.take(i + 1).last() == list@[i as int]@);
        i = i + 1;
    }
    assert(views.take(list.len() as int) =~= views);
    out
}

/// Pushing onto a sequence and then viewing its elements is viewing and then
/// pushing.
proof fn lemma_push_views(s: Seq<SqlParam>, x: SqlParam)
    ensures
        s.push(x).map_values(|p: SqlParam| p@) == s.map_values(|p: SqlParam| p@).push(x@),
{
    assert(s.push(x).map_values(|p: SqlParam| p@) =~= s.map_values(|p: SqlParam| p@).push(x@));
}

/// Pushing onto a sequence of texts and then viewing them is viewing and
/// then pushing.
proof fn lemma_push_texts(s: Seq<String>, x: String)
    ensures
        s.push(x).map_values(|t: String| t@) == s.map_values(|t: String| t@).push(x@),
{
    assert(s.push(x).map_values(|t: String| t@) =~= s.map_values(|t: String| t@).push(x@));
}

/// The `WHERE` part of an entry search and the values for its
/// placeholders.
#[verifier::rlimit(60)]
pub fn build_filter(query: &EntryQuery) -> (r: (String, Vec<SqlParam>))
    ensures
        r.0@ == where_of(*query),
        r.1@.map_values(|p: SqlParam| p@) == params_of(*query),
{
    let ghost q = *query;
    let ghost kw = trimmed(q.keyword@);
    let ghost like_v = ParamValue::Text(contains_pattern(kw));
    let mut clauses: Vec<String> = Vec::new();
    let mut params: Vec<SqlParam> = Vec::new();
    let ghost cs: Seq<Seq<char>> = Seq::empty();
    let ghost ps: Seq<ParamValue> = Seq::empty();
    assert(clauses@.map_values(|t: String| t@) =~= cs);
    assert(params@.map_values(|p: SqlParam| p@) =~= ps);

    proof {
        reveal_strlit("(e.title LIKE ? ESCAPE '\\' OR IFNULL(e.content, '') LIKE ? ESCAPE '\\' OR IFNULL(e.ticket, '') LIKE ? ESCAPE '\\')");
    }
    let keyword = trim(query.keyword.as_str());
    if !keyword.is_empty() {
        let clause = String::from_str(
            "(e.title LIKE ? ESCAPE '\\' OR IFNULL(e.content, '') LIKE ? ESCAPE '\\' OR IFNULL(e.ticket, '') LIKE ? ESCAPE '\\')",
        );
        proof { lemma_push_texts(clauses@, clause); }
        clauses.push(clause);
        let like = contains_pattern_of(keyword);
        let a = SqlParam::Text(like.clone());
        proof { lemma_push_views(params@, a); }
        params.push(a);
        let b = SqlParam::Text(like.clone());
        proof { lemma_push_views(params@, b); }
        params.push(b);
        let c = SqlParam::Text(like);
        proof { lemma_push_views(params@, c); }
        params.push(c);
        proof {
            cs = cs.push(keyword_clause());
            ps = ps.push(like_v).push(like_v).push(like_v);
        }
    }
    assert(cs =~= (if kw.len() > 0 { seq![keyword_clause()] } else { Seq::<Seq<char>>::empty() }));
    assert(ps =~= (if kw.len() > 0 { seq![like_v, like_v, like_v] } else { Seq::<ParamValue>::empty() }));
    let ghost cs1 = cs;
    let ghost ps1 = ps;

    let from = trim(query.date_from.as_str());
    if !from.is_empty() {
        let clause = String::from_str("e.work_date >= ?");
        proof { lemma_push_texts(clauses@, clause); }
        clauses.push(clause);
        let a = SqlParam::Text(String::from_str(from));
        proof { lemma_push_views(params@, a); }
        params.push(a);
        proof {
            cs = cs.push(from_clause());
            ps = ps.push(ParamValue::Text(trimmed(q.date_from@)));
        }
    }
    assert(cs =~= cs1 + (if trimmed(q.date_from@).len() > 0 { seq![from_clause()] } else { Seq::<Seq<char>>::empty() }));
    assert(ps =~= ps1 + (if trimmed(q.date_from@).len() > 0 { seq![ParamValue::Text(trimmed(q.date_from@))] } else { Seq::<ParamValue>::empty() }));
    let ghost cs2 = cs;
    let ghost ps2 = ps;

    let to = trim(query.date_to.as_str());
    if !to.is_empty() {
        let clause = String::from_str("e.work_date <= ?");
        proof { lemma_push_texts(clauses@, clause); }
        clauses.push(clause);
        let a = SqlParam::Text(String::from_str(to));
        proof { lemma_push_views(params@, a); }
        params.push(a);
        proof {
            cs = cs.push(to_clause());
            ps = ps.push(ParamValue::Text(trimmed(q.date_to@)));
        }
    }
    assert(cs =~= cs2 + (if trimmed(q.date_to@).len() > 0 { seq![to_clause()] } else { Seq::<Seq<char>>::empty() }));
    assert(ps =~= ps2 + (if trimmed(q.date_to@).len() > 0 { seq![ParamValue::Text(trimmed(q.date_to@))] } else { Seq::<ParamValue>::empty() }));
    let ghost cs3 = cs;
    let ghost ps3 = ps;

    if query.status_ids.len() > 0 {
        let mut clause = String::from_str("e.status_id IN (");
        let holders = placeholder_list(query.status_ids.len());
        clause.append(holders.as_str());
        clause.append(")");
        proof { lemma_push_texts(clauses@, clause); }
        clauses.push(clause);
        proof { cs = cs.push(status_clause(query.status_ids@.len())); }
    }
    assert(cs =~= cs3 + (if q.status_ids@.len() > 0 { seq![status_clause(q.status_ids@.len())] } else { Seq::<Seq<char>>::empty() }));
    let mut k: usize = 0;
    while k < query.status_ids.len()
        invariant
            k <= query.status_ids.len(),
            q == *query,
            params@.map_values(|p: SqlParam| p@)
                == ps3 + query.status_ids@.take(k as int).map_values(|id: i64| ParamValue::Integer(id as int)),
        decreases query.status_ids.len() - k,
    {
        let a = SqlParam::Integer(query.status_ids[k]);
        proof { lemma_push_views(params@, a); }
        params.push(a);
        assert(query.status_ids@.take(k + 1).map_values(|id: i64| ParamValue::Integer(id as int))
            =~= query.status_ids@.take(k as int).map_values(|id: i64| ParamValue::Integer(id as int)).push(ParamValue::Integer(query.status_ids@[k as int] as int)));
        k = k + 1;
    }
    assert(query.status_ids@.take(query.status_ids.len() as int) =~= query.status_ids@);
    let ghost ps4 = params@.map_values(|p: SqlParam| p@);
    assert(ps4 == ps3 + q.status_ids@.map_values(|id: i64| ParamValue::Integer(id as int)));
    let ghost cs4 = cs;

    match query.user_filter {
        UserFilter::Unowned => {
            let clause = String::from_str("e.user_id IS NULL");
            proof { lemma_push_texts(clauses@, clause); }
            clauses.push(clause);
            proof { cs = cs.push(unowned_clause()); }
        },
        UserFilter::One => {
            if let Some(user_id) = query.user_id {
                let clause = String::from_str("e.user_id = ?");
                proof { lemma_push_texts(clauses@, clause); }
                clauses.push(clause);
                let a = SqlParam::Integer(user_id);
                proof { lemma_push_views(params@, a); }
                params.push(a);
                proof { cs = cs.push(one_user_clause()); }
            }
        },
        UserFilter::Any => {},
    }
    assert(cs =~= clauses_of(q));
    assert(params@.map_values(|p: SqlParam| p@) =~= params_of(q));
    assert(clauses@.map_values(|t: String| t@) == cs);

    let where_sql = if clauses.len() == 0 {
        String::new()
    } else {
        let mut sql = String::from_str(" WHERE ");
        let body = join_texts(&clauses, " AND ");
        sql.append(body.as_str());
        sql
    };
    (where_sql, params)
}


// ---------------------------------------------------------------------------
// Every placeholder gets exactly one value
// ---------------------------------------------------------------------------

/// Number of `?` in a text.
pub open spec fn placeholder_count(s: Seq<char>) -> nat
    decreases s.len(),
{
    if s.len() == 0 {
        0
    } else {
        (if s[0] == '?' { 1nat } else { 0nat }) + placeholder_count(s.drop_first())
    }
}

/// Number of `?` in all the texts of a list together.
pub open spec fn placeholder_total(list: Seq<Seq<char>>) -> nat
    decreases list.len(),
{
    if list.len() == 0 {
        0
    } else {
        placeholder_total(list.drop_last()) + placeholder_count(list.last())
    }
}

proof fn lemma_count_concat(a: Seq<char>, b: Seq<char>)
    ensures
        placeholder_count(a + b) == placeholder_count(a) + placeholder_count(b),
    decreases a.len(),
{
    if a.len() == 0 {
        assert(a + b =~= b);
    } else {
        assert((a + b).drop_first() =~= a.drop_first() + b);
        lemma_count_concat(a.drop_first(), b);
    }
}

proof fn lemma_total_concat(a: Seq<Seq<char>>, b: Seq<Seq<char>>)
    ensures
        placeholder_total(a + b) == placeholder_total(a) + placeholder_total(b),
    decreases b.len(),
{
    if b.len() == 0 {
        assert(a + b =~= a);
    } else {
        assert((a + b).drop_last() =~= a + b.drop_last());
        lemma_total_concat(a, b.drop_last());
    }
}

/// Joining with a separator that has no `?` keeps the number of `?`.
proof fn lemma_count_joined(list: Seq<Seq<char>>, sep: Seq<char>)
    requires
        placeholder_count(sep) == 0,
    ensures
        placeholder_count(joined(list, sep)) == placeholder_total(list),
    decreases list.len(),
{
    if list.len() == 1 {
        assert(list.drop_last() =~= Seq::<Seq<char>>::empty());
        assert(placeholder_total(list.drop_last()) == 0);
        assert(joined(list, sep) == list[0]);
        assert(list.last() == list[0]);
    } else if list.len() > 1 {
        lemma_count_joined(list.drop_last(), sep);
        lemma_count_concat(joined(list.drop_last(), sep), sep);
        lemma_count_concat(joined(list.drop_last(), sep) + sep, list.last());
    }
}

proof fn lemma_count_placeholders(n: nat)
    ensures
        placeholder_count(placeholders(n)) == n,
    decreases n,
{
    reveal_strlit("?");
    reveal_strlit(", ?");
    reveal_with_fuel(placeholder_count, 4);
    if n > 1 {
        lemma_count_placeholders((n - 1) as nat);
        lemma_count_concat(placeholders((n - 1) as nat), ", ?"@);
    }
}

/// A text without `?` has no placeholder.
proof fn lemma_count_none(s: Seq<char>)
    requires
        forall|i: int| 0 <= i < s.len() ==> s[i] != '?',
    ensures
        placeholder_count(s) == 0,
    decreases s.len(),
{
    if s.len() > 0 {
        assert forall|i: int| 0 <= i < s.drop_first().len() implies s.drop_first()[i] != '?' by {
            assert(s.drop_first()[i] == s[i + 1]);
        }
        lemma_count_none(s.drop_first());
    }
}

/// A text made of `?`-free pieces around the given `?` positions.
proof fn lemma_count_single(s: Seq<char>, at: int)
    requires
        0 <= at < s.len(),
        s[at] == '?',
        forall|i: int| 0 <= i < s.len() && i != at ==> s[i] != '?',
    ensures
        placeholder_count(s) == 1,
{
    let a = s.take(at);
    let b = s.skip(at + 1);
    assert(s =~= a + seq!['?'] + b);
    lemma_count_none(a);
    lemma_count_none(b);
    lemma_count_concat(a, seq!['?']);
    lemma_count_concat(a + seq!['?'], b);
    reveal_with_fuel(placeholder_count, 2);
    assert(seq!['?'].drop_first() =~= Seq::<char>::empty());
}

proof fn lemma_keyword_clause_count()
    ensures
        placeholder_count(keyword_clause()) == 3,
{
    reveal_strlit("(e.title LIKE ? ESCAPE '\\' OR IFNULL(e.content, '') LIKE ? ESCAPE '\\' OR IFNULL(e.ticket, '') LIKE ? ESCAPE '\\')");
    let s = keyword_clause();
    let a = s.take(50);
    let b = s.subrange(50, 90);
    let c = s.skip(90);
    assert(s =~= a + b + c);
    lemma_count_single(a, 14);
    lemma_count_single(b, 7);
    lemma_count_single(c, 9);
    lemma_count_concat(a, b);
    lemma_count_concat(a + b, c);
}

proof fn lemma_literal_counts()
    ensures
        placeholder_count(keyword_clause()) == 3,
        placeholder_count(from_clause()) == 1,
        placeholder_count(to_clause()) == 1,
        placeholder_count(unowned_clause()) == 0,
        placeholder_count(one_user_clause()) == 1,
        placeholder_count(" WHERE "@) == 0,
        placeholder_count(" AND "@) == 0,
        placeholder_count("e.status_id IN ("@) == 0,
        placeholder_count(")"@) == 0,
{
    lemma_keyword_clause_count();
    reveal_strlit("e.work_date >= ?");
    lemma_count_single(from_clause(), 15);
    reveal_strlit("e.work_date <= ?");
    lemma_count_single(to_clause(), 15);
    reveal_strlit("e.user_id = ?");
    lemma_count_single(one_user_clause(), 12);
    reveal_strlit("e.user_id IS NULL");
    lemma_count_none(unowned_clause());
    reveal_strlit(" WHERE ");
    lemma_count_none(" WHERE "@);
    reveal_strlit(" AND ");
    lemma_count_none(" AND "@);
    reveal_strlit("e.status_id IN (");
    lemma_count_none("e.status_id IN ("@);
    reveal_strlit(")");
    lemma_count_none(")"@);
}

/// The `WHERE` part of a search has exactly as many placeholders as there
/// are values to bind, so each value lands on its own `?`.
pub proof fn lemma_placeholders_match_params(q: EntryQuery)
    ensures
        placeholder_count(where_of(q)) == params_of(q).len(),
{
    lemma_literal_counts();
    let kw = trimmed(q.keyword@);
    let c1 = if kw.len() > 0 { seq![keyword_clause()] } else { Seq::<Seq<char>>::empty() };
    let c2 = if trimmed(q.date_from@).len() > 0 { seq![from_clause()] } else { Seq::<Seq<char>>::empty() };
    let c3 = if trimmed(q.date_to@).len() > 0 { seq![to_clause()] } else { Seq::<Seq<char>>::empty() };
    let c4 = if q.status_ids@.len() > 0 { seq![status_clause(q.status_ids@.len())] } else { Seq::<Seq<char>>::empty() };
    let c5 = if q.user_filter == UserFilter::Unowned {
        seq![unowned_clause()]
    } else if restricts_to_one_user(q) {
        seq![one_user_clause()]
    } else {
        Seq::<Seq<char>>::empty()
    };
    assert(clauses_of(q) == c1 + c2 + c3 + c4 + c5);
    lemma_total_concat(c1, c2);
    lemma_total_concat(c1 + c2, c3);
    lemma_total_concat(c1 + c2 + c3, c4);
    lemma_total_concat(c1 + c2 + c3 + c4, c5);
    reveal_with_fuel(placeholder_total, 2);
    assert(seq![keyword_clause()].drop_last() =~= Seq::<Seq<char>>::empty());
    assert(seq![from_clause()].drop_last() =~= Seq::<Seq<char>>::empty());
    assert(seq![to_clause()].drop_last() =~= Seq::<Seq<char>>::empty());
    assert(seq![unowned_clause()].drop_last() =~= Seq::<Seq<char>>::empty());
    assert(seq![one_user_clause()].drop_last() =~= Seq::<Seq<char>>::empty());
    if q.status_ids@.len() > 0 {
        assert(seq![status_clause(q.status_ids@.len())].drop_last() =~= Seq::<Seq<char>>::empty());
        lemma_count_placeholders(q.status_ids@.len());
        lemma_count_concat("e.status_id IN ("@, placeholders(q.status_ids@.len()));
        lemma_count_concat("e.status_id IN ("@ + placeholders(q.status_ids@.len()), ")"@);
    }
    if clauses_of(q).len() > 0 {
        lemma_count_joined(clauses_of(q), " AND "@);
        lemma_count_concat(" WHERE "@, joined(clauses_of(q), " AND "@));
    } else {
        assert(placeholder_total(clauses_of(q)) == 0);
    }
}

} // verus!
