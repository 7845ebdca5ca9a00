use worklog::models::{EntryQuery, UserFilter};
use worklog::query::{build_filter, SqlParam, ORDER_BY};
use worklog::text::{contains_pattern_of, escape_like};
use worklog::validate::user_name;

#[test]
fn empty_query_produces_no_where_clause() {
    let (sql, params) = build_filter(&EntryQuery::default());
    assert!(sql.is_empty());
    assert!(params.is_empty());
}

#[test]
fn blank_strings_are_treated_as_absent() {
    let query = EntryQuery {
        keyword: "   ".to_string(),
        date_from: "".to_string(),
        date_to: "  ".to_string(),
        ..EntryQuery::default()
    };
    let (sql, params) = build_filter(&query);
    assert!(sql.is_empty());
    assert!(params.is_empty());
}

#[test]
fn keyword_hits_title_content_and_ticket() {
    let query = EntryQuery {
        keyword: "登入".to_string(),
        ..EntryQuery::default()
    };
    let (sql, params) = build_filter(&query);
    assert!(sql.contains("e.title LIKE"));
    assert!(sql.contains("e.content"));
    assert!(sql.contains("e.ticket"));
    assert_eq!(params.len(), 3);
    assert_eq!(params[0], SqlParam::Text("%登入%".to_string()));
}

#[test]
fn keyword_wildcards_are_escaped() {
    let query = EntryQuery {
        keyword: "100%_done".to_string(),
        ..EntryQuery::default()
    };
    let (_, params) = build_filter(&query);
    assert_eq!(params[0], SqlParam::Text("%100\\%\\_done%".to_string()));
}

#[test]
fn only_the_supplied_date_bound_is_applied() {
    let query = EntryQuery {
        date_from: "2026-09-01".to_string(),
        ..EntryQuery::default()
    };
    let (sql, params) = build_filter(&query);
    assert!(sql.contains("e.work_date >= ?"));
    assert!(!sql.contains("e.work_date <= ?"));
    assert_eq!(params.len(), 1);
}

#[test]
fn status_ids_expand_to_matching_placeholders() {
    let query = EntryQuery {
        status_ids: vec![1, 2, 5],
        ..EntryQuery::default()
    };
    let (sql, params) = build_filter(&query);
    assert!(sql.contains("e.status_id IN (?, ?, ?)"));
    assert_eq!(params.len(), 3);
}

#[test]
fn unowned_filter_needs_no_parameter() {
    let query = EntryQuery {
        user_filter: UserFilter::Unowned,
        ..EntryQuery::default()
    };
    let (sql, params) = build_filter(&query);
    assert!(sql.contains("e.user_id IS NULL"));
    assert!(params.is_empty());
}

#[test]
fn single_user_filter_binds_the_id() {
    let query = EntryQuery {
        user_filter: UserFilter::One,
        user_id: Some(7),
        ..EntryQuery::default()
    };
    let (sql, params) = build_filter(&query);
    assert!(sql.contains("e.user_id = ?"));
    assert_eq!(params, vec![SqlParam::Integer(7)]);
}

#[test]
fn single_user_filter_without_id_falls_back_to_all_users() {
    let query = EntryQuery {
        user_filter: UserFilter::One,
        user_id: None,
        ..EntryQuery::default()
    };
    let (sql, params) = build_filter(&query);
    assert!(sql.is_empty());
    assert!(params.is_empty());
}

#[test]
fn conditions_are_joined_with_and() {
    let query = EntryQuery {
        keyword: "bug".to_string(),
        date_from: "2026-09-01".to_string(),
        date_to: "2026-09-30".to_string(),
        status_ids: vec![3],
        user_filter: UserFilter::One,
        user_id: Some(2),
    };
    let (sql, params) = build_filter(&query);
    assert_eq!(sql.matches(" AND ").count(), 4);
    assert_eq!(params.len(), 7);
}

// Further cases.

#[test]
fn placeholders_match_bound_values() {
    let query = EntryQuery {
        keyword: " 50%? ".to_string(),
        date_from: " 2026-09-01 ".to_string(),
        date_to: "2026-09-30".to_string(),
        status_ids: vec![3, 4, 9, 10],
        user_filter: UserFilter::One,
        user_id: Some(2),
    };
    let (sql, params) = build_filter(&query);
    assert_eq!(sql.matches('?').count(), params.len());
    assert_eq!(params.len(), 10);
    assert_eq!(params[0], SqlParam::Text("%50\\%?%".to_string()));
    assert_eq!(params[3], SqlParam::Text("2026-09-01".to_string()));
    assert_eq!(params[5], SqlParam::Integer(3));
    assert_eq!(params[9], SqlParam::Integer(2));
    assert!(sql.starts_with(" WHERE ("));
}

#[test]
fn whole_where_clause_for_dates() {
    let query = EntryQuery {
        date_from: "2026-09-01".to_string(),
        date_to: "2026-09-30".to_string(),
        ..EntryQuery::default()
    };
    let (sql, params) = build_filter(&query);
    assert_eq!(sql, " WHERE e.work_date >= ? AND e.work_date <= ?");
    assert_eq!(
        params,
        vec![SqlParam::Text("2026-09-01".to_string()), SqlParam::Text("2026-09-30".to_string())]
    );
}

#[test]
fn unowned_filter_ignores_the_user_id() {
    let query = EntryQuery {
        user_filter: UserFilter::Unowned,
        user_id: Some(5),
        ..EntryQuery::default()
    };
    let (sql, params) = build_filter(&query);
    assert_eq!(sql, " WHERE e.user_id IS NULL");
    assert!(params.is_empty());
}

#[test]
fn escape_like_escapes_the_escape_character_too() {
    assert_eq!(escape_like("a\\b"), "a\\\\b");
    assert_eq!(escape_like("%_\\"), "\\%\\_\\\\");
    assert_eq!(escape_like("plain"), "plain");
    assert_eq!(escape_like(""), "");
}

#[test]
fn contains_pattern_wraps_the_escaped_keyword() {
    assert_eq!(contains_pattern_of("報表_2"), "%報表\\_2%");
    assert_eq!(contains_pattern_of(""), "%%");
}

#[test]
fn trim_removes_unicode_whitespace() {
    assert_eq!(user_name("\u{3000} 登入 \t\n"), Ok("登入".to_string()));
    assert_eq!(user_name("   "), Err("使用者名稱不可空白".to_string()));
    assert_eq!(user_name("a b"), Ok("a b".to_string()));
}

#[test]
fn order_by_lists_latest_first() {
    assert_eq!(ORDER_BY, " ORDER BY e.work_date DESC, e.updated_at DESC");
}

// Searches run against a database: the conditions that `build_filter` writes
// are handed to SQLite as they stand.

fn search_db() -> rusqlite::Connection {
    let conn = rusqlite::Connection::open_in_memory().unwrap();
    conn.execute_batch(
        "CREATE TABLE users (id INTEGER PRIMARY KEY AUTOINCREMENT, name TEXT NOT NULL);
         CREATE TABLE statuses (id INTEGER PRIMARY KEY AUTOINCREMENT, name TEXT NOT NULL);
         CREATE TABLE entries (
             id INTEGER PRIMARY KEY AUTOINCREMENT,
             user_id INTEGER,
             title TEXT NOT NULL,
             content TEXT,
             ticket TEXT,
             status_id INTEGER NOT NULL,
             work_date TEXT NOT NULL,
             hours REAL NOT NULL DEFAULT 0,
             created_at TEXT NOT NULL,
             updated_at TEXT NOT NULL
         );
         INSERT INTO statuses (name) VALUES ('new');",
    )
    .unwrap();
    conn
}

fn add_entry(conn: &rusqlite::Connection, user_id: Option<i64>, title: &str, content: &str, ticket: &str) {
    conn.execute(
        "INSERT INTO entries (user_id, title, content, ticket, status_id, work_date, hours, created_at, updated_at)
         VALUES (?1, ?2, ?3, ?4, 1, '2026-09-18', 1.0, 'x', 'x')",
        (user_id, title, content, ticket),
    )
    .unwrap();
}

fn search_titles(conn: &rusqlite::Connection, query: &EntryQuery) -> Vec<String> {
    let (where_sql, params) = build_filter(query);
    let values: Vec<rusqlite::types::Value> = params
        .into_iter()
        .map(|p| match p {
            SqlParam::Text(t) => rusqlite::types::Value::Text(t),
            SqlParam::Integer(n) => rusqlite::types::Value::Integer(n),
        })
        .collect();
    let sql = format!(
        "SELECT e.title FROM entries e JOIN statuses s ON s.id = e.status_id \
         LEFT JOIN users u ON u.id = e.user_id{}{}",
        where_sql, ORDER_BY
    );
    let mut stmt = conn.prepare(&sql).unwrap();
    let rows = stmt
        .query_map(rusqlite::params_from_iter(values.iter()), |row| row.get::<_, String>(0))
        .unwrap();
    rows.map(|r| r.unwrap()).collect()
}

#[test]
fn unowned_filter_finds_entries_without_an_owner() {
    let conn = search_db();
    conn.execute("INSERT INTO users (name) VALUES ('amanda')", []).unwrap();
    let user_id = conn.last_insert_rowid();
    add_entry(&conn, Some(user_id), "有主", "", "");
    add_entry(&conn, None, "無主", "", "");

    let filter = EntryQuery { user_filter: UserFilter::Unowned, ..EntryQuery::default() };
    let found = search_titles(&conn, &filter);
    assert_eq!(found.len(), 1);
    assert_eq!(found[0], "無主");
}

#[test]
fn keyword_search_covers_title_content_and_ticket() {
    let conn = search_db();
    add_entry(&conn, None, "登入頁改版", "", "");
    add_entry(&conn, None, "標題甲", "內容提到登入頁", "");
    add_entry(&conn, None, "標題乙", "", "登入頁-123");
    add_entry(&conn, None, "不相關", "", "");

    let filter = EntryQuery { keyword: "登入頁".to_string(), ..EntryQuery::default() };
    assert_eq!(search_titles(&conn, &filter).len(), 3);
}

#[test]
fn a_wildcard_in_the_keyword_matches_only_itself() {
    let conn = search_db();
    add_entry(&conn, None, "完成 100% 的測試", "", "");
    add_entry(&conn, None, "完成 1000 筆", "", "");

    let filter = EntryQuery { keyword: "100%".to_string(), ..EntryQuery::default() };
    assert_eq!(search_titles(&conn, &filter), vec!["完成 100% 的測試".to_string()]);
}
