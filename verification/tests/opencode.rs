use dux::opencode::{
    json_session_ids, keep_newest, latest_json_session_id, latest_session_id_for_worktree_in_roots,
    latest_session_query, latest_sqlite_session_id, same_path, session_ids_for_worktree_in_roots,
    session_order_columns, sqlite_session_ids, JsonSession, OpenCodeSessionCandidate,
    ResolvedPath, SessionQuery, SessionRoot, SessionRow, SqliteSessions,
};
use dux::session_files::{
    is_json_file_name, session_fields_from_document, session_fields_from_json,
};

const WORKTREE: &str = "/tmp/dux-test/repo";

fn worktree() -> ResolvedPath {
    ResolvedPath { path: WORKTREE.to_string(), canonical: Some(WORKTREE.to_string()) }
}

fn resolved(path: &str) -> ResolvedPath {
    ResolvedPath { path: path.to_string(), canonical: Some(path.to_string()) }
}

/// A JSON session file's contents, read back through the library's parser.
fn json_session(file: &str, updated: i128) -> JsonSession {
    let (id, directory) = session_fields_from_json(file).expect("session fields");
    JsonSession { id, directory: resolved(&directory), updated }
}

fn json_file(id: &str) -> String {
    format!(r#"{{"id":"{}","directory":"{}"}}"#, id, WORKTREE)
}

fn row(id: &str) -> SessionRow {
    SessionRow { id: id.to_string(), directory: worktree() }
}

fn rows(ids: &[&str]) -> SessionQuery {
    SessionQuery::Rows { rows: ids.iter().map(|id| row(id)).collect(), complete: true }
}

/// A database whose `session` table holds `ids`, newest last; the
/// recent-sessions query by `time_updated` gives them newest first.
fn database(ids: &[&str], updated: i128) -> SqliteSessions {
    let newest_first: Vec<&str> = ids.iter().rev().copied().collect();
    SqliteSessions {
        ordered_queries: vec![
            rows(&newest_first),
            SessionQuery::Unprepared,
            SessionQuery::Unprepared,
            SessionQuery::Unprepared,
            rows(ids),
        ],
        all_sessions: rows(ids),
        updated,
    }
}

#[test]
fn latest_session_id_for_worktree_reads_json_sessions() {
    let roots = vec![SessionRoot {
        sqlite: None,
        json_sessions: vec![
            json_session(&json_file("ses_old"), 1),
            json_session(&json_file("ses_new"), 2),
        ],
    }];

    let ignored_session_ids = vec!["ses_old".to_string()];
    let found = latest_session_id_for_worktree_in_roots(&worktree(), &ignored_session_ids, &roots);

    assert_eq!(found.as_deref(), Some("ses_new"));
}

#[test]
fn latest_session_id_for_worktree_ignores_all_existing_json_sessions() {
    let mut roots = vec![SessionRoot {
        sqlite: None,
        json_sessions: vec![
            json_session(&json_file("ses_old_one"), 1),
            json_session(&json_file("ses_old_two"), 2),
        ],
    }];

    let ignored_session_ids = session_ids_for_worktree_in_roots(&worktree(), &roots);
    assert_eq!(ignored_session_ids.len(), 2);

    roots[0].json_sessions.push(json_session(&json_file("ses_new"), 3));

    let found = latest_session_id_for_worktree_in_roots(&worktree(), &ignored_session_ids, &roots);

    assert_eq!(found.as_deref(), Some("ses_new"));
}

#[test]
fn latest_session_id_for_worktree_reads_sqlite_sessions() {
    let roots = vec![SessionRoot {
        sqlite: Some(database(&["ses_old", "ses_new"], 5)),
        json_sessions: vec![],
    }];

    let ignored_session_ids = vec!["ses_old".to_string()];
    let found = latest_session_id_for_worktree_in_roots(&worktree(), &ignored_session_ids, &roots);

    assert_eq!(found.as_deref(), Some("ses_new"));
}

#[test]
fn latest_session_id_for_worktree_ignores_all_existing_sqlite_sessions() {
    let mut roots = vec![SessionRoot {
        sqlite: Some(database(&["ses_old_one", "ses_old_two"], 5)),
        json_sessions: vec![],
    }];

    let ignored_session_ids = session_ids_for_worktree_in_roots(&worktree(), &roots);
    assert_eq!(ignored_session_ids.len(), 2);

    roots[0].sqlite = Some(database(&["ses_old_one", "ses_old_two", "ses_new"], 6));

    let found = latest_session_id_for_worktree_in_roots(&worktree(), &ignored_session_ids, &roots);

    assert_eq!(found.as_deref(), Some("ses_new"));
}

#[test]
fn ignoring_every_known_session_finds_none() {
    let roots = vec![SessionRoot {
        sqlite: Some(database(&["a", "b"], 5)),
        json_sessions: vec![json_session(&json_file("c"), 9)],
    }];
    let ignored = session_ids_for_worktree_in_roots(&worktree(), &roots);
    assert_eq!(ignored.len(), 3);
    assert_eq!(latest_session_id_for_worktree_in_roots(&worktree(), &ignored, &roots), None);
}

#[test]
fn newer_json_session_beats_database_and_ties_keep_the_first() {
    let roots = vec![SessionRoot {
        sqlite: Some(database(&["db"], 5)),
        json_sessions: vec![json_session(&json_file("json"), 7)],
    }];
    let none: Vec<String> = vec![];
    assert_eq!(
        latest_session_id_for_worktree_in_roots(&worktree(), &none, &roots).as_deref(),
        Some("json")
    );
    let tie = vec![SessionRoot {
        sqlite: Some(database(&["db"], 7)),
        json_sessions: vec![json_session(&json_file("json"), 7)],
    }];
    assert_eq!(
        latest_session_id_for_worktree_in_roots(&worktree(), &none, &tie).as_deref(),
        Some("db")
    );
}

#[test]
fn keep_newest_replaces_only_when_strictly_newer() {
    let mut best = None;
    keep_newest(&mut best, OpenCodeSessionCandidate { id: "a".to_string(), updated: 3 });
    keep_newest(&mut best, OpenCodeSessionCandidate { id: "b".to_string(), updated: 3 });
    assert_eq!(best.as_ref().map(|c| c.id.as_str()), Some("a"));
    keep_newest(&mut best, OpenCodeSessionCandidate { id: "c".to_string(), updated: 4 });
    assert_eq!(best.as_ref().map(|c| c.id.as_str()), Some("c"));
    keep_newest(&mut best, OpenCodeSessionCandidate { id: "d".to_string(), updated: -1 });
    assert_eq!(best.map(|c| c.id), Some("c".to_string()));
}

#[test]
fn json_sessions_of_other_directories_are_skipped() {
    let sessions = vec![
        JsonSession { id: "mine".to_string(), directory: worktree(), updated: 1 },
        JsonSession { id: "other".to_string(), directory: resolved("/elsewhere"), updated: 9 },
    ];
    let none: Vec<String> = vec![];
    let found = latest_json_session_id(&sessions, &worktree(), &none).unwrap();
    assert_eq!((found.id.as_str(), found.updated), ("mine", 1));
    assert_eq!(json_session_ids(&sessions, &worktree()), vec!["mine".to_string()]);
}

#[test]
fn session_ids_are_listed_once() {
    let sessions = vec![
        JsonSession { id: "x".to_string(), directory: worktree(), updated: 1 },
        JsonSession { id: "x".to_string(), directory: worktree(), updated: 2 },
    ];
    let roots = vec![
        SessionRoot { sqlite: Some(database(&["x", "y"], 1)), json_sessions: sessions.clone() },
        SessionRoot { sqlite: None, json_sessions: sessions },
    ];
    let mut ids = session_ids_for_worktree_in_roots(&worktree(), &roots);
    ids.sort();
    assert_eq!(ids, vec!["x".to_string(), "y".to_string()]);
}

#[test]
fn database_read_errors() {
    let incomplete = SqliteSessions {
        ordered_queries: vec![
            SessionQuery::Rows { rows: vec![row("old")], complete: false },
            rows(&["new"]),
        ],
        all_sessions: SessionQuery::Rows { rows: vec![row("a")], complete: false },
        updated: 3,
    };
    let ignore_old = vec!["old".to_string()];
    assert!(latest_sqlite_session_id(&incomplete, &worktree(), &ignore_old).is_none());
    let none: Vec<String> = vec![];
    let found = latest_sqlite_session_id(&incomplete, &worktree(), &none).unwrap();
    assert_eq!((found.id.as_str(), found.updated), ("old", 3));
    assert!(sqlite_session_ids(&incomplete, &worktree()).is_empty());
    let unprepared = SqliteSessions {
        ordered_queries: vec![SessionQuery::Unprepared, rows(&["later"])],
        all_sessions: SessionQuery::Unprepared,
        updated: 0,
    };
    assert_eq!(
        latest_sqlite_session_id(&unprepared, &worktree(), &none).map(|c| c.id),
        Some("later".to_string())
    );
    assert!(sqlite_session_ids(&unprepared, &worktree()).is_empty());
}

#[test]
fn later_order_column_is_tried_when_earlier_rows_do_not_match() {
    let db = SqliteSessions {
        ordered_queries: vec![rows(&["ignored"]), rows(&["second"])],
        all_sessions: rows(&["ignored", "second"]),
        updated: 1,
    };
    let ignored = vec!["ignored".to_string()];
    assert_eq!(
        latest_sqlite_session_id(&db, &worktree(), &ignored).map(|c| c.id),
        Some("second".to_string())
    );
}

#[test]
fn same_path_compares_components_then_canonical_forms() {
    let plain = ResolvedPath { path: "/a/b".to_string(), canonical: None };
    let trailing = ResolvedPath { path: "/a/b/".to_string(), canonical: None };
    let doubled = ResolvedPath { path: "/a//b".to_string(), canonical: None };
    assert!(same_path(&trailing, &plain));
    assert!(same_path(&doubled, &plain));
    let other = ResolvedPath { path: "/c".to_string(), canonical: None };
    assert!(!same_path(&other, &plain));
    let link = ResolvedPath { path: "/link".to_string(), canonical: Some("/real".to_string()) };
    let real = ResolvedPath { path: "/real".to_string(), canonical: Some("/real".to_string()) };
    assert!(same_path(&link, &real));
    let unresolved = ResolvedPath { path: "/real".to_string(), canonical: None };
    assert!(same_path(&link, &unresolved));
    let dotted = ResolvedPath { path: "/a/./b/.".to_string(), canonical: None };
    assert!(same_path(&dotted, &plain));
    let relative = ResolvedPath { path: "a/b".to_string(), canonical: None };
    assert!(!same_path(&relative, &plain));
    let current = ResolvedPath { path: "./a/b".to_string(), canonical: None };
    assert!(!same_path(&current, &relative));
    let parent = ResolvedPath { path: "/a/../b".to_string(), canonical: None };
    assert!(!same_path(&parent, &plain));
}

#[test]
fn session_fields_from_a_parsed_document() {
    let members = vec![
        ("directory".to_string(), None),
        ("id".to_string(), Some("s".to_string())),
        ("path".to_string(), Some("/p".to_string())),
    ];
    assert_eq!(session_fields_from_document(Some(Some(members))), None);
    let members = vec![
        ("id".to_string(), Some("s".to_string())),
        ("path".to_string(), Some("/p".to_string())),
    ];
    assert_eq!(
        session_fields_from_document(Some(Some(members))),
        Some(("s".to_string(), "/p".to_string()))
    );
    assert_eq!(session_fields_from_document(Some(None)), None);
    assert_eq!(session_fields_from_document(None), None);
}

#[test]
fn session_fields_follow_the_json_members() {
    assert_eq!(
        session_fields_from_json(r#"{"id":"s","directory":"/d"}"#),
        Some(("s".to_string(), "/d".to_string()))
    );
    assert_eq!(
        session_fields_from_json(r#"{"id":"s","path":"/p"}"#),
        Some(("s".to_string(), "/p".to_string()))
    );
    assert_eq!(
        session_fields_from_json(r#"{"id":"s","directory":"/d","path":"/p"}"#),
        Some(("s".to_string(), "/d".to_string()))
    );
    assert_eq!(session_fields_from_json(r#"{"id":"s","directory":3,"path":"/p"}"#), None);
    assert_eq!(session_fields_from_json(r#"{"id":7,"directory":"/d"}"#), None);
    assert_eq!(session_fields_from_json(r#"{"directory":"/d"}"#), None);
    assert_eq!(session_fields_from_json(r#"["id","s"]"#), None);
    assert_eq!(session_fields_from_json("not json"), None);
    assert_eq!(
        session_fields_from_json(r#"{"id":"a","id":"b","directory":"/d"}"#),
        Some(("b".to_string(), "/d".to_string()))
    );
}

#[test]
fn json_file_names_need_a_json_extension() {
    assert!(is_json_file_name("ses_1.json"));
    assert!(is_json_file_name("a.b.json"));
    assert!(is_json_file_name("..json"));
    assert!(!is_json_file_name(".json"));
    assert!(!is_json_file_name("json"));
    assert!(!is_json_file_name("a.json.bak"));
    assert!(!is_json_file_name("a.JSON"));
    assert!(!is_json_file_name(""));
}

#[test]
fn session_queries_name_the_order_columns() {
    assert_eq!(
        session_order_columns(),
        vec!["time_updated", "updated_at", "time_created", "created_at", "rowid"]
    );
    assert_eq!(
        latest_session_query("rowid"),
        "select id, directory from session order by rowid desc limit 100"
    );
}
