//! Choosing the OpenCode session that belongs to a worktree: the newest one
//! not already known, across OpenCode's SQLite database and its JSON session
//! files under each data root.

use vstd::prelude::*;

verus! {

/// The pieces of a path between its `/` separators, empty pieces included.
pub open spec fn path_pieces(p: Seq<char>) -> Seq<Seq<char>>
    decreases p.len(),
{
    if p.len() == 0 {
        seq![Seq::empty()]
    } else {
        let prev = path_pieces(p.drop_last());
        if p.last() == '/' {
            prev.push(Seq::empty())
        } else {
            prev.update(prev.len() - 1, prev.last().push(p.last()))
        }
    }
}

/// The pieces that name a component: those that are neither empty (repeated
/// or trailing separators) nor `.`.
pub open spec fn named_components(pieces: Seq<Seq<char>>) -> Seq<Seq<char>>
    decreases pieces.len(),
{
    if pieces.len() == 0 {
        Seq::empty()
    } else {
        let prev = named_components(pieces.drop_last());
        let last = pieces.last();
        if last.len() == 0 || last == seq!['.'] {
            prev
        } else {
            prev.push(last)
        }
    }
}

/// The path starts at the root.
pub open spec fn path_has_root(p: Seq<char>) -> bool {
    p.len() > 0 && p[0] == '/'
}

/// The path starts with a `.` component, which `Path::components` keeps when
/// it begins a relative path.
pub open spec fn path_leading_cur_dir(p: Seq<char>) -> bool {
    !path_has_root(p) && path_pieces(p)[0] == seq!['.']
}

/// Two paths are equal as `Path`s: they have the same components. As
/// `Path::components` documents it, repeated separators and a trailing
/// separator are ignored, and `.` is dropped except at the start of a
/// relative path.
pub open spec fn paths_equal(a: Seq<char>, b: Seq<char>) -> bool {
    &&& path_has_root(a) == path_has_root(b)
    &&& path_leading_cur_dir(a) == path_leading_cur_dir(b)
    &&& named_components(path_pieces(a)) == named_components(path_pieces(b))
}

/// Compares two paths with `Path`'s `==`, which compares their components;
/// the contract claims the component rules of Unix paths as
/// `Path::components` documents them, spelled out in `paths_equal`.
#[verifier::external_body]
fn path_eq(a: &str, b: &str) -> (r: bool)
    ensures
        r == paths_equal(a@, b@),
{
    std::path::Path::new(a) == std::path::Path::new(b)
}

/// A path as given, together with what the file system resolved it to when
/// it was canonicalized (`None` when that failed).
#[derive(Clone, Debug)]
pub struct ResolvedPath {
    pub path: String,
    pub canonical: Option<String>,
}

/// The path to compare after canonicalization: the canonical form, or the
/// path itself when it could not be canonicalized.
pub open spec fn resolved_or_given(p: ResolvedPath) -> Seq<char> {
    match p.canonical {
        Some(c) => c@,
        None => p.path@,
    }
}

/// A stored session directory names the worktree: the two paths are equal,
/// or their canonical forms are.
pub open spec fn same_path_spec(stored: ResolvedPath, worktree: ResolvedPath) -> bool {
    paths_equal(stored.path@, worktree.path@) || paths_equal(
        resolved_or_given(stored),
        resolved_or_given(worktree),
    )
}

/// A session stored under exactly the worktree's path belongs to it.
pub proof fn lemma_same_path_reflexive(stored: ResolvedPath, worktree: ResolvedPath)
    requires
        stored.path@ == worktree.path@,
    ensures
        same_path_spec(stored, worktree),
{
}

/// Whether a stored session directory names the worktree.
pub fn same_path(stored: &ResolvedPath, worktree_path: &ResolvedPath) -> (r: bool)
    ensures
        r == same_path_spec(*stored, *worktree_path),
{
    if path_eq(stored.path.as_str(), worktree_path.path.as_str()) {
        return true;
    }
    let stored_canonical = match &stored.canonical {
        Some(c) => c.as_str(),
        None => stored.path.as_str(),
    };
    let worktree_canonical = match &worktree_path.canonical {
        Some(c) => c.as_str(),
        None => worktree_path.path.as_str(),
    };
    path_eq(stored_canonical, worktree_canonical)
}

/// A session that may be the one sought, and when it was last updated
/// (nanoseconds from the Unix epoch, negative before it).
#[derive(Clone, Debug)]
pub struct OpenCodeSessionCandidate {
    pub id: String,
    pub updated: i128,
}

/// A candidate as a value.
pub type CandidateView = (Seq<char>, i128);

impl View for OpenCodeSessionCandidate {
    type V = CandidateView;

    open spec fn view(&self) -> CandidateView {
        (self.id@, self.updated)
    }
}

/// The candidates as values.
pub open spec fn candidate_option_view(c: Option<OpenCodeSessionCandidate>) -> Option<CandidateView> {
    match c {
        Some(c) => Some(c@),
        None => None,
    }
}

/// What `keep_newest` keeps: the candidate when there is no best yet or when
/// it is strictly newer, else the best so far.
pub open spec fn newer(best: Option<CandidateView>, candidate: CandidateView) -> Option<CandidateView> {
    match best {
        None => Some(candidate),
        Some(current) => if candidate.1 > current.1 {
            Some(candidate)
        } else {
            best
        },
    }
}

/// The candidate kept after offering each of `candidates` in turn.
pub open spec fn newest(candidates: Seq<CandidateView>) -> Option<CandidateView>
    decreases candidates.len(),
{
    if candidates.len() == 0 {
        None
    } else {
        newer(newest(candidates.drop_last()), candidates.last())
    }
}

/// Keeps `candidate` in `best` if there is none yet or if it is strictly
/// newer.
pub fn keep_newest(best: &mut Option<OpenCodeSessionCandidate>, candidate: OpenCodeSessionCandidate)
    ensures
        candidate_option_view(*final(best)) == newer(candidate_option_view(*old(best)), candidate@),
{
    let replace = match best {
        None => true,
        Some(current) => candidate.updated > current.updated,
    };
    if replace {
        *best = Some(candidate);
    }
}

/// The ids of a list of strings, as a set.
pub open spec fn id_set(ids: Seq<String>) -> Set<Seq<char>> {
    Set::new(|id: Seq<char>| exists|i: int| 0 <= i < ids.len() && (#[trigger] ids[i])@ == id)
}

/// No id occurs twice.
pub open spec fn distinct_ids(ids: Seq<String>) -> bool {
    forall|i: int, j: int| 0 <= i < j < ids.len() ==> (#[trigger] ids[i])@ != (#[trigger] ids[j])@
}

/// Whether `id` is one of `ids`.
pub fn contains_id(ids: &Vec<String>, id: &String) -> (r: bool)
    ensures
        r == id_set(ids@).contains(id@),
{
    let mut i: usize = 0;
    while i < ids.len()
        invariant
            i <= ids@.len(),
            forall|j: int| 0 <= j < i ==> (#[trigger] ids@[j])@ != id@,
        decreases ids@.len() - i,
    {
        if ids[i] == *id {
            assert(ids@[i as int]@ == id@);
            return true;
        }
        i = i + 1;
    }
    false
}

/// Adds `id` to `ids` unless it is there already.
fn insert_id(ids: &mut Vec<String>, id: String)
    requires
        distinct_ids(old(ids)@),
    ensures
        distinct_ids(final(ids)@),
        id_set(final(ids)@) == id_set(old(ids)@).insert(id@),
{
    if !contains_id(ids, &id) {
        let ghost before = ids@;
        ids.push(id);
        assert(id_set(ids@) =~= id_set(before).insert(id@)) by {
            assert forall|x: Seq<char>| id_set(ids@).contains(x) implies id_set(before).insert(
                id@,
            ).contains(x) by {
                let i = choose|i: int| 0 <= i < ids@.len() && (#[trigger] ids@[i])@ == x;
                if i < before.len() {
                    assert(before[i] == ids@[i]);
                }
            }
            assert forall|x: Seq<char>| id_set(before).insert(id@).contains(x) implies id_set(
                ids@,
            ).contains(x) by {
                if x == id@ {
                    assert(ids@[before.len() as int]@ == x);
                } else {
                    let i = choose|i: int| 0 <= i < before.len() && (#[trigger] before[i])@ == x;
                    assert(ids@[i] == before[i]);
                }
            }
        }
        assert forall|i: int, j: int| 0 <= i < j < ids@.len() implies (#[trigger] ids@[i])@ != (
        #[trigger] ids@[j])@ by {
            if j == before.len() {
                assert(ids@[i] == before[i]);
                assert(id_set(before).contains(before[i]@));
            } else {
                assert(ids@[i] == before[i] && ids@[j] == before[j]);
            }
        }
    } else {
        assert(id_set(ids@).insert(id@) =~= id_set(ids@));
    }
}

/// A session recorded in a JSON session file.
#[derive(Clone, Debug)]
pub struct JsonSession {
    pub id: String,
    pub directory: ResolvedPath,
    pub updated: i128,
}

/// A session that may be taken: it is not ignored and it belongs to the
/// worktree.
pub open spec fn eligible(
    id: Seq<char>,
    directory: ResolvedPath,
    worktree: ResolvedPath,
    ignored: Set<Seq<char>>,
) -> bool {
    !ignored.contains(id) && same_path_spec(directory, worktree)
}

/// The eligible JSON sessions, in order, as candidates.
pub open spec fn json_candidates(
    sessions: Seq<JsonSession>,
    worktree: ResolvedPath,
    ignored: Set<Seq<char>>,
) -> Seq<CandidateView>
    decreases sessions.len(),
{
    if sessions.len() == 0 {
        Seq::empty()
    } else {
        let prev = json_candidates(sessions.drop_last(), worktree, ignored);
        let s = sessions.last();
        if eligible(s.id@, s.directory, worktree, ignored) {
            prev.push((s.id@, s.updated))
        } else {
            prev
        }
    }
}

/// The JSON session chosen: the newest eligible one, the earliest of equally
/// new ones.
pub open spec fn latest_json_spec(
    sessions: Seq<JsonSession>,
    worktree: ResolvedPath,
    ignored: Set<Seq<char>>,
) -> Option<CandidateView> {
    newest(json_candidates(sessions, worktree, ignored))
}

/// The newest eligible JSON session.
pub fn latest_json_session_id(
    sessions: &Vec<JsonSession>,
    worktree_path: &ResolvedPath,
    ignored_session_ids: &Vec<String>,
) -> (r: Option<OpenCodeSessionCandidate>)
    ensures
        candidate_option_view(r) == latest_json_spec(
            sessions@,
            *worktree_path,
            id_set(ignored_session_ids@),
        ),
{
    let ghost ignored = id_set(ignored_session_ids@);
    let mut best: Option<OpenCodeSessionCandidate> = None;
    let mut i: usize = 0;
    while i < sessions.len()
        invariant
            i <= sessions@.len(),
            ignored == id_set(ignored_session_ids@),
            candidate_option_view(best) == newest(
                json_candidates(sessions@.take(i as int), *worktree_path, ignored),
            ),
        decreases sessions@.len() - i,
    {
        let session = &sessions[i];
        assert(sessions@.take(i + 1).drop_last() =~= sessions@.take(i as int));
        assert(sessions@.take(i + 1).last() == *session);
        if !contains_id(ignored_session_ids, &session.id) && same_path(
            &session.directory,
            worktree_path,
        ) {
            let ghost prev = json_candidates(sessions@.take(i as int), *worktree_path, ignored);
            assert(json_candidates(sessions@.take(i + 1), *worktree_path, ignored).drop_last()
                =~= prev);
            keep_newest(
                &mut best,
                OpenCodeSessionCandidate { id: session.id.clone(), updated: session.updated },
            );
        }
        i = i + 1;
    }
    assert(sessions@.take(sessions@.len() as int) =~= sessions@);
    best
}

/// The ids of the sessions among `sessions` that belong to the worktree.
pub open spec fn json_ids_spec(sessions: Seq<JsonSession>, worktree: ResolvedPath) -> Set<Seq<char>> {
    Set::new(
        |id: Seq<char>|
            exists|i: int|
                0 <= i < sessions.len() && (#[trigger] sessions[i]).id@ == id && same_path_spec(
                    sessions[i].directory,
                    worktree,
                ),
    )
}

/// The ids of the JSON sessions that belong to the worktree, each once.
pub fn json_session_ids(sessions: &Vec<JsonSession>, worktree_path: &ResolvedPath) -> (r: Vec<
    String,
>)
    ensures
        distinct_ids(r@),
        id_set(r@) == json_ids_spec(sessions@, *worktree_path),
{
    let mut ids: Vec<String> = Vec::new();
    let mut i: usize = 0;
    assert(id_set(ids@) =~= json_ids_spec(sessions@.take(0), *worktree_path));
    while i < sessions.len()
        invariant
            i <= sessions@.len(),
            distinct_ids(ids@),
            id_set(ids@) == json_ids_spec(sessions@.take(i as int), *worktree_path),
        decreases sessions@.len() - i,
    {
        let session = &sessions[i];
        let ghost before = json_ids_spec(sessions@.take(i as int), *worktree_path);
        let ghost prefix = sessions@.take(i + 1);
        assert forall|j: int| 0 <= j < i implies prefix[j] == sessions@.take(i as int)[j] by {}
        if same_path(&session.directory, worktree_path) {
            insert_id(&mut ids, session.id.clone());
            assert(json_ids_spec(prefix, *worktree_path) =~= before.insert(session.id@)) by {
                assert(prefix[i as int] == *session);
            }
        } else {
            assert(json_ids_spec(prefix, *worktree_path) =~= before) by {
                assert(prefix[i as int] == *session);
            }
        }
        i = i + 1;
    }
    assert(sessions@.take(sessions@.len() as int) =~= sessions@);
    ids
}

/// A row of the `session` table: a session id and its directory.
#[derive(Clone, Debug)]
pub struct SessionRow {
    pub id: String,
    pub directory: ResolvedPath,
}

/// What one query over the `session` table gave.
#[derive(Clone, Debug)]
pub enum SessionQuery {
    /// The statement could not be prepared, for instance because the column
    /// it orders by does not exist.
    Unprepared,
    /// The rows read, in the order the query gave them; `complete` is false
    /// when the query or reading a row failed after these rows.
    Rows { rows: Vec<SessionRow>, complete: bool },
}

/// What OpenCode's SQLite database under a data root holds.
#[derive(Clone, Debug)]
pub struct SqliteSessions {
    /// The queries for recent sessions, one per ordering column, in the order
    /// of `session_order_columns`.
    pub ordered_queries: Vec<SessionQuery>,
    /// The query for every session.
    pub all_sessions: SessionQuery,
    /// When the database file was last modified (nanoseconds from the Unix
    /// epoch).
    pub updated: i128,
}

/// What one data root holds: a readable database, if there is one, and the
/// JSON session files, in the order they were listed.
#[derive(Clone, Debug)]
pub struct SessionRoot {
    pub sqlite: Option<SqliteSessions>,
    pub json_sessions: Vec<JsonSession>,
}

/// The id of the first eligible row.
pub open spec fn first_eligible_row(
    rows: Seq<SessionRow>,
    worktree: ResolvedPath,
    ignored: Set<Seq<char>>,
) -> Option<Seq<char>>
    decreases rows.len(),
{
    if rows.len() == 0 {
        None
    } else if eligible(rows[0].id@, rows[0].directory, worktree, ignored) {
        Some(rows[0].id@)
    } else {
        first_eligible_row(rows.drop_first(), worktree, ignored)
    }
}

/// The session the ordered queries choose: the first eligible row of the
/// first query that has one, skipping queries that could not be prepared;
/// a query that failed before such a row ends the search with none.
pub open spec fn pick_from_queries(
    queries: Seq<SessionQuery>,
    worktree: ResolvedPath,
    ignored: Set<Seq<char>>,
) -> Option<Seq<char>>
    decreases queries.len(),
{
    if queries.len() == 0 {
        None
    } else {
        match queries[0] {
            SessionQuery::Unprepared => pick_from_queries(queries.drop_first(), worktree, ignored),
            SessionQuery::Rows { rows, complete } => match first_eligible_row(
                rows@,
                worktree,
                ignored,
            ) {
                Some(id) => Some(id),
                None => if complete {
                    pick_from_queries(queries.drop_first(), worktree, ignored)
                } else {
                    None
                },
            },
        }
    }
}

/// The database's candidate: the chosen session, dated by the database file.
pub open spec fn latest_sqlite_spec(
    db: SqliteSessions,
    worktree: ResolvedPath,
    ignored: Set<Seq<char>>,
) -> Option<CandidateView> {
    match pick_from_queries(db.ordered_queries@, worktree, ignored) {
        Some(id) => Some((id, db.updated)),
        None => None,
    }
}

/// The database's candidate for the worktree.
pub fn latest_sqlite_session_id(
    db: &SqliteSessions,
    worktree_path: &ResolvedPath,
    ignored_session_ids: &Vec<String>,
) -> (r: Option<OpenCodeSessionCandidate>)
    ensures
        candidate_option_view(r) == latest_sqlite_spec(
            *db,
            *worktree_path,
            id_set(ignored_session_ids@),
        ),
        ({
            let queries = db.ordered_queries@;
            let ignored = id_set(ignored_session_ids@);
            match r {
                Some(c) => c.updated == db.updated && exists|q: int, i: int|
                    0 <= q < queries.len() && 0 <= i < query_rows(queries[q]).len() && (
                    #[trigger] query_rows(queries[q])[i]).id@ == c.id@ && row_may_be_taken(
                        query_rows(queries[q])[i],
                        *worktree_path,
                        ignored,
                    ) && (forall|j: int|
                        0 <= j < i ==> !row_may_be_taken(
                            #[trigger] query_rows(queries[q])[j],
                            *worktree_path,
                            ignored,
                        )) && (forall|p: int|
                        0 <= p < q ==> read_in_full_or_skipped(#[trigger] queries[p])) && (forall|
                        p: int,
                        j: int,
                    |
                        0 <= p < q && 0 <= j < query_rows(queries[p]).len() ==> !row_may_be_taken(
                            #[trigger] query_rows(queries[p])[j],
                            *worktree_path,
                            ignored,
                        )),
                None => forall|q: int, i: int|
                    0 <= q < queries.len() && (forall|p: int|
                        0 <= p < q ==> read_in_full_or_skipped(#[trigger] queries[p])) && 0 <= i
                        < query_rows(queries[q]).len() ==> !row_may_be_taken(
                        #[trigger] query_rows(queries[q])[i],
                        *worktree_path,
                        ignored,
                    ),
            }
        }),
{
    let ghost ignored = id_set(ignored_session_ids@);
    let ghost queries = db.ordered_queries@;
    assert(queries.skip(0) =~= queries);
    let mut q: usize = 0;
    while q < db.ordered_queries.len()
        invariant
            q <= queries.len(),
            queries == db.ordered_queries@,
            ignored == id_set(ignored_session_ids@),
            pick_from_queries(queries, *worktree_path, ignored) == pick_from_queries(
                queries.skip(q as int),
                *worktree_path,
                ignored,
            ),
        decreases queries.len() - q,
    {
        assert(queries.skip(q as int)[0] == queries[q as int]);
        assert(queries.skip(q as int).drop_first() =~= queries.skip(q + 1));
        match &db.ordered_queries[q] {
            SessionQuery::Unprepared => {},
            SessionQuery::Rows { rows, complete } => {
                let ghost all_rows = rows@;
                assert(all_rows.skip(0) =~= all_rows);
                let mut i: usize = 0;
                while i < rows.len()
                    invariant
                        i <= all_rows.len(),
                        all_rows == rows@,
                        queries == db.ordered_queries@,
                        q < queries.len(),
                        queries.skip(q as int)[0] == queries[q as int],
                        queries[q as int] == (SessionQuery::Rows { rows: *rows, complete: *complete }),
                        pick_from_queries(queries, *worktree_path, ignored) == pick_from_queries(
                            queries.skip(q as int),
                            *worktree_path,
                            ignored,
                        ),
                        ignored == id_set(ignored_session_ids@),
                        first_eligible_row(all_rows, *worktree_path, ignored) == first_eligible_row(
                            all_rows.skip(i as int),
                            *worktree_path,
                            ignored,
                        ),
                    decreases all_rows.len() - i,
                {
                    assert(all_rows.skip(i as int)[0] == all_rows[i as int]);
                    assert(all_rows.skip(i as int).drop_first() =~= all_rows.skip(i + 1));
                    let row = &rows[i];
                    if !contains_id(ignored_session_ids, &row.id) && same_path(
                        &row.directory,
                        worktree_path,
                    ) {
                        assert(first_eligible_row(all_rows, *worktree_path, ignored) == Some(row.id@));
                        proof {
                            lemma_pick_is_first_takeable_row(queries, *worktree_path, ignored);
                        }
                        return Some(
                            OpenCodeSessionCandidate { id: row.id.clone(), updated: db.updated },
                        );
                    }
                    i = i + 1;
                }
                if !*complete {
                    proof {
                        lemma_pick_is_first_takeable_row(queries, *worktree_path, ignored);
                    }
                    return None;
                }
            },
        }
        q = q + 1;
    }
    proof {
        lemma_pick_is_first_takeable_row(queries, *worktree_path, ignored);
    }
    None
}

/// The ids of the rows that belong to the worktree.
pub open spec fn row_ids(rows: Seq<SessionRow>, worktree: ResolvedPath) -> Set<Seq<char>> {
    Set::new(
        |id: Seq<char>|
            exists|i: int|
                0 <= i < rows.len() && (#[trigger] rows[i]).id@ == id && same_path_spec(
                    rows[i].directory,
                    worktree,
                ),
    )
}

/// The database's sessions for the worktree: none unless every row could be
/// read.
pub open spec fn sqlite_ids_spec(db: SqliteSessions, worktree: ResolvedPath) -> Set<Seq<char>> {
    match db.all_sessions {
        SessionQuery::Rows { rows, complete } => if complete {
            row_ids(rows@, worktree)
        } else {
            Set::empty()
        },
        SessionQuery::Unprepared => Set::empty(),
    }
}

/// The ids of the database's sessions that belong to the worktree, each once.
pub fn sqlite_session_ids(db: &SqliteSessions, worktree_path: &ResolvedPath) -> (r: Vec<String>)
    ensures
        distinct_ids(r@),
        id_set(r@) == sqlite_ids_spec(*db, *worktree_path),
{
    let mut ids: Vec<String> = Vec::new();
    match &db.all_sessions {
        SessionQuery::Unprepared => {
            assert(id_set(ids@) =~= Set::<Seq<char>>::empty());
        },
        SessionQuery::Rows { rows, complete } => {
            if !*complete {
                assert(id_set(ids@) =~= Set::<Seq<char>>::empty());
                return ids;
            }
            let mut i: usize = 0;
            assert(id_set(ids@) =~= row_ids(rows@.take(0), *worktree_path));
            while i < rows.len()
                invariant
                    i <= rows@.len(),
                    distinct_ids(ids@),
                    id_set(ids@) == row_ids(rows@.take(i as int), *worktree_path),
                decreases rows@.len() - i,
            {
                let row = &rows[i];
                let ghost before = row_ids(rows@.take(i as int), *worktree_path);
                let ghost prefix = rows@.take(i + 1);
                assert forall|j: int| 0 <= j < i implies prefix[j] == rows@.take(i as int)[j] by {}
                if same_path(&row.directory, worktree_path) {
                    insert_id(&mut ids, row.id.clone());
                    assert(row_ids(prefix, *worktree_path) =~= before.insert(row.id@)) by {
                        assert(prefix[i as int] == *row);
                    }
                } else {
                    assert(row_ids(prefix, *worktree_path) =~= before) by {
                        assert(prefix[i as int] == *row);
                    }
                }
                i = i + 1;
            }
            assert(rows@.take(rows@.len() as int) =~= rows@);
        },
    }
    ids
}

/// Adds each of `more` to `ids`, keeping each id once.
fn extend_ids(ids: &mut Vec<String>, more: Vec<String>)
    requires
        distinct_ids(old(ids)@),
    ensures
        distinct_ids(final(ids)@),
        id_set(final(ids)@) == id_set(old(ids)@).union(id_set(more@)),
{
    let ghost start = id_set(ids@);
    let mut i: usize = 0;
    assert(id_set(more@.take(0)) =~= Set::<Seq<char>>::empty());
    assert(start.union(Set::<Seq<char>>::empty()) =~= start);
    while i < more.len()
        invariant
            i <= more@.len(),
            distinct_ids(ids@),
            id_set(ids@) == start.union(id_set(more@.take(i as int))),
        decreases more@.len() - i,
    {
        insert_id(ids, more[i].clone());
        assert(id_set(more@.take(i + 1)) =~= id_set(more@.take(i as int)).insert(more@[i as int]@))
            by {
            assert forall|x: Seq<char>| id_set(more@.take(i + 1)).contains(x) implies id_set(
                more@.take(i as int),
            ).insert(more@[i as int]@).contains(x) by {
                let j = choose|j: int| 0 <= j < i + 1 && (#[trigger] more@.take(i + 1)[j])@ == x;
                if j < i {
                    assert(more@.take(i as int)[j] == more@.take(i + 1)[j]);
                }
            }
            assert forall|x: Seq<char>| id_set(more@.take(i as int)).insert(
                more@[i as int]@,
            ).contains(x) implies id_set(more@.take(i + 1)).contains(x) by {
                if x == more@[i as int]@ {
                    assert(more@.take(i + 1)[i as int] == more@[i as int]);
                } else {
                    let j = choose|j: int| 0 <= j < i && (#[trigger] more@.take(i as int)[j])@ == x;
                    assert(more@.take(i as int)[j] == more@.take(i + 1)[j]);
                }
            }
        }
        assert(id_set(ids@) =~= start.union(id_set(more@.take(i + 1))));
        i = i + 1;
    }
    assert(more@.take(more@.len() as int) =~= more@);
}

/// The ids of one root's sessions that belong to the worktree.
pub open spec fn root_ids_spec(root: SessionRoot, worktree: ResolvedPath) -> Set<Seq<char>> {
    let from_db = match root.sqlite {
        Some(db) => sqlite_ids_spec(db, worktree),
        None => Set::empty(),
    };
    from_db.union(json_ids_spec(root.json_sessions@, worktree))
}

/// The ids of all roots' sessions that belong to the worktree.
pub open spec fn session_ids_spec(roots: Seq<SessionRoot>, worktree: ResolvedPath) -> Set<Seq<char>>
    decreases roots.len(),
{
    if roots.len() == 0 {
        Set::empty()
    } else {
        session_ids_spec(roots.drop_last(), worktree).union(root_ids_spec(roots.last(), worktree))
    }
}

/// The ids of every session, in any root, that belongs to the worktree, each
/// once.
pub fn session_ids_for_worktree_in_roots(worktree_path: &ResolvedPath, roots: &Vec<SessionRoot>) -> (r:
    Vec<String>)
    ensures
        distinct_ids(r@),
        id_set(r@) == session_ids_spec(roots@, *worktree_path),
        forall|id: Seq<char>|
            #[trigger] id_set(r@).contains(id) <==> exists|k: int|
                0 <= k < roots@.len() && id_recorded_for_worktree(
                    #[trigger] roots@[k],
                    id,
                    *worktree_path,
                ),
{
    let mut ids: Vec<String> = Vec::new();
    let mut i: usize = 0;
    assert(id_set(ids@) =~= Set::<Seq<char>>::empty());
    while i < roots.len()
        invariant
            i <= roots@.len(),
            distinct_ids(ids@),
            id_set(ids@) == session_ids_spec(roots@.take(i as int), *worktree_path),
        decreases roots@.len() - i,
    {
        let root = &roots[i];
        let ghost before = id_set(ids@);
        match &root.sqlite {
            Some(db) => {
                let found = sqlite_session_ids(db, worktree_path);
                extend_ids(&mut ids, found);
            },
            None => {
                assert(before.union(Set::<Seq<char>>::empty()) =~= before);
            },
        }
        let found = json_session_ids(&root.json_sessions, worktree_path);
        extend_ids(&mut ids, found);
        assert(roots@.take(i + 1).drop_last() =~= roots@.take(i as int));
        assert(roots@.take(i + 1).last() == *root);
        assert(id_set(ids@) =~= before.union(root_ids_spec(*root, *worktree_path)));
        i = i + 1;
    }
    assert(roots@.take(roots@.len() as int) =~= roots@);
    proof {
        lemma_session_ids_are_recorded_ids(roots@, *worktree_path);
    }
    ids
}

/// `prev` followed by a root's database candidate, if it has one.
pub open spec fn with_sqlite_candidate(
    prev: Seq<CandidateView>,
    root: SessionRoot,
    worktree: ResolvedPath,
    ignored: Set<Seq<char>>,
) -> Seq<CandidateView> {
    match root.sqlite {
        Some(db) => match latest_sqlite_spec(db, worktree, ignored) {
            Some(c) => prev.push(c),
            None => prev,
        },
        None => prev,
    }
}

/// The candidates offered, root by root: the database's, then the JSON
/// files'.
pub open spec fn root_candidates(
    roots: Seq<SessionRoot>,
    worktree: ResolvedPath,
    ignored: Set<Seq<char>>,
) -> Seq<CandidateView>
    decreases roots.len(),
{
    if roots.len() == 0 {
        Seq::empty()
    } else {
        let root = roots.last();
        let with_db = with_sqlite_candidate(
            root_candidates(roots.drop_last(), worktree, ignored),
            root,
            worktree,
            ignored,
        );
        match latest_json_spec(root.json_sessions@, worktree, ignored) {
            Some(c) => with_db.push(c),
            None => with_db,
        }
    }
}

/// The session chosen for the worktree: the newest of the roots' candidates,
/// the earliest of equally new ones.
pub open spec fn latest_session_spec(
    worktree: ResolvedPath,
    ignored: Set<Seq<char>>,
    roots: Seq<SessionRoot>,
) -> Option<Seq<char>> {
    match newest(root_candidates(roots, worktree, ignored)) {
        Some(c) => Some(c.0),
        None => None,
    }
}

/// The id of the newest session for the worktree that is not ignored.
pub fn latest_session_id_for_worktree_in_roots(
    worktree_path: &ResolvedPath,
    ignored_session_ids: &Vec<String>,
    roots: &Vec<SessionRoot>,
) -> (r: Option<String>)
    ensures
        r.deep_view() == latest_session_spec(
            *worktree_path,
            id_set(ignored_session_ids@),
            roots@,
        ),
{
    let ghost ignored = id_set(ignored_session_ids@);
    let mut best: Option<OpenCodeSessionCandidate> = None;
    let mut i: usize = 0;
    while i < roots.len()
        invariant
            i <= roots@.len(),
            ignored == id_set(ignored_session_ids@),
            candidate_option_view(best) == newest(
                root_candidates(roots@.take(i as int), *worktree_path, ignored),
            ),
        decreases roots@.len() - i,
    {
        let root = &roots[i];
        assert(roots@.take(i + 1).drop_last() =~= roots@.take(i as int));
        assert(roots@.take(i + 1).last() == *root);
        let ghost prev = root_candidates(roots@.take(i as int), *worktree_path, ignored);
        let ghost with_db = with_sqlite_candidate(prev, *root, *worktree_path, ignored);
        match &root.sqlite {
            Some(db) => {
                match latest_sqlite_session_id(db, worktree_path, ignored_session_ids) {
                    Some(candidate) => {
                        assert(with_db.drop_last() =~= prev);
                        keep_newest(&mut best, candidate);
                    },
                    None => {},
                }
            },
            None => {},
        }
        assert(candidate_option_view(best) == newest(with_db));
        match latest_json_session_id(&root.json_sessions, worktree_path, ignored_session_ids) {
            Some(candidate) => {
                assert(with_db.push(candidate@).drop_last() =~= with_db);
                keep_newest(&mut best, candidate);
            },
            None => {},
        }
        i = i + 1;
    }
    assert(roots@.take(roots@.len() as int) =~= roots@);
    match best {
        Some(candidate) => Some(candidate.id),
        None => None,
    }
}

/// The columns by which recent sessions are looked up, most preferred first.
pub fn session_order_columns() -> (r: Vec<&'static str>)
    ensures
        r@.len() == 5,
        r@[0]@ == "time_updated"@,
        r@[1]@ == "updated_at"@,
        r@[2]@ == "time_created"@,
        r@[3]@ == "created_at"@,
        r@[4]@ == "rowid"@,
{
    vec!["time_updated", "updated_at", "time_created", "created_at", "rowid"]
}

/// The query for the hundred most recent sessions by `order_column`.
pub fn latest_session_query(order_column: &str) -> (r: String)
    ensures
        r@ == "select id, directory from session order by "@ + order_column@
            + " desc limit 100"@,
{
    let mut query = String::from_str("select id, directory from session order by ");
    query.append(order_column);
    query.append(" desc limit 100");
    query
}

/// Keeping the newest candidate keeps one exactly when there is one; the one
/// kept is at least as new as every candidate, and no earlier candidate is as
/// new (ties keep the first).
pub proof fn lemma_newest_keeps_first_newest(candidates: Seq<CandidateView>)
    ensures
        newest(candidates) is None <==> candidates.len() == 0,
        newest(candidates) matches Some(c) ==> exists|i: int|
            0 <= i < candidates.len() && candidates[i] == c && (forall|j: int|
                0 <= j < candidates.len() ==> (#[trigger] candidates[j]).1 <= c.1) && (forall|j: int|
                0 <= j < i ==> (#[trigger] candidates[j]).1 < c.1),
    decreases candidates.len(),
{
    if candidates.len() > 0 {
        let rest = candidates.drop_last();
        let n = candidates.len() - 1;
        lemma_newest_keeps_first_newest(rest);
        assert forall|j: int| 0 <= j < n implies rest[j] == candidates[j] by {}
        match newest(rest) {
            None => {
                assert(newest(candidates) == Some(candidates[n]));
            },
            Some(b) => {
                let i = choose|i: int|
                    0 <= i < rest.len() && rest[i] == b && (forall|j: int|
                        0 <= j < rest.len() ==> (#[trigger] rest[j]).1 <= b.1) && (forall|j: int|
                        0 <= j < i ==> (#[trigger] rest[j]).1 < b.1);
                if candidates[n].1 > b.1 {
                    assert forall|j: int| 0 <= j < n implies (#[trigger] candidates[j]).1
                        < candidates[n].1 by {
                        assert(rest[j].1 <= b.1);
                    }
                } else {
                    assert(candidates[i] == b);
                    assert forall|j: int| 0 <= j < candidates.len() implies (
                    #[trigger] candidates[j]).1 <= b.1 by {
                        if j < n {
                            assert(rest[j].1 <= b.1);
                        }
                    }
                    assert forall|j: int| 0 <= j < i implies (#[trigger] candidates[j]).1 < b.1 by {
                        assert(rest[j].1 < b.1);
                    }
                }
            },
        }
    }
}

/// The rows a query gave, none when it could not be prepared.
pub open spec fn query_rows(query: SessionQuery) -> Seq<SessionRow> {
    match query {
        SessionQuery::Unprepared => Seq::empty(),
        SessionQuery::Rows { rows, .. } => rows@,
    }
}

/// The session `id` is recorded in a root as belonging to the worktree: in a
/// JSON session file, or in a row that a recent-sessions query gave.
pub open spec fn recorded_in_root(root: SessionRoot, id: Seq<char>, worktree: ResolvedPath) -> bool {
    ||| exists|i: int|
        0 <= i < root.json_sessions@.len() && (#[trigger] root.json_sessions@[i]).id@ == id
            && same_path_spec(root.json_sessions@[i].directory, worktree)
    ||| match root.sqlite {
        Some(db) => exists|q: int, i: int|
            0 <= q < db.ordered_queries@.len() && 0 <= i < query_rows(
                #[trigger] db.ordered_queries@[q],
            ).len() && (#[trigger] query_rows(db.ordered_queries@[q])[i]).id@ == id
                && same_path_spec(query_rows(db.ordered_queries@[q])[i].directory, worktree),
        None => false,
    }
}

/// `id` is the id of an eligible session among `sessions`.
pub open spec fn eligible_json_id(
    sessions: Seq<JsonSession>,
    id: Seq<char>,
    worktree: ResolvedPath,
    ignored: Set<Seq<char>>,
) -> bool {
    exists|i: int|
        0 <= i < sessions.len() && (#[trigger] sessions[i]).id@ == id && eligible(
            sessions[i].id@,
            sessions[i].directory,
            worktree,
            ignored,
        )
}

/// Every JSON candidate is an eligible session.
proof fn lemma_json_candidates_eligible(
    sessions: Seq<JsonSession>,
    worktree: ResolvedPath,
    ignored: Set<Seq<char>>,
)
    ensures
        forall|k: int|
            0 <= k < json_candidates(sessions, worktree, ignored).len() ==> eligible_json_id(
                sessions,
                (#[trigger] json_candidates(sessions, worktree, ignored)[k]).0,
                worktree,
                ignored,
            ),
    decreases sessions.len(),
{
    if sessions.len() > 0 {
        let rest = sessions.drop_last();
        lemma_json_candidates_eligible(rest, worktree, ignored);
        let now = json_candidates(sessions, worktree, ignored);
        let prev = json_candidates(rest, worktree, ignored);
        assert forall|k: int| 0 <= k < now.len() implies eligible_json_id(
            sessions,
            (#[trigger] now[k]).0,
            worktree,
            ignored,
        ) by {
            if k < prev.len() {
                assert(now[k] == prev[k]);
                assert(eligible_json_id(rest, prev[k].0, worktree, ignored));
                let i = choose|i: int|
                    0 <= i < rest.len() && (#[trigger] rest[i]).id@ == prev[k].0 && eligible(
                        rest[i].id@,
                        rest[i].directory,
                        worktree,
                        ignored,
                    );
                assert(sessions[i] == rest[i]);
            } else {
                let last = sessions.len() - 1;
                assert(sessions[last] == sessions.last());
                assert(now[k].0 == sessions[last].id@);
            }
        }
    }
}

/// The row the queries choose is an eligible row of one of them.
proof fn lemma_pick_is_eligible_row(
    queries: Seq<SessionQuery>,
    worktree: ResolvedPath,
    ignored: Set<Seq<char>>,
)
    ensures
        pick_from_queries(queries, worktree, ignored) matches Some(id) ==> !ignored.contains(id)
            && exists|q: int, i: int|
            0 <= q < queries.len() && 0 <= i < query_rows(#[trigger] queries[q]).len() && (
            #[trigger] query_rows(queries[q])[i]).id@ == id && same_path_spec(
                query_rows(queries[q])[i].directory,
                worktree,
            ),
    decreases queries.len(),
{
    if queries.len() > 0 {
        lemma_pick_is_eligible_row(queries.drop_first(), worktree, ignored);
        if let Some(id) = pick_from_queries(queries, worktree, ignored) {
            let rows = query_rows(queries[0]);
            match first_eligible_row(rows, worktree, ignored) {
                Some(found) => {
                    lemma_first_eligible_row(rows, worktree, ignored);
                    let i = choose|i: int|
                        0 <= i < rows.len() && (#[trigger] rows[i]).id@ == found && eligible(
                            rows[i].id@,
                            rows[i].directory,
                            worktree,
                            ignored,
                        );
                    if queries[0] is Rows {
                        assert(query_rows(queries[0])[i].id@ == id);
                    }
                },
                None => {
                    let q = choose|q: int, i: int|
                        0 <= q < queries.drop_first().len() && 0 <= i < query_rows(
                            #[trigger] queries.drop_first()[q],
                        ).len() && (#[trigger] query_rows(queries.drop_first()[q])[i]).id@ == id
                            && same_path_spec(
                            query_rows(queries.drop_first()[q])[i].directory,
                            worktree,
                        );
                    assert(queries.drop_first()[q.0] == queries[q.0 + 1]);
                },
            }
        }
    }
}

/// The first eligible row is an eligible row.
proof fn lemma_first_eligible_row(rows: Seq<SessionRow>, worktree: ResolvedPath, ignored: Set<Seq<char>>)
    ensures
        first_eligible_row(rows, worktree, ignored) matches Some(id) ==> exists|i: int|
            0 <= i < rows.len() && (#[trigger] rows[i]).id@ == id && eligible(
                rows[i].id@,
                rows[i].directory,
                worktree,
                ignored,
            ),
    decreases rows.len(),
{
    if rows.len() > 0 {
        lemma_first_eligible_row(rows.drop_first(), worktree, ignored);
        if !eligible(rows[0].id@, rows[0].directory, worktree, ignored) {
            if let Some(id) = first_eligible_row(rows, worktree, ignored) {
                let i = choose|i: int|
                    0 <= i < rows.drop_first().len() && (#[trigger] rows.drop_first()[i]).id@ == id
                        && eligible(
                        rows.drop_first()[i].id@,
                        rows.drop_first()[i].directory,
                        worktree,
                        ignored,
                    );
                assert(rows[i + 1] == rows.drop_first()[i]);
            }
        }
    }
}

/// A candidate that is not ignored and that some root records as belonging
/// to the worktree.
pub open spec fn recorded_candidate(
    roots: Seq<SessionRoot>,
    id: Seq<char>,
    worktree: ResolvedPath,
    ignored: Set<Seq<char>>,
) -> bool {
    !ignored.contains(id) && exists|k: int|
        0 <= k < roots.len() && recorded_in_root(#[trigger] roots[k], id, worktree)
}

/// Every candidate the roots offer is a recorded, unignored session.
proof fn lemma_root_candidates_recorded(
    roots: Seq<SessionRoot>,
    worktree: ResolvedPath,
    ignored: Set<Seq<char>>,
)
    ensures
        forall|j: int|
            0 <= j < root_candidates(roots, worktree, ignored).len() ==> recorded_candidate(
                roots,
                (#[trigger] root_candidates(roots, worktree, ignored)[j]).0,
                worktree,
                ignored,
            ),
    decreases roots.len(),
{
    if roots.len() > 0 {
        let rest = roots.drop_last();
        let n = roots.len() - 1;
        let root = roots[n];
        assert(roots.last() == root);
        lemma_root_candidates_recorded(rest, worktree, ignored);
        let prev = root_candidates(rest, worktree, ignored);
        let with_db = with_sqlite_candidate(prev, root, worktree, ignored);
        let now = root_candidates(roots, worktree, ignored);
        assert forall|k: int| 0 <= k < rest.len() implies rest[k] == roots[k] by {}
        assert forall|j: int| 0 <= j < now.len() implies recorded_candidate(
            roots,
            (#[trigger] now[j]).0,
            worktree,
            ignored,
        ) by {
            if j < prev.len() {
                assert(with_db[j] == prev[j]);
                assert(now[j] == prev[j]);
                assert(recorded_candidate(rest, prev[j].0, worktree, ignored));
                let k = choose|k: int|
                    0 <= k < rest.len() && recorded_in_root(#[trigger] rest[k], prev[j].0, worktree);
                assert(rest[k] == roots[k]);
            } else if j < with_db.len() {
                let db = root.sqlite.unwrap();
                assert(now[j] == with_db[j]);
                lemma_pick_is_eligible_row(db.ordered_queries@, worktree, ignored);
                assert(recorded_in_root(roots[n], now[j].0, worktree));
            } else {
                let sessions = root.json_sessions@;
                let cands = json_candidates(sessions, worktree, ignored);
                lemma_newest_keeps_first_newest(cands);
                lemma_json_candidates_eligible(sessions, worktree, ignored);
                let c = newest(cands).unwrap();
                let i = choose|i: int|
                    0 <= i < cands.len() && cands[i] == c && (forall|m: int|
                        0 <= m < cands.len() ==> (#[trigger] cands[m]).1 <= c.1) && (forall|m: int|
                        0 <= m < i ==> (#[trigger] cands[m]).1 < c.1);
                assert(eligible_json_id(sessions, cands[i].0, worktree, ignored));
                assert(now[j] == c);
                assert(recorded_in_root(roots[n], now[j].0, worktree));
            }
        }
    }
}

/// The session chosen for a worktree is never an ignored one, and some root
/// records it as belonging to the worktree: in a JSON session file, or in a
/// row of a recent-sessions query.
pub proof fn lemma_latest_session_is_recorded(
    worktree: ResolvedPath,
    ignored: Set<Seq<char>>,
    roots: Seq<SessionRoot>,
)
    ensures
        latest_session_spec(worktree, ignored, roots) matches Some(id) ==> recorded_candidate(
            roots,
            id,
            worktree,
            ignored,
        ),
{
    let cands = root_candidates(roots, worktree, ignored);
    lemma_root_candidates_recorded(roots, worktree, ignored);
    lemma_newest_keeps_first_newest(cands);
    if let Some(c) = newest(cands) {
        let i = choose|i: int|
            0 <= i < cands.len() && cands[i] == c && (forall|m: int|
                0 <= m < cands.len() ==> (#[trigger] cands[m]).1 <= c.1) && (forall|m: int|
                0 <= m < i ==> (#[trigger] cands[m]).1 < c.1);
        assert(recorded_candidate(roots, cands[i].0, worktree, ignored));
    }
}

/// The database's recent-sessions queries read rows of the same table that
/// the query for every session read in full.
pub open spec fn database_consistent(db: SqliteSessions) -> bool {
    &&& db.all_sessions matches SessionQuery::Rows { complete, .. } && complete
    &&& forall|q: int, i: int|
        0 <= q < db.ordered_queries@.len() && 0 <= i < query_rows(
            #[trigger] db.ordered_queries@[q],
        ).len() ==> query_rows(db.all_sessions).contains(
            #[trigger] query_rows(db.ordered_queries@[q])[i],
        )
}

/// One root's ids lie among all roots' ids.
proof fn lemma_root_ids_in_all(roots: Seq<SessionRoot>, worktree: ResolvedPath, k: int)
    requires
        0 <= k < roots.len(),
    ensures
        root_ids_spec(roots[k], worktree).subset_of(session_ids_spec(roots, worktree)),
    decreases roots.len(),
{
    if k < roots.len() - 1 {
        lemma_root_ids_in_all(roots.drop_last(), worktree, k);
        assert(roots.drop_last()[k] == roots[k]);
    }
}

/// No JSON session is a candidate once the worktree's ids are ignored.
proof fn lemma_no_json_candidates(
    sessions: Seq<JsonSession>,
    worktree: ResolvedPath,
    ignored: Set<Seq<char>>,
)
    requires
        json_ids_spec(sessions, worktree).subset_of(ignored),
    ensures
        json_candidates(sessions, worktree, ignored).len() == 0,
    decreases sessions.len(),
{
    if sessions.len() > 0 {
        let rest = sessions.drop_last();
        assert(json_ids_spec(rest, worktree).subset_of(ignored)) by {
            assert forall|id: Seq<char>| json_ids_spec(rest, worktree).contains(id) implies ignored.contains(id) by {
                let i = choose|i: int|
                    0 <= i < rest.len() && (#[trigger] rest[i]).id@ == id && same_path_spec(
                        rest[i].directory,
                        worktree,
                    );
                assert(sessions[i] == rest[i]);
                assert(json_ids_spec(sessions, worktree).contains(id));
            }
        }
        lemma_no_json_candidates(rest, worktree, ignored);
        let last = sessions.len() - 1;
        assert(sessions.last() == sessions[last]);
        if same_path_spec(sessions[last].directory, worktree) {
            assert(json_ids_spec(sessions, worktree).contains(sessions[last].id@));
        }
    }
}

/// No row is chosen when every row of the worktree has an ignored id.
proof fn lemma_no_eligible_row(rows: Seq<SessionRow>, worktree: ResolvedPath, ignored: Set<Seq<char>>)
    requires
        forall|i: int|
            0 <= i < rows.len() && same_path_spec((#[trigger] rows[i]).directory, worktree)
                ==> ignored.contains(rows[i].id@),
    ensures
        first_eligible_row(rows, worktree, ignored) is None,
    decreases rows.len(),
{
    if rows.len() > 0 {
        assert forall|i: int|
            0 <= i < rows.drop_first().len() && same_path_spec(
                (#[trigger] rows.drop_first()[i]).directory,
                worktree,
            ) implies ignored.contains(rows.drop_first()[i].id@) by {
            assert(rows.drop_first()[i] == rows[i + 1]);
        }
        lemma_no_eligible_row(rows.drop_first(), worktree, ignored);
    }
}

/// No query chooses a row when every row of the worktree has an ignored id.
proof fn lemma_no_pick(queries: Seq<SessionQuery>, worktree: ResolvedPath, ignored: Set<Seq<char>>)
    requires
        forall|q: int, i: int|
            0 <= q < queries.len() && 0 <= i < query_rows(#[trigger] queries[q]).len()
                && same_path_spec((#[trigger] query_rows(queries[q])[i]).directory, worktree)
                ==> ignored.contains(query_rows(queries[q])[i].id@),
    ensures
        pick_from_queries(queries, worktree, ignored) is None,
    decreases queries.len(),
{
    if queries.len() > 0 {
        let rest = queries.drop_first();
        assert forall|q: int, i: int|
            0 <= q < rest.len() && 0 <= i < query_rows(#[trigger] rest[q]).len() && same_path_spec(
                (#[trigger] query_rows(rest[q])[i]).directory,
                worktree,
            ) implies ignored.contains(query_rows(rest[q])[i].id@) by {
            assert(rest[q] == queries[q + 1]);
        }
        lemma_no_pick(rest, worktree, ignored);
        let rows = query_rows(queries[0]);
        assert forall|i: int|
            0 <= i < rows.len() && same_path_spec((#[trigger] rows[i]).directory, worktree)
                implies ignored.contains(rows[i].id@) by {
            assert(query_rows(queries[0])[i] == rows[i]);
        }
        lemma_no_eligible_row(rows, worktree, ignored);
    }
}

/// No root offers a candidate once every id recorded for the worktree is
/// ignored.
proof fn lemma_no_root_candidates(
    roots: Seq<SessionRoot>,
    worktree: ResolvedPath,
    ignored: Set<Seq<char>>,
)
    requires
        forall|k: int|
            0 <= k < roots.len() ==> root_ids_spec(#[trigger] roots[k], worktree).subset_of(ignored),
        forall|k: int|
            0 <= k < roots.len() ==> ((#[trigger] roots[k]).sqlite matches Some(db)
                ==> database_consistent(db)),
    ensures
        root_candidates(roots, worktree, ignored).len() == 0,
    decreases roots.len(),
{
    if roots.len() > 0 {
        let rest = roots.drop_last();
        let n = roots.len() - 1;
        let root = roots[n];
        assert(roots.last() == root);
        assert forall|k: int| 0 <= k < rest.len() implies rest[k] == roots[k] by {}
        lemma_no_root_candidates(rest, worktree, ignored);
        let ids = root_ids_spec(root, worktree);
        assert(json_ids_spec(root.json_sessions@, worktree).subset_of(ignored));
        lemma_no_json_candidates(root.json_sessions@, worktree, ignored);
        if let Some(db) = root.sqlite {
            let all = query_rows(db.all_sessions);
            assert(sqlite_ids_spec(db, worktree) == row_ids(all, worktree));
            assert(sqlite_ids_spec(db, worktree).subset_of(ignored));
            assert forall|q: int, i: int|
                0 <= q < db.ordered_queries@.len() && 0 <= i < query_rows(
                    #[trigger] db.ordered_queries@[q],
                ).len() && same_path_spec(
                    (#[trigger] query_rows(db.ordered_queries@[q])[i]).directory,
                    worktree,
                ) implies ignored.contains(query_rows(db.ordered_queries@[q])[i].id@) by {
                let row = query_rows(db.ordered_queries@[q])[i];
                assert(all.contains(row));
                let j = choose|j: int| 0 <= j < all.len() && all[j] == row;
                assert(row_ids(all, worktree).contains(all[j].id@));
            }
            lemma_no_pick(db.ordered_queries@, worktree, ignored);
        }
    }
}

/// Once every session recorded for the worktree is ignored, no session is
/// chosen: a session is found again only when it is new. This holds when each
/// database's recent-sessions queries read rows that its full read also gave.
pub proof fn lemma_ignoring_known_sessions_finds_none(
    worktree: ResolvedPath,
    ignored: Set<Seq<char>>,
    roots: Seq<SessionRoot>,
)
    requires
        session_ids_spec(roots, worktree).subset_of(ignored),
        forall|k: int|
            0 <= k < roots.len() ==> ((#[trigger] roots[k]).sqlite matches Some(db)
                ==> database_consistent(db)),
    ensures
        latest_session_spec(worktree, ignored, roots) is None,
{
    assert forall|k: int| 0 <= k < roots.len() implies root_ids_spec(
        #[trigger] roots[k],
        worktree,
    ).subset_of(ignored) by {
        lemma_root_ids_in_all(roots, worktree, k);
    }
    lemma_no_root_candidates(roots, worktree, ignored);
}

/// The query could not be prepared or was read in full.
pub open spec fn read_in_full_or_skipped(query: SessionQuery) -> bool {
    match query {
        SessionQuery::Unprepared => true,
        SessionQuery::Rows { complete, .. } => complete,
    }
}

/// A root offers session `id` for the worktree: a JSON session file records
/// it, or a recent-sessions query gave a row of it, with every query before
/// that one skipped or read in full.
pub open spec fn offered_in_root(root: SessionRoot, id: Seq<char>, worktree: ResolvedPath) -> bool {
    ||| exists|i: int|
        0 <= i < root.json_sessions@.len() && (#[trigger] root.json_sessions@[i]).id@ == id
            && same_path_spec(root.json_sessions@[i].directory, worktree)
    ||| match root.sqlite {
        Some(db) => exists|q: int, i: int|
            0 <= q < db.ordered_queries@.len() && (forall|p: int|
                0 <= p < q ==> read_in_full_or_skipped(#[trigger] db.ordered_queries@[p])) && 0 <= i
                < query_rows(#[trigger] db.ordered_queries@[q]).len() && (#[trigger] query_rows(
                db.ordered_queries@[q],
            )[i]).id@ == id && same_path_spec(query_rows(db.ordered_queries@[q])[i].directory, worktree),
        None => false,
    }
}

/// Some row is chosen when an eligible row exists.
proof fn lemma_some_eligible_row(rows: Seq<SessionRow>, worktree: ResolvedPath, ignored: Set<Seq<char>>, i: int)
    requires
        0 <= i < rows.len(),
        eligible(rows[i].id@, rows[i].directory, worktree, ignored),
    ensures
        first_eligible_row(rows, worktree, ignored) is Some,
    decreases rows.len(),
{
    if i > 0 && !eligible(rows[0].id@, rows[0].directory, worktree, ignored) {
        assert(rows.drop_first()[i - 1] == rows[i]);
        lemma_some_eligible_row(rows.drop_first(), worktree, ignored, i - 1);
    }
}

/// The queries choose some row when one of them gave an eligible row and the
/// queries before it were skipped or read in full.
proof fn lemma_some_pick(queries: Seq<SessionQuery>, worktree: ResolvedPath, ignored: Set<Seq<char>>, q: int, i: int)
    requires
        0 <= q < queries.len(),
        forall|p: int| 0 <= p < q ==> read_in_full_or_skipped(#[trigger] queries[p]),
        0 <= i < query_rows(queries[q]).len(),
        eligible(query_rows(queries[q])[i].id@, query_rows(queries[q])[i].directory, worktree, ignored),
    ensures
        pick_from_queries(queries, worktree, ignored) is Some,
    decreases queries.len(),
{
    let rest = queries.drop_first();
    if q == 0 {
        if let SessionQuery::Rows { rows, complete } = queries[0] {
            lemma_some_eligible_row(rows@, worktree, ignored, i);
        }
    } else {
        assert(read_in_full_or_skipped(queries[0]));
        assert forall|p: int| 0 <= p < q - 1 implies read_in_full_or_skipped(#[trigger] rest[p]) by {
            assert(rest[p] == queries[p + 1]);
        }
        assert(rest[q - 1] == queries[q]);
        lemma_some_pick(rest, worktree, ignored, q - 1, i);
    }
}

/// A root that offers an unignored session contributes a candidate, and
/// the candidates of earlier roots stay.
proof fn lemma_offered_gives_candidate(
    roots: Seq<SessionRoot>,
    worktree: ResolvedPath,
    ignored: Set<Seq<char>>,
    id: Seq<char>,
    k: int,
)
    requires
        0 <= k < roots.len(),
        !ignored.contains(id),
        offered_in_root(roots[k], id, worktree),
    ensures
        root_candidates(roots, worktree, ignored).len() > 0,
    decreases roots.len(),
{
    let n = roots.len() - 1;
    let rest = roots.drop_last();
    let root = roots[n];
    assert(roots.last() == root);
    let prev = root_candidates(rest, worktree, ignored);
    let with_db = with_sqlite_candidate(prev, root, worktree, ignored);
    assert(with_db.len() >= prev.len());
    if k < n {
        assert(rest[k] == roots[k]);
        lemma_offered_gives_candidate(rest, worktree, ignored, id, k);
    } else {
        let sessions = root.json_sessions@;
        if exists|i: int|
            0 <= i < sessions.len() && (#[trigger] sessions[i]).id@ == id && same_path_spec(
                sessions[i].directory,
                worktree,
            ) {
            let i = choose|i: int|
                0 <= i < sessions.len() && (#[trigger] sessions[i]).id@ == id && same_path_spec(
                    sessions[i].directory,
                    worktree,
                );
            lemma_some_json_candidate(sessions, worktree, ignored, i);
            lemma_newest_keeps_first_newest(json_candidates(sessions, worktree, ignored));
        } else {
            let db = root.sqlite.unwrap();
            let queries = db.ordered_queries@;
            let (q, i) = choose|q: int, i: int|
                0 <= q < queries.len() && (forall|p: int|
                    0 <= p < q ==> read_in_full_or_skipped(#[trigger] queries[p])) && 0 <= i
                    < query_rows(#[trigger] queries[q]).len() && (#[trigger] query_rows(
                    queries[q],
                )[i]).id@ == id && same_path_spec(query_rows(queries[q])[i].directory, worktree);
            lemma_some_pick(queries, worktree, ignored, q, i);
        }
    }
}

/// An eligible JSON session makes a candidate.
proof fn lemma_some_json_candidate(
    sessions: Seq<JsonSession>,
    worktree: ResolvedPath,
    ignored: Set<Seq<char>>,
    i: int,
)
    requires
        0 <= i < sessions.len(),
        eligible(sessions[i].id@, sessions[i].directory, worktree, ignored),
    ensures
        json_candidates(sessions, worktree, ignored).len() > 0,
    decreases sessions.len(),
{
    let n = sessions.len() - 1;
    if i < n {
        assert(sessions.drop_last()[i] == sessions[i]);
        lemma_some_json_candidate(sessions.drop_last(), worktree, ignored, i);
    } else {
        assert(sessions.last() == sessions[i]);
    }
}

/// When every session recorded for the worktree is ignored but one, and a
/// root offers that one, it is the session found: a session that appears
/// after all known ones were set aside is the one picked up.
pub proof fn lemma_only_unignored_session_is_found(
    worktree: ResolvedPath,
    ignored: Set<Seq<char>>,
    roots: Seq<SessionRoot>,
    new_id: Seq<char>,
)
    requires
        !ignored.contains(new_id),
        forall|k: int, id: Seq<char>|
            0 <= k < roots.len() && #[trigger] recorded_in_root(roots[k], id, worktree) ==> id
                == new_id || ignored.contains(id),
        exists|k: int| 0 <= k < roots.len() && offered_in_root(#[trigger] roots[k], new_id, worktree),
    ensures
        latest_session_spec(worktree, ignored, roots) == Some(new_id),
{
    let k = choose|k: int| 0 <= k < roots.len() && offered_in_root(#[trigger] roots[k], new_id, worktree);
    lemma_offered_gives_candidate(roots, worktree, ignored, new_id, k);
    let cands = root_candidates(roots, worktree, ignored);
    lemma_root_candidates_recorded(roots, worktree, ignored);
    lemma_newest_keeps_first_newest(cands);
    let c = newest(cands).unwrap();
    let i = choose|i: int|
        0 <= i < cands.len() && cands[i] == c && (forall|m: int|
            0 <= m < cands.len() ==> (#[trigger] cands[m]).1 <= c.1) && (forall|m: int|
            0 <= m < i ==> (#[trigger] cands[m]).1 < c.1);
    assert(recorded_candidate(roots, cands[i].0, worktree, ignored));
}

/// Offering candidates one by one to `keep_newest`, starting from none (which
/// `newest` spells out), keeps `candidates[k]` when `k` is the first index
/// whose time is the latest.
pub proof fn lemma_keep_newest_keeps_first_latest(candidates: Seq<CandidateView>, k: int)
    requires
        0 <= k < candidates.len(),
        forall|j: int| 0 <= j < candidates.len() ==> (#[trigger] candidates[j]).1 <= candidates[k].1,
        forall|j: int| 0 <= j < k ==> (#[trigger] candidates[j]).1 < candidates[k].1,
    ensures
        newest(candidates) == Some(candidates[k]),
{
    lemma_newest_keeps_first_newest(candidates);
    let c = newest(candidates).unwrap();
    let i = choose|i: int|
        0 <= i < candidates.len() && candidates[i] == c && (forall|j: int|
            0 <= j < candidates.len() ==> (#[trigger] candidates[j]).1 <= c.1) && (forall|j: int|
            0 <= j < i ==> (#[trigger] candidates[j]).1 < c.1);
    if i < k {
        assert(candidates[i].1 < candidates[k].1);
        assert(candidates[k].1 <= candidates[i].1);
    } else if k < i {
        assert(candidates[k].1 < candidates[i].1);
        assert(candidates[i].1 <= candidates[k].1);
    }
}

/// A row the worktree may take: its id is not ignored and its directory
/// names the worktree.
pub open spec fn row_may_be_taken(row: SessionRow, worktree: ResolvedPath, ignored: Set<Seq<char>>) -> bool {
    !ignored.contains(row.id@) && same_path_spec(row.directory, worktree)
}

/// The row chosen within one query's rows is the first that may be taken.
proof fn lemma_first_eligible_row_is_first_takeable(
    rows: Seq<SessionRow>,
    worktree: ResolvedPath,
    ignored: Set<Seq<char>>,
)
    ensures
        match first_eligible_row(rows, worktree, ignored) {
            Some(id) => exists|i: int|
                0 <= i < rows.len() && (#[trigger] rows[i]).id@ == id && row_may_be_taken(
                    rows[i],
                    worktree,
                    ignored,
                ) && forall|j: int| 0 <= j < i ==> !row_may_be_taken(#[trigger] rows[j], worktree, ignored),
            None => forall|i: int|
                0 <= i < rows.len() ==> !row_may_be_taken(#[trigger] rows[i], worktree, ignored),
        },
    decreases rows.len(),
{
    if rows.len() > 0 {
        let rest = rows.drop_first();
        lemma_first_eligible_row_is_first_takeable(rest, worktree, ignored);
        assert forall|i: int| 0 <= i < rest.len() implies rest[i] == rows[i + 1] by {}
        if row_may_be_taken(rows[0], worktree, ignored) {
            assert(first_eligible_row(rows, worktree, ignored) == Some(rows[0].id@));
        } else {
            match first_eligible_row(rest, worktree, ignored) {
                Some(id) => {
                    let i = choose|i: int|
                        0 <= i < rest.len() && (#[trigger] rest[i]).id@ == id && row_may_be_taken(
                            rest[i],
                            worktree,
                            ignored,
                        ) && forall|j: int| 0 <= j < i ==> !row_may_be_taken(#[trigger] rest[j], worktree, ignored);
                    assert(rows[i + 1] == rest[i]);
                    assert forall|j: int| 0 <= j < i + 1 implies !row_may_be_taken(
                        #[trigger] rows[j],
                        worktree,
                        ignored,
                    ) by {
                        if j > 0 {
                            assert(rows[j] == rest[j - 1]);
                        }
                    }
                },
                None => {
                    assert forall|i: int| 0 <= i < rows.len() implies !row_may_be_taken(
                        #[trigger] rows[i],
                        worktree,
                        ignored,
                    ) by {
                        if i > 0 {
                            assert(rows[i] == rest[i - 1]);
                        }
                    }
                },
            }
        }
    }
}

/// The database's choice is the first row that may be taken, in query
/// order and row order, among the queries reached: a query is reached when
/// every query before it could not be prepared or was read in full. When
/// there is none, no reached query has a row that may be taken.
pub proof fn lemma_pick_is_first_takeable_row(
    queries: Seq<SessionQuery>,
    worktree: ResolvedPath,
    ignored: Set<Seq<char>>,
)
    ensures
        match pick_from_queries(queries, worktree, ignored) {
            Some(id) => exists|q: int, i: int|
                0 <= q < queries.len() && 0 <= i < query_rows(queries[q]).len() && (
                #[trigger] query_rows(queries[q])[i]).id@ == id && row_may_be_taken(
                    query_rows(queries[q])[i],
                    worktree,
                    ignored,
                ) && (forall|j: int|
                    0 <= j < i ==> !row_may_be_taken(
                        #[trigger] query_rows(queries[q])[j],
                        worktree,
                        ignored,
                    )) && (forall|p: int|
                    0 <= p < q ==> read_in_full_or_skipped(#[trigger] queries[p])) && (forall|
                    p: int,
                    j: int,
                |
                    0 <= p < q && 0 <= j < query_rows(queries[p]).len() ==> !row_may_be_taken(
                        #[trigger] query_rows(queries[p])[j],
                        worktree,
                        ignored,
                    )),
            None => forall|q: int, i: int|
                0 <= q < queries.len() && (forall|p: int|
                    0 <= p < q ==> read_in_full_or_skipped(#[trigger] queries[p])) && 0 <= i
                    < query_rows(queries[q]).len() ==> !row_may_be_taken(
                    #[trigger] query_rows(queries[q])[i],
                    worktree,
                    ignored,
                ),
        },
    decreases queries.len(),
{
    if queries.len() > 0 {
        let rest = queries.drop_first();
        lemma_pick_is_first_takeable_row(rest, worktree, ignored);
        assert forall|q: int| 0 <= q < rest.len() implies rest[q] == queries[q + 1] by {}
        let rows = query_rows(queries[0]);
        lemma_first_eligible_row_is_first_takeable(rows, worktree, ignored);
        let found = first_eligible_row(rows, worktree, ignored);
        let continues = read_in_full_or_skipped(queries[0]);
        if found is Some {
            let id = found.unwrap();
            assert(queries[0] is Rows);
            assert(pick_from_queries(queries, worktree, ignored) == Some(id));
            let i = choose|i: int|
                0 <= i < rows.len() && (#[trigger] rows[i]).id@ == id && row_may_be_taken(
                    rows[i],
                    worktree,
                    ignored,
                ) && forall|j: int| 0 <= j < i ==> !row_may_be_taken(#[trigger] rows[j], worktree, ignored);
            assert(query_rows(queries[0])[i].id@ == id);
        } else if !continues {
            assert(pick_from_queries(queries, worktree, ignored) is None);
            assert forall|q: int, i: int|
                0 <= q < queries.len() && (forall|p: int|
                    0 <= p < q ==> read_in_full_or_skipped(#[trigger] queries[p])) && 0 <= i
                    < query_rows(queries[q]).len() implies !row_may_be_taken(
                    #[trigger] query_rows(queries[q])[i],
                    worktree,
                    ignored,
                ) by {
                if q > 0 {
                    assert(read_in_full_or_skipped(queries[0]));
                }
            }
        } else {
            assert(pick_from_queries(queries, worktree, ignored) == pick_from_queries(
                rest,
                worktree,
                ignored,
            ));
            match pick_from_queries(rest, worktree, ignored) {
                Some(id) => {
                    let (q, i) = choose|q: int, i: int|
                        0 <= q < rest.len() && 0 <= i < query_rows(rest[q]).len() && (
                        #[trigger] query_rows(rest[q])[i]).id@ == id && row_may_be_taken(
                            query_rows(rest[q])[i],
                            worktree,
                            ignored,
                        ) && (forall|j: int|
                            0 <= j < i ==> !row_may_be_taken(
                                #[trigger] query_rows(rest[q])[j],
                                worktree,
                                ignored,
                            )) && (forall|p: int|
                            0 <= p < q ==> read_in_full_or_skipped(#[trigger] rest[p])) && (forall|
                            p: int,
                            j: int,
                        |
                            0 <= p < q && 0 <= j < query_rows(rest[p]).len() ==> !row_may_be_taken(
                                #[trigger] query_rows(rest[p])[j],
                                worktree,
                                ignored,
                            ));
                    assert(queries[q + 1] == rest[q]);
                    assert(query_rows(queries[q + 1])[i].id@ == id);
                    assert forall|p: int| 0 <= p < q + 1 implies read_in_full_or_skipped(
                        #[trigger] queries[p],
                    ) by {
                        if p > 0 {
                            assert(queries[p] == rest[p - 1]);
                        }
                    }
                    assert forall|p: int, j: int|
                        0 <= p < q + 1 && 0 <= j < query_rows(queries[p]).len() implies !row_may_be_taken(
                        #[trigger] query_rows(queries[p])[j],
                        worktree,
                        ignored,
                    ) by {
                        if p > 0 {
                            assert(queries[p] == rest[p - 1]);
                            assert(query_rows(rest[p - 1])[j] == query_rows(queries[p])[j]);
                        }
                    }
                    assert forall|j: int| 0 <= j < i implies !row_may_be_taken(
                        #[trigger] query_rows(queries[q + 1])[j],
                        worktree,
                        ignored,
                    ) by {
                        assert(query_rows(rest[q])[j] == query_rows(queries[q + 1])[j]);
                    }
                },
                None => {
                    assert forall|q: int, i: int|
                        0 <= q < queries.len() && (forall|p: int|
                            0 <= p < q ==> read_in_full_or_skipped(#[trigger] queries[p])) && 0 <= i
                            < query_rows(queries[q]).len() implies !row_may_be_taken(
                            #[trigger] query_rows(queries[q])[i],
                            worktree,
                            ignored,
                        ) by {
                        if q > 0 {
                            assert(queries[q] == rest[q - 1]);
                            assert forall|p: int| 0 <= p < q - 1 implies read_in_full_or_skipped(
                                #[trigger] rest[p],
                            ) by {
                                assert(rest[p] == queries[p + 1]);
                            }
                            assert(query_rows(rest[q - 1])[i] == query_rows(queries[q])[i]);
                        }
                    }
                },
            }
        }
    }
}

/// A session id is recorded for the worktree in a root: a JSON session file
/// of that root records it with a directory naming the worktree, or the
/// root's database was read in full and has a row of it with such a
/// directory.
pub open spec fn id_recorded_for_worktree(root: SessionRoot, id: Seq<char>, worktree: ResolvedPath) -> bool {
    ||| exists|i: int|
        0 <= i < root.json_sessions@.len() && (#[trigger] root.json_sessions@[i]).id@ == id
            && same_path_spec(root.json_sessions@[i].directory, worktree)
    ||| match root.sqlite {
        Some(db) => match db.all_sessions {
            SessionQuery::Rows { rows, complete } => complete && exists|i: int|
                0 <= i < rows@.len() && (#[trigger] rows@[i]).id@ == id && same_path_spec(
                    rows@[i].directory,
                    worktree,
                ),
            SessionQuery::Unprepared => false,
        },
        None => false,
    }
}

/// One root's ids are exactly those it records for the worktree.
proof fn lemma_root_ids_are_recorded_ids(root: SessionRoot, worktree: ResolvedPath)
    ensures
        forall|id: Seq<char>|
            #[trigger] root_ids_spec(root, worktree).contains(id) <==> id_recorded_for_worktree(
                root,
                id,
                worktree,
            ),
{
}

/// The ids listed for a worktree are exactly those some root records for it:
/// no session of another directory is listed, and none recorded is left out.
pub proof fn lemma_session_ids_are_recorded_ids(roots: Seq<SessionRoot>, worktree: ResolvedPath)
    ensures
        forall|id: Seq<char>|
            #[trigger] session_ids_spec(roots, worktree).contains(id) <==> exists|k: int|
                0 <= k < roots.len() && id_recorded_for_worktree(#[trigger] roots[k], id, worktree),
    decreases roots.len(),
{
    if roots.len() > 0 {
        let rest = roots.drop_last();
        let n = roots.len() - 1;
        lemma_session_ids_are_recorded_ids(rest, worktree);
        lemma_root_ids_are_recorded_ids(roots[n], worktree);
        assert(roots.last() == roots[n]);
        assert forall|k: int| 0 <= k < rest.len() implies rest[k] == roots[k] by {}
        assert forall|id: Seq<char>|
            #[trigger] session_ids_spec(roots, worktree).contains(id) <==> exists|k: int|
                0 <= k < roots.len() && id_recorded_for_worktree(#[trigger] roots[k], id, worktree) by {
            if session_ids_spec(roots, worktree).contains(id) {
                if session_ids_spec(rest, worktree).contains(id) {
                    let k = choose|k: int|
                        0 <= k < rest.len() && id_recorded_for_worktree(#[trigger] rest[k], id, worktree);
                    assert(roots[k] == rest[k]);
                } else {
                    assert(root_ids_spec(roots[n], worktree).contains(id));
                }
            }
            if exists|k: int|
                0 <= k < roots.len() && id_recorded_for_worktree(#[trigger] roots[k], id, worktree) {
                let k = choose|k: int|
                    0 <= k < roots.len() && id_recorded_for_worktree(#[trigger] roots[k], id, worktree);
                if k < n {
                    assert(rest[k] == roots[k]);
                    assert(session_ids_spec(rest, worktree).contains(id));
                } else {
                    assert(root_ids_spec(roots[n], worktree).contains(id));
                }
            }
        }
    }
}

} // verus!
