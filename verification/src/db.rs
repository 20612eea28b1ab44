//! The persistence layer: schema ownership and transactional batch inserts
//! with natural-key deduplication, over a SQLite store.  The store calls go
//! through small trusted wrappers; everything around them — which rows enter
//! the side-export buffer, in what order, and how text is split into export
//! lines — is verified.

use vstd::prelude::*;

verus! {

/// Declares `rusqlite::Connection` so the store handle can hold one.
#[verifier::external_type_specification]
#[verifier::external_body]
pub struct ExConnection(rusqlite::Connection);

/// Declares `rusqlite::Error` so the wrappers can return it.
#[verifier::external_type_specification]
#[verifier::external_body]
pub struct ExSqliteError(rusqlite::Error);

/// Relies on `rusqlite::Connection::open`: opens (creating when absent) the
/// database reached by `path`; `:memory:` and URI paths name in-memory
/// stores.
#[verifier::external_body]
fn open_conn(path: &str) -> Result<rusqlite::Connection, rusqlite::Error> {
    rusqlite::Connection::open(path)
}

/// Relies on `rusqlite::Connection::execute_batch`: prepares and runs each
/// statement of `sql` in order, stopping at the first failure.
#[verifier::external_body]
fn exec_batch(conn: &rusqlite::Connection, sql: &str) -> Result<(), rusqlite::Error> {
    conn.execute_batch(sql)
}

/// Relies on `rusqlite::Connection::execute` with two text parameters: runs
/// the one statement and returns how many rows it changed.
#[verifier::external_body]
fn exec_2str(conn: &rusqlite::Connection, sql: &str, a: &str, b: &str) -> Result<
    usize,
    rusqlite::Error,
> {
    conn.execute(sql, (a, b))
}

/// Relies on `rusqlite::Connection::execute` with the episode row's
/// parameters: runs the one statement and returns how many rows it changed.
#[verifier::external_body]
fn exec_episode(
    conn: &rusqlite::Connection,
    sql: &str,
    show_id: i64,
    name: &str,
    season: i32,
    episode_number: i32,
) -> Result<usize, rusqlite::Error> {
    conn.execute(sql, (show_id, name, season, episode_number))
}

/// Relies on `rusqlite::Connection::execute` with the transcript row's
/// parameters: runs the one statement and returns how many rows it changed.
#[verifier::external_body]
fn exec_transcript(
    conn: &rusqlite::Connection,
    sql: &str,
    episode_id: i64,
    line_id: i32,
    time_start: &str,
    time_end: &str,
    text: &str,
) -> Result<usize, rusqlite::Error> {
    conn.execute(sql, (episode_id, line_id, time_start, time_end, text))
}

/// Relies on `rusqlite::Connection::last_insert_rowid`: the rowid of the most
/// recent successful insert on this connection.  After a duplicate-skip it is
/// stale: it still names the prior insert, not the existing row.
#[verifier::external_body]
fn last_rowid(conn: &rusqlite::Connection) -> i64 {
    conn.last_insert_rowid()
}

/// Relies on `rusqlite::Error`'s `Display` implementation for a readable
/// description.
#[verifier::external_body]
fn sqlite_error_text(e: &rusqlite::Error) -> String {
    format!("{}", e)
}

/// The persistence layer's failures, by the call that raised them.
#[derive(Debug)]
pub enum DbError {
    /// The connection could not be opened.
    Open(String),
    /// A statement could not be prepared or run outside an insert: schema
    /// creation, transaction begin.
    Statement(String),
    /// An insert failed for a reason other than a natural-key duplicate.
    Insert(String),
    /// The transaction could not be committed.
    Commit(String),
}

impl DbError {
    /// A short human-readable description of the failure.
    pub fn message(&self) -> (r: String)
        ensures
            *self is Open ==> r@ == self->Open_0@,
            *self is Statement ==> r@ == self->Statement_0@,
            *self is Insert ==> r@ == self->Insert_0@,
            *self is Commit ==> r@ == self->Commit_0@,
    {
        match self {
            DbError::Open(m) => m.clone(),
            DbError::Statement(m) => m.clone(),
            DbError::Insert(m) => m.clone(),
            DbError::Commit(m) => m.clone(),
        }
    }
}

// ---------------------------------------------------------------------------
// Side-export records
// ---------------------------------------------------------------------------

/// One side-export record: a generated transcript rowid and one line of the
/// row's text.
#[derive(Debug, Clone, PartialEq, Eq)]
pub struct ExportRecord {
    pub row_id: i64,
    pub text_line: String,
}

/// A side-export record's value.
pub struct ExportModel {
    pub row_id: i64,
    pub text_line: Seq<char>,
}

/// Index of the first newline, or the length when there is none.
pub open spec fn nl_idx(s: Seq<char>) -> nat
    decreases s.len(),
{
    if s.len() == 0 {
        0
    } else if s[0] == '\n' {
        0
    } else {
        1 + nl_idx(s.skip(1))
    }
}

/// The lines of `text`, split on `\n`; empty text yields one empty line.
pub open spec fn split_lines(s: Seq<char>) -> Seq<Seq<char>>
    decreases s.len(),
{
    let k = nl_idx(s);
    if k >= s.len() {
        seq![s]
    } else {
        seq![s.take(k as int)] + split_lines(s.skip(k as int + 1))
    }
}

/// The export records of one accepted row: one per line of its text.
pub open spec fn export_of(id: i64, text: Seq<char>) -> Seq<ExportModel> {
    split_lines(text).map(|k: int, l: Seq<char>| ExportModel { row_id: id, text_line: l })
}

/// The export records of a run of accepted rows, in acceptance order.
pub open spec fn exports_cat(pairs: Seq<(i64, Seq<char>)>) -> Seq<ExportModel>
    decreases pairs.len(),
{
    if pairs.len() == 0 {
        Seq::empty()
    } else {
        exports_cat(pairs.drop_last()) + export_of(pairs.last().0, pairs.last().1)
    }
}

pub open spec fn records_match(recs: Seq<ExportRecord>, models: Seq<ExportModel>) -> bool {
    &&& recs.len() == models.len()
    &&& forall|k: int|
        0 <= k < recs.len() ==> (#[trigger] recs[k]).row_id == models[k].row_id
            && recs[k].text_line@ == models[k].text_line
}

proof fn lemma_nl_idx_is(s: Seq<char>, k: int)
    requires
        0 <= k <= s.len(),
        forall|m: int| 0 <= m < k ==> (#[trigger] s[m]) != '\n',
        k < s.len() ==> s[k] == '\n',
    ensures
        nl_idx(s) == k,
    decreases s.len(),
{
    if k == 0 {
    } else {
        let t = s.skip(1);
        assert forall|m: int| 0 <= m < k - 1 implies (#[trigger] t[m]) != '\n' by {
            assert(t[m] == s[m + 1]);
        }
        if k - 1 < t.len() {
            assert(t[k - 1] == s[k]);
        }
        lemma_nl_idx_is(t, k - 1);
    }
}

/// First newline at or after `from`.
fn find_nl(s: &Vec<char>, from: usize) -> (r: usize)
    requires
        from <= s.len(),
    ensures
        from <= r <= s.len(),
        r - from == nl_idx(s@.skip(from as int)),
        r < s.len() ==> s@[r as int] == '\n',
{
    let mut j: usize = from;
    while j < s.len() && s[j] != '\n'
        invariant
            from <= j <= s.len(),
            forall|m: int| from <= m < j ==> (#[trigger] s@[m]) != '\n',
        decreases s.len() - j,
    {
        j = j + 1;
    }
    proof {
        let t = s@.skip(from as int);
        assert forall|m: int| 0 <= m < j - from implies (#[trigger] t[m]) != '\n' by {
            assert(t[m] == s@[from + m]);
        }
        if (j as int) < s@.len() {
            assert(t[j - from] == s@[j as int]);
        }
        lemma_nl_idx_is(t, j - from);
    }
    j
}

/// Appends the export records of one accepted row: its text split into one
/// record per embedded line break, each under the row's generated id.
fn push_export_lines(out: &mut Vec<ExportRecord>, id: i64, text: &str)
    ensures
        final(out)@.len() == old(out)@.len() + export_of(id, text@).len(),
        records_match(
            final(out)@.skip(old(out)@.len() as int),
            export_of(id, text@),
        ),
        final(out)@.take(old(out)@.len() as int) == old(out)@,
{
    let v = crate::text::str_chars(text);
    let ghost base = out@.len() as int;
    let mut from: usize = 0;
    let ghost lines = split_lines(v@);
    proof {
        assert(v@.skip(0) =~= v@);
    }
    let ghost mut done: int = 0;
    loop
        invariant
            base == old(out)@.len(),
            0 <= from <= v@.len(),
            v@ == text@,
            lines == split_lines(v@),
            0 <= done <= lines.len(),
            lines =~= lines.take(done) + split_lines(v@.skip(from as int)),
            out@.len() == base + done,
            out@.take(base) == old(out)@,
            forall|k: int|
                0 <= k < done ==> (#[trigger] out@[base + k]).row_id == id && out@[base
                    + k].text_line@ == lines[k],
        decreases v@.len() - from + 1,
    {
        let j = find_nl(&v, from);
        let line = crate::text::copy_range(&v, from, j);
        let ghost outpre = out@;
        out.push(ExportRecord { row_id: id, text_line: crate::text::chars_to_string(&line) });
        proof {
            let t = v@.skip(from as int);
            if j == v@.len() {
                assert(nl_idx(t) >= t.len());
                assert(split_lines(t) =~= seq![t]);
                assert(line@ =~= t);
            } else {
                assert(split_lines(t) == seq![t.take(j - from)] + split_lines(
                    t.skip(j - from + 1),
                ));
                assert(t.take(j - from) =~= v@.subrange(from as int, j as int));
                assert(t.skip(j - from + 1) =~= v@.skip(j + 1));
            }
            assert(lines[done] == line@);
            assert forall|m: int| 0 <= m < base implies out@.take(base)[m] == old(out)@[m] by {
                assert(out@[m] == outpre[m]);
                assert(outpre.take(base)[m] == outpre[m]);
            }
            assert(out@.take(base) =~= old(out)@);
            done = done + 1;
        }
        if j == v.len() {
            proof {
                assert(lines =~= lines.take(done));
                assert(lines.len() == done);
                assert(export_of(id, text@).len() == lines.len());
                assert forall|k: int| 0 <= k < done implies (#[trigger] out@.skip(base)[k]).row_id
                    == id && out@.skip(base)[k].text_line@ == export_of(id, text@)[k].text_line by {
                    assert(out@.skip(base)[k] == out@[base + k]);
                    assert(export_of(id, text@)[k].text_line == lines[k]);
                }
                assert forall|k: int| 0 <= k < done implies (#[trigger] export_of(
                    id,
                    text@,
                )[k]).row_id == id by {}
            }
            return ;
        }
        proof {
            assert(lines =~= lines.take(done) + split_lines(v@.skip(j + 1)));
        }
        from = j + 1;
    }
}

/// The side-export records of a run's accepted rows: for each accepted row in
/// order, one record per line of its text, under the row's generated id.
pub fn side_export_records(accepted: &Vec<(i64, String)>) -> (r: Vec<ExportRecord>)
    ensures
        records_match(r@, exports_cat(accepted@.map_values(|p: (i64, String)| (p.0, p.1@)))),
{
    let ghost pairs = accepted@.map_values(|p: (i64, String)| (p.0, p.1@));
    let mut r: Vec<ExportRecord> = Vec::new();
    let mut i: usize = 0;
    proof {
        assert(exports_cat(pairs.take(0)) =~= Seq::<ExportModel>::empty());
    }
    while i < accepted.len()
        invariant
            0 <= i <= accepted@.len(),
            pairs == accepted@.map_values(|p: (i64, String)| (p.0, p.1@)),
            records_match(r@, exports_cat(pairs.take(i as int))),
        decreases accepted@.len() - i,
    {
        let ghost rpre = r@;
        push_export_lines(&mut r, accepted[i].0, accepted[i].1.as_str());
        proof {
            let nxt = pairs.take(i + 1);
            assert(nxt.drop_last() =~= pairs.take(i as int));
            assert(nxt.last() == pairs[i as int]);
            assert(pairs[i as int].0 == accepted@[i as int].0);
            assert(pairs[i as int].1 == accepted@[i as int].1@);
            let ex = export_of(pairs[i as int].0, pairs[i as int].1);
            let whole = exports_cat(nxt);
            assert(whole == exports_cat(pairs.take(i as int)) + ex);
            assert(r@.take(rpre.len() as int) == rpre);
            assert forall|k: int| 0 <= k < r@.len() implies (#[trigger] r@[k]).row_id
                == whole[k].row_id && r@[k].text_line@ == whole[k].text_line by {
                if k < rpre.len() {
                    assert(r@[k] == r@.take(rpre.len() as int)[k]);
                    assert(rpre[k].row_id == exports_cat(pairs.take(i as int))[k].row_id);
                } else {
                    assert(r@.skip(rpre.len() as int)[k - rpre.len()] == r@[k]);
                    assert(whole[k] == ex[k - rpre.len()]);
                }
            }
        }
        i = i + 1;
    }
    proof {
        assert(pairs.take(i as int) =~= pairs);
    }
    r
}

// ---------------------------------------------------------------------------
// Accepted-row subsequences
// ---------------------------------------------------------------------------

/// `acc` pairs generated ids with the texts of a subsequence of `rows`, in
/// order: exactly the shape of a batch run's accepted rows.
pub open spec fn texts_subseq(
    acc: Seq<(i64, Seq<char>)>,
    rows: Seq<(i64, i32, String, String, String)>,
) -> bool
    decreases acc.len(), rows.len(),
{
    if acc.len() == 0 {
        true
    } else if rows.len() == 0 {
        false
    } else {
        (acc[0].1 == rows[0].4@ && texts_subseq(acc.skip(1), rows.skip(1))) || texts_subseq(
            acc,
            rows.skip(1),
        )
    }
}

/// Appending a row keeps a subsequence one, whether or not the row's text is
/// taken.
proof fn lemma_subseq_push(
    acc: Seq<(i64, Seq<char>)>,
    rows: Seq<(i64, i32, String, String, String)>,
    id: i64,
    row: (i64, i32, String, String, String),
)
    requires
        texts_subseq(acc, rows),
    ensures
        texts_subseq(acc.push((id, row.4@)), rows.push(row)),
        texts_subseq(acc, rows.push(row)),
    decreases rows.len(),
{
    let acc2 = acc.push((id, row.4@));
    let rows2 = rows.push(row);
    if rows.len() == 0 {
        assert(acc.len() == 0);
        assert(acc2.skip(1) =~= Seq::<(i64, Seq<char>)>::empty());
        assert(rows2.skip(1) =~= Seq::<(i64, i32, String, String, String)>::empty());
        assert(acc2[0].1 == rows2[0].4@);
        assert(texts_subseq(acc2.skip(1), rows2.skip(1)));
    } else if acc.len() == 0 {
        lemma_subseq_push(Seq::empty(), rows.skip(1), id, row);
        assert(Seq::<(i64, Seq<char>)>::empty().push((id, row.4@)) =~= acc2);
        assert(rows2.skip(1) =~= rows.skip(1).push(row));
        assert(texts_subseq(acc2, rows2.skip(1)));
    } else if acc[0].1 == rows[0].4@ && texts_subseq(acc.skip(1), rows.skip(1)) {
        lemma_subseq_push(acc.skip(1), rows.skip(1), id, row);
        assert(acc2.skip(1) =~= acc.skip(1).push((id, row.4@)));
        assert(rows2.skip(1) =~= rows.skip(1).push(row));
        assert(acc2[0] == acc[0]);
        assert(rows2[0] == rows[0]);
        assert(texts_subseq(acc2.skip(1), rows2.skip(1)));
        assert(texts_subseq(acc.skip(1), rows2.skip(1)));
    } else {
        assert(texts_subseq(acc, rows.skip(1)));
        lemma_subseq_push(acc, rows.skip(1), id, row);
        assert(rows2.skip(1) =~= rows.skip(1).push(row));
        assert(texts_subseq(acc2, rows2.skip(1)));
        assert(texts_subseq(acc, rows2.skip(1)));
    }
}

// ---------------------------------------------------------------------------
// The handler
// ---------------------------------------------------------------------------

/// Owns the store connection for one ingestion run.
pub struct DbHandler {
    conn: rusqlite::Connection,
}

impl DbHandler {
    /// Opens (creating when absent) the store reached by `path`.
    pub fn new(path: &str) -> (r: Result<DbHandler, DbError>)
        ensures
            r is Err ==> r->Err_0 is Open,
    {
        match open_conn(path) {
            Ok(conn) => Ok(DbHandler { conn }),
            Err(e) => Err(DbError::Open(sqlite_error_text(&e))),
        }
    }

    /// Idempotently ensures the three tables exist, with their natural-key
    /// uniqueness constraints; safe to invoke on every start.
    pub fn create_tables(&self) -> (r: Result<(), DbError>)
        ensures
            r is Err ==> r->Err_0 is Statement,
    {
        let sql = "CREATE TABLE IF NOT EXISTS shows (\n            id INTEGER PRIMARY KEY,\n            name TEXT NOT NULL UNIQUE,\n            show_type TEXT NOT NULL\n        );\n        CREATE TABLE IF NOT EXISTS episodes (\n            id INTEGER PRIMARY KEY,\n            show_id INTEGER,\n            name TEXT NOT NULL,\n            season INTEGER,\n            episode_number INTEGER,\n            UNIQUE(show_id, season, episode_number),\n            FOREIGN KEY(show_id) REFERENCES shows(id)\n        );\n        CREATE TABLE IF NOT EXISTS transcripts (\n            id INTEGER PRIMARY KEY,\n            episode_id INTEGER,\n            line_id INTEGER,\n            time_start TEXT,\n            time_end TEXT,\n            text TEXT NOT NULL,\n            UNIQUE(episode_id, time_start, time_end),\n            FOREIGN KEY(episode_id) REFERENCES episodes(id)\n        );";
        match exec_batch(&self.conn, sql) {
            Ok(u) => Ok(u),
            Err(e) => Err(DbError::Statement(sqlite_error_text(&e))),
        }
    }

    /// Inserts one show by natural key (its name), skipping a duplicate, and
    /// returns the connection's most recent generated id — stale after a
    /// duplicate-skip.
    pub fn insert_show(&self, name: &str, show_type: &str) -> (r: Result<i64, DbError>)
        ensures
            r is Err ==> r->Err_0 is Insert,
    {
        match exec_2str(
            &self.conn,
            "INSERT OR IGNORE INTO shows (name, show_type) VALUES (?1, ?2)",
            name,
            show_type,
        ) {
            Ok(_) => Ok(last_rowid(&self.conn)),
            Err(e) => Err(DbError::Insert(sqlite_error_text(&e))),
        }
    }

    /// Inserts one episode by natural key (show, season, number), skipping a
    /// duplicate, and returns the connection's most recent generated id —
    /// stale after a duplicate-skip.
    pub fn insert_episode(&self, show_id: i64, name: &str, season: i32, episode_number: i32) -> (r:
        Result<i64, DbError>)
        ensures
            r is Err ==> r->Err_0 is Insert,
    {
        match exec_episode(
            &self.conn,
            "INSERT OR IGNORE INTO episodes (show_id, name, season, episode_number) VALUES (?1, ?2, ?3, ?4)",
            show_id,
            name,
            season,
            episode_number,
        ) {
            Ok(_) => Ok(last_rowid(&self.conn)),
            Err(e) => Err(DbError::Insert(sqlite_error_text(&e))),
        }
    }

    /// Inserts one transcript line by natural key (episode, start, end),
    /// skipping a duplicate, and returns the connection's most recent
    /// generated id — stale after a duplicate-skip.
    pub fn insert_transcript(
        &self,
        episode_id: i64,
        line_id: i32,
        time_start: &str,
        time_end: &str,
        text: &str,
    ) -> (r: Result<i64, DbError>)
        ensures
            r is Err ==> r->Err_0 is Insert,
    {
        match exec_transcript(
            &self.conn,
            "INSERT OR IGNORE INTO transcripts (episode_id, line_id, time_start, time_end, text) VALUES (?1, ?2, ?3, ?4, ?5)",
            episode_id,
            line_id,
            time_start,
            time_end,
            text,
        ) {
            Ok(_) => Ok(last_rowid(&self.conn)),
            Err(e) => Err(DbError::Insert(sqlite_error_text(&e))),
        }
    }

    /// Inserts a batch of shows in one transaction, row order kept, skipping
    /// natural-key duplicates; any failure rolls the whole batch back.
    pub fn batch_insert_shows(&mut self, shows: &Vec<(String, String)>) -> (r: Result<(), DbError>)
        ensures
            r is Err ==> !(r->Err_0 is Open),
    {
        match exec_batch(&self.conn, "BEGIN") {
            Ok(_) => (),
            Err(e) => {
                return Err(DbError::Statement(sqlite_error_text(&e)));
            },
        }
        let mut i: usize = 0;
        while i < shows.len()
            decreases shows@.len() - i,
        {
            let row = &shows[i];
            match exec_2str(
                &self.conn,
                "INSERT OR IGNORE INTO shows (name, show_type) VALUES (?1, ?2)",
                row.0.as_str(),
                row.1.as_str(),
            ) {
                Ok(_) => (),
                Err(e) => {
                    let _ = exec_batch(&self.conn, "ROLLBACK");
                    return Err(DbError::Insert(sqlite_error_text(&e)));
                },
            }
            i = i + 1;
        }
        match exec_batch(&self.conn, "COMMIT") {
            Ok(u) => Ok(u),
            Err(e) => {
                let _ = exec_batch(&self.conn, "ROLLBACK");
                Err(DbError::Commit(sqlite_error_text(&e)))
            },
        }
    }

    /// Inserts a batch of episodes in one transaction, row order kept,
    /// skipping natural-key duplicates; any failure rolls the whole batch
    /// back.
    pub fn batch_insert_episodes(&mut self, episodes: &Vec<(i64, String, i32, i32)>) -> (r: Result<
        (),
        DbError,
    >)
        ensures
            r is Err ==> !(r->Err_0 is Open),
    {
        match exec_batch(&self.conn, "BEGIN") {
            Ok(_) => (),
            Err(e) => {
                return Err(DbError::Statement(sqlite_error_text(&e)));
            },
        }
        let mut i: usize = 0;
        while i < episodes.len()
            decreases episodes@.len() - i,
        {
            let row = &episodes[i];
            match exec_episode(
                &self.conn,
                "INSERT OR IGNORE INTO episodes (show_id, name, season, episode_number) VALUES (?1, ?2, ?3, ?4)",
                row.0,
                row.1.as_str(),
                row.2,
                row.3,
            ) {
                Ok(_) => (),
                Err(e) => {
                    let _ = exec_batch(&self.conn, "ROLLBACK");
                    return Err(DbError::Insert(sqlite_error_text(&e)));
                },
            }
            i = i + 1;
        }
        match exec_batch(&self.conn, "COMMIT") {
            Ok(u) => Ok(u),
            Err(e) => {
                let _ = exec_batch(&self.conn, "ROLLBACK");
                Err(DbError::Commit(sqlite_error_text(&e)))
            },
        }
    }

    /// Inserts a batch of transcript lines in one transaction, row order
    /// kept, skipping natural-key duplicates; any failure rolls the whole
    /// batch back.  On success the returned side-export records hold, for
    /// each row the store actually accepted and in acceptance order, one
    /// record per line of the row's text under the row's generated id;
    /// duplicates contribute nothing.  The records are buffered in memory and
    /// returned only after the transaction commits: the caller decides
    /// whether to write them out.
    pub fn batch_insert_transcripts(
        &mut self,
        transcripts: &Vec<(i64, i32, String, String, String)>,
    ) -> (r: Result<Vec<ExportRecord>, DbError>)
        ensures
            match r {
                Ok(recs) => exists|acc: Seq<(i64, Seq<char>)>|
                    texts_subseq(acc, transcripts@) && records_match(recs@, exports_cat(acc)),
                Err(e) => !(e is Open),
            },
    {
        match exec_batch(&self.conn, "BEGIN") {
            Ok(_) => (),
            Err(e) => {
                return Err(DbError::Statement(sqlite_error_text(&e)));
            },
        }
        let mut accepted: Vec<(i64, String)> = Vec::new();
        let mut i: usize = 0;
        proof {
            assert(accepted@.map_values(|p: (i64, String)| (p.0, p.1@)) =~= Seq::<
                (i64, Seq<char>),
            >::empty());
        }
        while i < transcripts.len()
            invariant
                0 <= i <= transcripts@.len(),
                texts_subseq(
                    accepted@.map_values(|p: (i64, String)| (p.0, p.1@)),
                    transcripts@.take(i as int),
                ),
            decreases transcripts@.len() - i,
        {
            let row = &transcripts[i];
            let outcome = exec_transcript(
                &self.conn,
                "INSERT OR IGNORE INTO transcripts (episode_id, line_id, time_start, time_end, text) VALUES (?1, ?2, ?3, ?4, ?5)",
                row.0,
                row.1,
                row.2.as_str(),
                row.3.as_str(),
                row.4.as_str(),
            );
            let ghost accpre = accepted@.map_values(|p: (i64, String)| (p.0, p.1@));
            proof {
                assert(transcripts@.take(i + 1).drop_last() =~= transcripts@.take(i as int));
                assert(transcripts@.take(i + 1).last() == transcripts@[i as int]);
                assert(transcripts@.take(i + 1) =~= transcripts@.take(i as int).push(
                    transcripts@[i as int],
                ));
            }
            match outcome {
                Ok(n) => {
                    if n > 0 {
                        let id = last_rowid(&self.conn);
                        accepted.push((id, row.4.clone()));
                        proof {
                            lemma_subseq_push(
                                accpre,
                                transcripts@.take(i as int),
                                id,
                                transcripts@[i as int],
                            );
                            assert(accepted@.map_values(|p: (i64, String)| (p.0, p.1@))
                                =~= accpre.push((id, transcripts@[i as int].4@)));
                        }
                    } else {
                        proof {
                            lemma_subseq_push(
                                accpre,
                                transcripts@.take(i as int),
                                0,
                                transcripts@[i as int],
                            );
                        }
                    }
                },
                Err(e) => {
                    let _ = exec_batch(&self.conn, "ROLLBACK");
                    return Err(DbError::Insert(sqlite_error_text(&e)));
                },
            }
            i = i + 1;
        }
        match exec_batch(&self.conn, "COMMIT") {
            Ok(_) => (),
            Err(e) => {
                let _ = exec_batch(&self.conn, "ROLLBACK");
                return Err(DbError::Commit(sqlite_error_text(&e)));
            },
        }
        let recs = side_export_records(&accepted);
        proof {
            let acc = accepted@.map_values(|p: (i64, String)| (p.0, p.1@));
            assert(transcripts@.take(i as int) =~= transcripts@);
            assert(texts_subseq(acc, transcripts@) && records_match(recs@, exports_cat(acc)));
        }
        Ok(recs)
    }
}

} // verus!
