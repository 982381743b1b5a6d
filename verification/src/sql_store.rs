use vstd::prelude::*;
use crate::cmd_record::{
    last_in_prefix, last_occurrence, lemma_sum_for_text_stable, lemma_sum_for_text_take_succ,
    spec_has_text, spec_sum_for_text, CmdRecord,
};
use crate::error::CmdError;
use crate::service::{
    entries_of, filter_pattern, insert_replace_ok, lemma_insert_ok_entry,
    lemma_insert_ok_keeps_entry, lemma_insert_ok_other, lemma_insert_ok_target, m_contains,
    m_has_entry, CmdService, SearchFilters,
};

verus! {

#[verifier::external_type_specification]
#[verifier::external_body]
pub struct ExConnection(rusqlite::Connection);

/// The rows of the `cmd` table a connection reaches, in rowid order, as
/// (text, count) entries; where the table does not exist yet, no rows.
/// Every statement wrapper below presumes the table carries the declared
/// schema — `id INTEGER PRIMARY KEY, command TEXT UNIQUE, used_times
/// INTEGER`, as `ensure_schema` creates it; a foreign `cmd` table laid
/// out otherwise is outside this model.
pub uninterp spec fn db_entries(c: rusqlite::Connection) -> Seq<(Seq<char>, nat)>;

/// Whether SQLite's `command LIKE '%pattern%'` accepts the text; the
/// relation depends on the pattern and the text alone.
pub uninterp spec fn like_match(pattern: Seq<char>, text: Seq<char>) -> bool;

/// A pattern the store writes into a statement's text: it must not
/// carry a quote that would end the SQL string literal.
pub open spec fn sql_pattern_ok(p: Seq<char>) -> bool {
    forall|i: int| 0 <= i < p.len() ==> p[i] != '\''
}

/// What a query of the relational store admits: entries whose text the
/// `LIKE` pattern accepts, restricted to used entries where asked.
pub open spec fn sql_query(
    m: Seq<(Seq<char>, nat)>,
    pattern: Option<Seq<char>>,
    used: bool,
) -> Seq<(Seq<char>, nat)>
    decreases m.len(),
{
    if m.len() == 0 {
        m
    } else {
        let prefix = sql_query(m.drop_last(), pattern, used);
        let keep = (match pattern {
            Some(p) => like_match(p, m.last().0),
            None => true,
        }) && (!used || m.last().1 > 0);
        if keep {
            prefix.push(m.last())
        } else {
            prefix
        }
    }
}

/// A query without restriction admits the whole table.
proof fn lemma_sql_query_id(m: Seq<(Seq<char>, nat)>)
    ensures
        sql_query(m, None, false) == m,
    decreases m.len(),
{
    if m.len() > 0 {
        lemma_sql_query_id(m.drop_last());
        assert(m.drop_last().push(m.last()) =~= m);
    }
}

/// The statement text of a query, as the store writes it.
pub open spec fn sql_query_text(pattern: Option<Seq<char>>, used: bool) -> Seq<char> {
    "SELECT id, command, used_times FROM cmd"@ + (
    if pattern is Some || used {
        " WHERE "@
    } else {
        Seq::<char>::empty()
    }) + (match pattern {
        Some(p) => "command LIKE '%"@ + p + "%'"@,
        None => Seq::<char>::empty(),
    }) + (if pattern is Some && used {
        " AND "@
    } else {
        Seq::<char>::empty()
    }) + (if used {
        "used_times > 0"@
    } else {
        Seq::<char>::empty()
    })
}

/// The view of an optional pattern.
pub open spec fn opt_view(p: Option<String>) -> Option<Seq<char>> {
    match p {
        Some(s) => Some(s@),
        None => None,
    }
}

/// Build the statement text of a query from its filter.
fn build_query_sql(filter: &SearchFilters) -> (r: String)
    ensures
        r@ == sql_query_text(opt_view(filter.command), filter.used),
{
    let mut sql = String::from_str("SELECT id, command, used_times FROM cmd");
    if filter.command.is_some() || filter.used {
        sql.append(" WHERE ");
    }
    match &filter.command {
        Some(p) => {
            sql.append("command LIKE '%");
            sql.append(p.as_str());
            sql.append("%'");
        },
        None => {},
    }
    if filter.command.is_some() && filter.used {
        sql.append(" AND ");
    }
    if filter.used {
        sql.append("used_times > 0");
    }
    proof {
        assert(sql@ =~= sql_query_text(opt_view(filter.command), filter.used));
    }
    sql
}

/// The indexed relational backend: the `cmd` table behind a SQLite
/// connection, reached only through the trusted statement wrappers
/// below.
pub struct CmdServiceSQL {
    pub connection: rusqlite::Connection,
    pub db_name: String,
}

/// Relies on `rusqlite::Connection::open`: opens the database file at
/// the given path, creating it when absent. What rows it already holds
/// is whatever stands on disk, so nothing is promised of the result's
/// entries.
#[verifier::external_body]
fn open_connection_at(path: &str) -> (r: Result<rusqlite::Connection, CmdError>) {
    rusqlite::Connection::open(path).map_err(|e| CmdError::SQLError(e.to_string()))
}

/// Relies on `rusqlite::Connection::execute` with `CREATE TABLE IF NOT
/// EXISTS cmd (id INTEGER PRIMARY KEY, command TEXT UNIQUE, used_times
/// INTEGER)` and the matching index: creating the table or the index
/// adds, changes and removes no row.
#[verifier::external_body]
fn ensure_schema(c: &mut rusqlite::Connection) -> (r: Result<(), CmdError>)
    ensures
        db_entries(*final(c)) == db_entries(*old(c)),
{
    let stmt =
        "CREATE TABLE IF NOT EXISTS cmd (id INTEGER PRIMARY KEY, command TEXT UNIQUE, used_times INTEGER);";
    match c.execute(stmt, []) {
        Ok(_) => {},
        Err(e) => {
            return Err(CmdError::SQLError(e.to_string()));
        },
    }
    match c.execute("CREATE INDEX IF NOT EXISTS commands_ind ON cmd (command);", []) {
        Ok(_) => Ok(()),
        Err(e) => Err(CmdError::SQLError(e.to_string())),
    }
}

impl CmdServiceSQL {
    /// Build the relational store over the given connection, or over
    /// the default database file `cmdb` under the `.cmd` settings
    /// directory where none is given; the `cmd` table is created when
    /// absent.
    pub fn build_cmd_service(cntn: Option<rusqlite::Connection>) -> (r: Result<
        CmdServiceSQL,
        CmdError,
    >)
        ensures
            r matches Ok(s) ==> (cntn matches Some(c) ==> s.model() == db_entries(c)),
    {
        let mut connection = match cntn {
            Some(cn) => cn,
            None => {
                let location = match crate::file_manager::FileManagerBuilder::new(
                    String::from_str("cmdb"),
                ) {
                    Some(b) => b.build(),
                    None => {
                        return Err(CmdError::SQLError(
                            String::from_str("could not find the home directory"),
                        ));
                    },
                };
                match open_connection_at(location.path.as_str()) {
                    Ok(cn) => cn,
                    Err(e) => {
                        return Err(e);
                    },
                }
            },
        };
        match ensure_schema(&mut connection) {
            Ok(_) => {},
            Err(e) => {
                return Err(e);
            },
        }
        Ok(CmdServiceSQL { connection, db_name: String::from_str("cmdb") })
    }

    /// Relies on `rusqlite::Connection::execute` with `INSERT INTO cmd
    /// (command, used_times) VALUES (?1, ?2)`: on success a fresh row
    /// enters at the end with the given count; the `command TEXT
    /// UNIQUE` constraint rejects a text already present, reported as
    /// the duplicate error; a failed statement changes no row.
    #[verifier::external_body]
    fn exec_insert_new(&mut self, command: &String, count: usize) -> (r: Result<(), CmdError>)
        ensures
            r is Ok ==> !m_contains(db_entries(old(self).connection), command@) && db_entries(
                final(self).connection,
            ) == db_entries(old(self).connection).push((command@, count as nat)),
            r is Err ==> db_entries(final(self).connection) == db_entries(old(self).connection),
            m_contains(db_entries(old(self).connection), command@) ==> r is Err,
            (r matches Err(e) ==> (e is DuplicateCmdError ==> m_contains(
                db_entries(old(self).connection),
                command@,
            ))),
            final(self).db_name == old(self).db_name,
    {
        match self.connection.execute(
            "INSERT INTO cmd (command, used_times) VALUES (?1, ?2)",
            (command, count as i64),
        ) {
            Ok(_) => Ok(()),
            Err(rusqlite::Error::SqliteFailure(e, _)) if e.code
                == rusqlite::ffi::ErrorCode::ConstraintViolation => Err(
                CmdError::DuplicateCmdError,
            ),
            Err(e) => Err(CmdError::SQLError(e.to_string())),
        }
    }

    /// Relies on `rusqlite::Connection::execute` with `INSERT INTO cmd
    /// (command, used_times) VALUES (?1, 1) ON CONFLICT(command) DO
    /// UPDATE SET used_times = ?2`: a fresh text enters at the end with
    /// count 1; an existing row keeps its place and its count becomes
    /// the given one; a failed statement changes no row.
    #[verifier::external_body]
    fn exec_upsert(&mut self, command: &String, count: usize) -> (r: Result<(), CmdError>)
        ensures
            r is Ok ==> db_entries(final(self).connection) == crate::service::upsert_spec(
                db_entries(old(self).connection),
                command@,
                count as nat,
            ),
            r is Err ==> db_entries(final(self).connection) == db_entries(old(self).connection),
            final(self).db_name == old(self).db_name,
    {
        match self.connection.execute(
            "INSERT INTO cmd (command, used_times) VALUES (?1, 1) ON CONFLICT(command) DO UPDATE SET used_times = ?2",
            (command, count as i64),
        ) {
            Ok(_) => Ok(()),
            Err(e) => Err(CmdError::SQLError(e.to_string())),
        }
    }

    /// Relies on `rusqlite::Connection::execute` with `INSERT OR
    /// REPLACE INTO cmd (command, used_times) VALUES (?1, ?2)`: a
    /// conflicting row leaves and a fresh row with the given text and
    /// count enters at the end; a fresh text simply enters; a failed
    /// statement changes no row.
    #[verifier::external_body]
    fn exec_insert_replace(&mut self, command: &String, count: usize) -> (r: Result<(), CmdError>)
        ensures
            r is Ok ==> insert_replace_ok(
                db_entries(old(self).connection),
                db_entries(final(self).connection),
                command@,
                count as nat,
            ),
            r is Err ==> db_entries(final(self).connection) == db_entries(old(self).connection),
            final(self).db_name == old(self).db_name,
    {
        match self.connection.execute(
            "INSERT OR REPLACE INTO cmd (command, used_times) VALUES (?1, ?2)",
            (command, count as i64),
        ) {
            Ok(_) => Ok(()),
            Err(e) => Err(CmdError::SQLError(e.to_string())),
        }
    }

    /// Relies on `rusqlite::Connection::query_row` with `SELECT id FROM
    /// cmd WHERE command = ?1`: where the query runs, a row comes back
    /// exactly when the text stands in the table; a failed lookup (a
    /// locked or damaged database) is reported, not answered.
    #[verifier::external_body]
    fn exec_present(&self, command: &String) -> (r: Result<bool, CmdError>)
        ensures
            r matches Ok(b) ==> b == m_contains(db_entries(self.connection), command@),
    {
        match self.connection.query_row(
            "SELECT id FROM cmd WHERE command = ?1",
            (command,),
            |_row| Ok(()),
        ) {
            Ok(()) => Ok(true),
            Err(rusqlite::Error::QueryReturnedNoRows) => Ok(false),
            Err(e) => Err(CmdError::SQLError(e.to_string())),
        }
    }

    /// Relies on `rusqlite::Connection::prepare` and
    /// `rusqlite::Statement::query_map` over the statement text the
    /// library built: the rows that come back are exactly the rows the
    /// `WHERE` clause admits, in an order no caller may rely on. The
    /// pattern must be quote-free — a quote would end the SQL string
    /// literal and change what the statement asks.
    #[verifier::external_body]
    fn run_query(&self, sql: &str, pattern: &Option<String>, used: bool) -> (r: Result<
        Vec<CmdRecord>,
        CmdError,
    >)
        requires
            sql@ == sql_query_text(opt_view(*pattern), used),
            pattern matches Some(p) ==> sql_pattern_ok(p@),
        ensures
            r matches Ok(v) ==> entries_of(v@).to_multiset() == sql_query(
                db_entries(self.connection),
                opt_view(*pattern),
                used,
            ).to_multiset(),
            r matches Ok(v) ==> forall|j: int|
                0 <= j < v@.len() ==> (pattern matches Some(p) ==> like_match(
                    p@,
                    (#[trigger] v@[j]).command@,
                )),
    {
        let mut stmt = self.connection.prepare(sql).map_err(
            |e| CmdError::SQLError(e.to_string()),
        )?;
        let rows = stmt.query_map([], |row| {
            let id: i64 = row.get(0)?;
            let command: String = row.get(1)?;
            let count: i64 = row.get(2)?;
            Ok(CmdRecord { id: id as usize, command, used_times: count as usize })
        }).map_err(|e| CmdError::SQLError(e.to_string()))?;
        rows.collect::<Result<Vec<CmdRecord>, rusqlite::Error>>().map_err(
            |e| CmdError::SQLError(e.to_string()),
        )
    }

    /// Relies on `rusqlite::Connection::execute` with `DELETE FROM
    /// cmd`: every row leaves; a failed statement changes no row.
    #[verifier::external_body]
    fn exec_clear(&mut self) -> (r: Result<(), CmdError>)
        ensures
            r is Ok ==> db_entries(final(self).connection) == Seq::<(Seq<char>, nat)>::empty(),
            r is Err ==> db_entries(final(self).connection) == db_entries(old(self).connection),
            final(self).db_name == old(self).db_name,
    {
        match self.connection.execute("DELETE FROM cmd", []) {
            Ok(_) => Ok(()),
            Err(e) => Err(CmdError::SQLError(e.to_string())),
        }
    }

    /// Relies on `rusqlite::Connection::execute` with `DELETE FROM cmd
    /// WHERE command = ?1`: exactly the rows of that text leave; a
    /// failed statement changes no row.
    #[verifier::external_body]
    fn exec_delete(&mut self, command: &String) -> (r: Result<(), CmdError>)
        ensures
            r is Ok ==> db_entries(final(self).connection) == crate::service::remove_text(
                db_entries(old(self).connection),
                command@,
            ),
            r is Err ==> db_entries(final(self).connection) == db_entries(old(self).connection),
            final(self).db_name == old(self).db_name,
    {
        match self.connection.execute("DELETE FROM cmd WHERE command = ?1", (command,)) {
            Ok(_) => Ok(()),
            Err(e) => Err(CmdError::SQLError(e.to_string())),
        }
    }

    /// Bring legacy flat-file records into the relational store: each
    /// record of either list is written with its running per-text total,
    /// the saved list first, so a text's last write carries its summed
    /// count over its list — and the used list overrides the saved one.
    /// Texts already in the store stay, whatever the outcome.
    pub fn migrate_cvs(
        &mut self,
        saved_commands: &Vec<CmdRecord>,
        used_commands: &Vec<CmdRecord>,
    ) -> (r: Result<(), CmdError>)
        ensures
            forall|u: Seq<char>|
                m_contains(old(self).model(), u) ==> m_contains(final(self).model(), u),
            r is Ok ==> forall|j: int|
                0 <= j < saved_commands@.len() ==> m_contains(
                    final(self).model(),
                    (#[trigger] saved_commands@[j]).command@,
                ),
            r is Ok ==> forall|j: int|
                0 <= j < used_commands@.len() ==> m_contains(
                    final(self).model(),
                    (#[trigger] used_commands@[j]).command@,
                ),
            r is Ok ==> forall|j: int|
                #[trigger] last_occurrence(used_commands@, j) ==> m_has_entry(
                    final(self).model(),
                    used_commands@[j].command@,
                    spec_sum_for_text(used_commands@, used_commands@[j].command@),
                ),
            r is Ok ==> forall|j: int|
                #[trigger] last_occurrence(saved_commands@, j) && !spec_has_text(
                    used_commands@,
                    saved_commands@[j].command@,
                ) ==> m_has_entry(
                    final(self).model(),
                    saved_commands@[j].command@,
                    spec_sum_for_text(saved_commands@, saved_commands@[j].command@),
                ),
    {
        match self.migrate_list(saved_commands) {
            Ok(_) => {},
            Err(e) => {
                return Err(e);
            },
        }
        let ghost mid = self.model();
        match self.migrate_list(used_commands) {
            Ok(_) => {
                proof {
                    assert forall|j: int|
                        #[trigger] last_occurrence(saved_commands@, j) && !spec_has_text(
                            used_commands@,
                            saved_commands@[j].command@,
                        ) implies m_has_entry(
                        self.model(),
                        saved_commands@[j].command@,
                        spec_sum_for_text(saved_commands@, saved_commands@[j].command@),
                    ) by {
                        assert(m_has_entry(
                            mid,
                            saved_commands@[j].command@,
                            spec_sum_for_text(saved_commands@, saved_commands@[j].command@),
                        ));
                    }
                }
                Ok(())
            },
            Err(e) => Err(e),
        }
    }

    /// Write one legacy list: each record in order, with the summed
    /// count of its text over the records seen so far, so the last
    /// record of each text writes that text's total.
    fn migrate_list(&mut self, records: &Vec<CmdRecord>) -> (r: Result<(), CmdError>)
        ensures
            forall|u: Seq<char>|
                m_contains(old(self).model(), u) ==> m_contains(final(self).model(), u),
            forall|u: Seq<char>, cu: nat|
                m_has_entry(old(self).model(), u, cu) && !spec_has_text(records@, u)
                    ==> m_has_entry(final(self).model(), u, cu),
            r is Ok ==> forall|j: int|
                0 <= j < records@.len() ==> m_contains(
                    final(self).model(),
                    (#[trigger] records@[j]).command@,
                ),
            r is Ok ==> forall|j: int|
                #[trigger] last_occurrence(records@, j) ==> m_has_entry(
                    final(self).model(),
                    records@[j].command@,
                    spec_sum_for_text(records@, records@[j].command@),
                ),
    {
        let ghost m0 = self.model();
        let mut i: usize = 0;
        while i < records.len()
            invariant
                m0 == old(self).model(),
                0 <= i <= records@.len(),
                forall|j: int| 0 <= j < i ==> m_contains(
                    self.model(),
                    (#[trigger] records@[j]).command@,
                ),
                forall|u: Seq<char>| m_contains(m0, u) ==> m_contains(self.model(), u),
                forall|u: Seq<char>, cu: nat|
                    m_has_entry(m0, u, cu) && !spec_has_text(records@, u) ==> m_has_entry(
                        self.model(),
                        u,
                        cu,
                    ),
                forall|j: int| last_in_prefix(records@, j, i as int) ==> m_has_entry(
                    self.model(),
                    (#[trigger] records@[j]).command@,
                    spec_sum_for_text(records@.take(j + 1), records@[j].command@),
                ),
            decreases records@.len() - i,
        {
            let ghost t = records@[i as int].command@;
            let mut total: usize = 0;
            let mut k: usize = 0;
            let bound = records.len();
            proof {
                assert(records@.take(0) =~= Seq::<CmdRecord>::empty());
            }
            while k <= i
                invariant
                    m0 == old(self).model(),
                    0 <= k <= i + 1,
                    i < bound,
                    bound == records@.len(),
                    t == records@[i as int].command@,
                    total == spec_sum_for_text(records@.take(k as int), t),
                    forall|u: Seq<char>| m_contains(m0, u) ==> m_contains(self.model(), u),
                    forall|u: Seq<char>, cu: nat|
                        m_has_entry(m0, u, cu) && !spec_has_text(records@, u) ==> m_has_entry(
                            self.model(),
                            u,
                            cu,
                        ),
                decreases i + 1 - k,
            {
                proof {
                    lemma_sum_for_text_take_succ(records@, t, k as int);
                }
                if records[k].command == records[i].command {
                    total = match total.checked_add(records[k].used_times) {
                        Some(v) => v,
                        None => {
                            return Err(CmdError::BaseError(
                                String::from_str("usage count out of range"),
                            ));
                        },
                    };
                }
                k = k + 1;
            }
            let ghost before = self.model();
            match self.exec_insert_replace(&records[i].command, total) {
                Ok(_) => {},
                Err(e) => {
                    return Err(e);
                },
            }
            proof {
                lemma_insert_ok_target(before, self.model(), t, total as nat);
                lemma_insert_ok_entry(before, self.model(), t, total as nat);
                assert forall|j: int| 0 <= j < i + 1 implies m_contains(
                    self.model(),
                    (#[trigger] records@[j]).command@,
                ) by {
                    if j < i && records@[j].command@ != t {
                        lemma_insert_ok_other(
                            before,
                            self.model(),
                            t,
                            total as nat,
                            records@[j].command@,
                        );
                    }
                }
                assert forall|u: Seq<char>| m_contains(m0, u) implies m_contains(
                    self.model(),
                    u,
                ) by {
                    if u != t {
                        lemma_insert_ok_other(before, self.model(), t, total as nat, u);
                    }
                }
                assert forall|u: Seq<char>, cu: nat|
                    m_has_entry(m0, u, cu) && !spec_has_text(records@, u) implies m_has_entry(
                    self.model(),
                    u,
                    cu,
                ) by {
                    assert(records@[i as int].command@ == t);
                    assert(spec_has_text(records@, t));
                    lemma_insert_ok_keeps_entry(before, self.model(), t, total as nat, u, cu);
                }
                assert forall|j: int| last_in_prefix(records@, j, i + 1) implies m_has_entry(
                    self.model(),
                    (#[trigger] records@[j]).command@,
                    spec_sum_for_text(records@.take(j + 1), records@[j].command@),
                ) by {
                    if j == i {
                        assert(total == spec_sum_for_text(records@.take(i + 1), t));
                    } else {
                        assert(last_in_prefix(records@, j, i as int));
                        assert(records@[j].command@ != t);
                        lemma_insert_ok_keeps_entry(
                            before,
                            self.model(),
                            t,
                            total as nat,
                            records@[j].command@,
                            spec_sum_for_text(records@.take(j + 1), records@[j].command@),
                        );
                    }
                }
            }
            i = i + 1;
        }
        proof {
            assert forall|j: int| #[trigger] last_occurrence(records@, j) implies m_has_entry(
                self.model(),
                records@[j].command@,
                spec_sum_for_text(records@, records@[j].command@),
            ) by {
                assert(last_in_prefix(records@, j, i as int));
                if j + 1 < records@.len() {
                    lemma_sum_for_text_stable(
                        records@,
                        records@[j].command@,
                        j,
                        records@.len() as int,
                    );
                }
                assert(records@.take(records@.len() as int) =~= records@);
            }
        }
        Ok(())
    }
}

impl CmdService for CmdServiceSQL {
    open spec fn model(&self) -> Seq<(Seq<char>, nat)> {
        db_entries(self.connection)
    }

    open spec fn pattern_ok(pattern: Seq<char>) -> bool {
        sql_pattern_ok(pattern)
    }

    open spec fn text_matches(pattern: Seq<char>, text: Seq<char>) -> bool {
        like_match(pattern, text)
    }

    open spec fn query_model(
        m: Seq<(Seq<char>, nat)>,
        pattern: Option<Seq<char>>,
        used: bool,
    ) -> Seq<(Seq<char>, nat)> {
        sql_query(m, pattern, used)
    }

    open spec fn name(&self) -> Seq<char> {
        self.db_name@
    }

    fn add_command(&mut self, command: String) -> (r: Result<(), CmdError>) {
        self.exec_insert_new(&command, 0)
    }

    fn update_command(&mut self, record: CmdRecord) -> (r: Result<(), CmdError>) {
        self.exec_upsert(&record.command, record.used_times)
    }

    fn insert_command(&mut self, record: CmdRecord) -> (r: Result<(), CmdError>) {
        self.exec_insert_replace(&record.command, record.used_times)
    }

    fn is_record_present(&self, record: &CmdRecord) -> (r: bool) {
        match self.exec_present(&record.command) {
            Ok(b) => b,
            Err(_) => false,
        }
    }

    fn get_commands(&self, filter: SearchFilters) -> (r: Result<Vec<CmdRecord>, CmdError>) {
        let sql = build_query_sql(&filter);
        let out = self.run_query(sql.as_str(), &filter.command, filter.used);
        proof {
            assert(opt_view(filter.command) == filter_pattern(filter));
            if filter.command is None && !filter.used {
                lemma_sql_query_id(db_entries(self.connection));
            }
        }
        out
    }

    open spec fn reset_model(m: Seq<(Seq<char>, nat)>, updated: Seq<CmdRecord>) -> Seq<
        (Seq<char>, nat),
    > {
        m
    }

    fn reset_commands(&mut self, updated_commands: Vec<CmdRecord>) -> (r: Result<(), CmdError>) {
        Ok(())
    }

    fn get_file_name(&self) -> (r: String) {
        self.db_name.clone()
    }

    fn clear_commands(&mut self) -> (r: Result<(), CmdError>) {
        self.exec_clear()
    }

    fn delete_command(&mut self, command: CmdRecord) -> (r: Result<(), CmdError>) {
        self.exec_delete(&command.command)
    }
}

} // verus!
