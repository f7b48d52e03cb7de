//! The registry database.
//!
//! A `Database` keeps the registry's contents in memory, where every query
//! is answered and every rule is checked, and writes each change through to
//! an SQLite database (through `rusqlite`), from which the contents are loaded
//! when the database is opened.  The model of the contents is `DbModel`; the
//! contracts of the methods state what each one returns and changes in terms
//! of it.
use vstd::prelude::*;
use crate::error::GitregError;
use crate::order::{
    views,
    Ranked,
    sort_ranked,
    sorted_by_rank,
    lemma_views_push,
    lemma_views_remove,
    lemma_views_update,
};
use crate::text::{
    lex_lt,
    compare_strs,
    Order,
    str_eq,
    chars_of,
    split,
    split_exec,
    string_of,
    parse_i64,
    parse_i64_exec,
    starts_with,
    ends_with,
    lemma_lex_asymmetric,
    lemma_lex_transitive,
    lemma_lex_irreflexive,
    trim,
    trim_bounds,
    slice_to_vec,
};

verus! {

// ---------------------------------------------------------------------------
// Outside types and calls
// ---------------------------------------------------------------------------

/// `rusqlite::Connection`, an open SQLite database.
#[verifier::external_type_specification]
#[verifier::external_body]
pub struct ExConnection(rusqlite::Connection);

/// `rusqlite::types::Value`, a dynamically typed SQLite value.
#[verifier::external_type_specification]
#[verifier::external_body]
pub struct ExSqliteValue(rusqlite::types::Value);

/// A parameter of an SQL statement.
pub enum SqlArg {
    Null,
    Integer(i64),
    Text(String),
}

/// A column value read back from a query.
enum SqlValue {
    Null,
    Integer(i64),
    Text(String),
    Other,
}

/// Converts a parameter into `rusqlite::types::Value`, variant for variant.
#[verifier::external_body]
fn sqlite_arg(arg: &SqlArg) -> rusqlite::types::Value {
    match arg {
        SqlArg::Null => rusqlite::types::Value::Null,
        SqlArg::Integer(i) => rusqlite::types::Value::Integer(*i),
        SqlArg::Text(t) => rusqlite::types::Value::Text(t.clone()),
    }
}

/// Converts a `rusqlite::types::Value` read from a row, variant for variant;
/// reals and blobs, which the schema never stores, become `Other`.
#[verifier::external_body]
fn sql_value(v: &rusqlite::types::Value) -> SqlValue {
    match v {
        rusqlite::types::Value::Null => SqlValue::Null,
        rusqlite::types::Value::Integer(i) => SqlValue::Integer(*i),
        rusqlite::types::Value::Text(t) => SqlValue::Text(t.clone()),
        rusqlite::types::Value::Real(_) => SqlValue::Other,
        rusqlite::types::Value::Blob(_) => SqlValue::Other,
    }
}

/// `rusqlite::Connection::open`: opens the SQLite database file at `path`,
/// creating it when it does not exist.
#[verifier::external_body]
fn open_connection(path: &str) -> Result<rusqlite::Connection, rusqlite::Error> {
    rusqlite::Connection::open(path)
}

/// `rusqlite::Connection::open_in_memory`: a new, empty database in memory.
#[verifier::external_body]
fn open_memory_connection() -> Result<rusqlite::Connection, rusqlite::Error> {
    rusqlite::Connection::open_in_memory()
}

/// `rusqlite::Connection::busy_timeout`; it panics on a timeout whose
/// milliseconds do not fit in an `i32`.
#[verifier::external_body]
fn set_busy_timeout(conn: &rusqlite::Connection, millis: u64) -> Result<(), rusqlite::Error>
    requires
        millis <= 0x7fff_ffff,
{
    conn.busy_timeout(std::time::Duration::from_millis(millis))
}

/// `rusqlite::Connection::execute_batch`: runs the statements of `sql`.
#[verifier::external_body]
fn run_batch(conn: &rusqlite::Connection, sql: &str) -> Result<(), rusqlite::Error> {
    conn.execute_batch(sql)
}

/// The parameters as `rusqlite` values.
fn sqlite_args(args: &[SqlArg]) -> (r: Vec<rusqlite::types::Value>)
    ensures
        r@.len() == args@.len(),
{
    let mut out: Vec<rusqlite::types::Value> = Vec::new();
    let mut i: usize = 0;
    while i < args.len()
        invariant
            i <= args@.len(),
            out@.len() == i,
        decreases args.len() - i,
    {
        out.push(sqlite_arg(&args[i]));
        i = i + 1;
    }
    out
}

/// `rusqlite::Connection::execute`: runs one statement with the given
/// parameter values and returns the number of rows it changed.
#[verifier::external_body]
fn execute_values(conn: &rusqlite::Connection, sql: &str, args: &[rusqlite::types::Value]) -> Result<
    usize,
    rusqlite::Error,
> {
    conn.execute(sql, rusqlite::params_from_iter(args.iter()))
}

/// Runs one statement with the given parameters.
fn run_statement(conn: &rusqlite::Connection, sql: &str, args: &[SqlArg]) -> Result<
    usize,
    rusqlite::Error,
> {
    let vals = sqlite_args(args);
    execute_values(conn, sql, vals.as_slice())
}

/// `rusqlite::Statement::query` on the statement that
/// `rusqlite::Connection::prepare` makes of `sql`, each row read with
/// `Row::get` as its first `ncols` columns.  What comes back depends on what
/// the database holds; each row has `ncols` values.
#[verifier::external_body]
fn query_values(conn: &rusqlite::Connection, sql: &str, args: &[rusqlite::types::Value], ncols: usize) -> (r:
    Result<Vec<Vec<rusqlite::types::Value>>, rusqlite::Error>)
    ensures
        r matches Ok(rows) ==> forall|i: int| 0 <= i < rows.len() ==> #[trigger] rows[i].len() == ncols,
{
    let mut stmt = conn.prepare(sql)?;
    let mut rows = stmt.query(rusqlite::params_from_iter(args.iter()))?;
    let mut out = Vec::new();
    while let Some(row) = rows.next()? {
        out.push((0..ncols).map(|i| row.get(i)).collect::<Result<Vec<rusqlite::types::Value>, _>>()?);
    }
    Ok(out)
}

/// A parameter of a statement, as a value.
pub enum ArgValue {
    Null,
    Integer(i64),
    Text(Seq<char>),
}

impl View for SqlArg {
    type V = ArgValue;

    open spec fn view(&self) -> ArgValue {
        match self {
            SqlArg::Null => ArgValue::Null,
            SqlArg::Integer(i) => ArgValue::Integer(*i),
            SqlArg::Text(t) => ArgValue::Text(t@),
        }
    }
}

/// A statement handed to SQLite: its text and its parameters.
pub type Statement = (Seq<char>, Seq<ArgValue>);

/// A statement without parameters.
pub open spec fn batch(sql: Seq<char>) -> Statement {
    (sql, Seq::empty())
}

/// The parameter of an optional text: NULL when absent.
pub open spec fn opt_text_arg(o: Option<Seq<char>>) -> ArgValue {
    match o {
        Some(t) => ArgValue::Text(t),
        None => ArgValue::Null,
    }
}

/// Every result row of the query `sql` with the given parameters, read as
/// its first `ncols` columns.
fn run_query(conn: &rusqlite::Connection, sql: &str, args: &[SqlArg], ncols: usize) -> (r: Result<
    Vec<Vec<SqlValue>>,
    rusqlite::Error,
>)
    ensures
        r matches Ok(rows) ==> forall|i: int| 0 <= i < rows.len() ==> #[trigger] rows[i].len() == ncols,
{
    let vals = sqlite_args(args);
    let rows = match query_values(conn, sql, vals.as_slice(), ncols) {
        Ok(rows) => rows,
        Err(e) => return Err(e),
    };
    let mut out: Vec<Vec<SqlValue>> = Vec::new();
    let mut i: usize = 0;
    while i < rows.len()
        invariant
            i <= rows@.len(),
            out@.len() == i,
            forall|k: int| 0 <= k < rows@.len() ==> #[trigger] rows@[k].len() == ncols,
            forall|k: int| 0 <= k < i ==> #[trigger] out@[k].len() == ncols,
        decreases rows.len() - i,
    {
        let row = &rows[i];
        let mut vals_out: Vec<SqlValue> = Vec::new();
        let mut j: usize = 0;
        while j < row.len()
            invariant
                j <= row@.len(),
                vals_out@.len() == j,
            decreases row.len() - j,
        {
            vals_out.push(sql_value(&row[j]));
            j = j + 1;
        }
        out.push(vals_out);
        i = i + 1;
    }
    Ok(out)
}

/// `std::path::Path::exists`: whether `path` names something on the file
/// system; the answer depends on the file system.
#[verifier::external_body]
fn path_exists(path: &str) -> bool {
    std::path::Path::new(path).exists()
}

/// `std::path::MAIN_SEPARATOR`: `/` on Unix and `\` on Windows.
#[verifier::external_body]
fn main_separator() -> (c: char)
    ensures
        c == '/' || c == '\\',
{
    std::path::MAIN_SEPARATOR
}

/// `std::time::SystemTime::now`, as milliseconds since the Unix epoch, or
/// `None` when the clock is set before the epoch; depends on the clock.
#[verifier::external_body]
fn system_millis_since_epoch() -> Option<u128> {
    std::time::SystemTime::now().duration_since(std::time::UNIX_EPOCH).ok().map(|d| d.as_millis())
}

/// Milliseconds since the Unix epoch as the registry stores them, from what
/// the clock reports (`None`: set before the epoch): zero for a clock set
/// before the epoch, `i64::MAX` past what an `i64` holds.
pub fn millis_from_clock(ms: Option<u128>) -> (t: i64)
    ensures
        t == match ms {
            Some(m) => if m > i64::MAX {
                i64::MAX as int
            } else {
                m as int
            },
            None => 0,
        },
{
    match ms {
        Some(m) => if m > 0x7fff_ffff_ffff_ffff {
            i64::MAX
        } else {
            m as i64
        },
        None => 0,
    }
}

/// The current time in milliseconds since the Unix epoch, as
/// `millis_from_clock` reads the clock.
pub fn now_millis() -> (t: i64)
    ensures
        t >= 0,
{
    millis_from_clock(system_millis_since_epoch())
}

// ---------------------------------------------------------------------------
// Records
// ---------------------------------------------------------------------------

/// `Option<String>` by its view.
pub open spec fn opt_view(o: Option<String>) -> Option<Seq<char>> {
    match o {
        Some(s) => Some(s@),
        None => None,
    }
}

/// What the registry holds of a repository, and what a listing reports of it.
pub struct RepoModel {
    pub id: i64,
    pub path: Seq<char>,
    pub name: Option<Seq<char>>,
    pub last_seen: i64,
    pub tags: Seq<Seq<char>>,
    pub emergency_branch: Option<Seq<char>>,
}

/// A tracked repository.
#[derive(Clone, Debug)]
pub struct RepoRecord {
    pub id: i64,
    pub path: String,
    pub name: Option<String>,
    pub last_seen: i64,
    pub tags: Vec<String>,
    pub emergency_branch: Option<String>,
}

impl View for RepoRecord {
    type V = RepoModel;

    open spec fn view(&self) -> RepoModel {
        RepoModel {
            id: self.id,
            path: self.path@,
            name: opt_view(self.name),
            last_seen: self.last_seen,
            tags: views(self.tags@),
            emergency_branch: opt_view(self.emergency_branch),
        }
    }
}

/// What a listing reports of an integration.
pub struct IntegrationModel {
    pub app_name: Seq<char>,
    pub is_blocked: bool,
    pub event: Seq<char>,
    pub socket_path: Seq<char>,
}

/// An integrator application's registration for one event.
#[derive(Clone, Debug)]
pub struct IntegrationRecord {
    pub app_name: String,
    pub is_blocked: bool,
    pub event: String,
    pub socket_path: String,
}

impl View for IntegrationRecord {
    type V = IntegrationModel;

    open spec fn view(&self) -> IntegrationModel {
        IntegrationModel {
            app_name: self.app_name@,
            is_blocked: self.is_blocked,
            event: self.event@,
            socket_path: self.socket_path@,
        }
    }
}

/// A registered setting.
pub struct Setting {
    pub key: String,
    pub value: String,
}

impl View for Setting {
    type V = (Seq<char>, Seq<char>);

    open spec fn view(&self) -> (Seq<char>, Seq<char>) {
        (self.key@, self.value@)
    }
}

/// An event registration of an application: the event and the socket.
pub struct Listener {
    pub event: String,
    pub socket_path: String,
}

impl View for Listener {
    type V = (Seq<char>, Seq<char>);

    open spec fn view(&self) -> (Seq<char>, Seq<char>) {
        (self.event@, self.socket_path@)
    }
}

/// What the registry holds of an integrator application.
pub struct AppModel {
    pub id: i64,
    pub name: Seq<char>,
    pub blocked: bool,
    /// (event, socket path) pairs, one per event.
    pub listeners: Seq<(Seq<char>, Seq<char>)>,
}

/// An integrator application with its registrations.
pub struct AppRecord {
    pub id: i64,
    pub name: String,
    pub blocked: bool,
    pub listeners: Vec<Listener>,
}

impl View for AppRecord {
    type V = AppModel;

    open spec fn view(&self) -> AppModel {
        AppModel {
            id: self.id,
            name: self.name@,
            blocked: self.blocked,
            listeners: views(self.listeners@),
        }
    }
}

/// The contents of the registry.
pub struct DbModel {
    /// The path separator of the platform.
    pub sep: char,
    /// Repositories, with their tags as stored.
    pub repos: Seq<RepoModel>,
    /// (key, value) pairs.
    pub settings: Seq<(Seq<char>, Seq<char>)>,
    /// Excluded paths.
    pub exclusions: Seq<Seq<char>>,
    /// Integrator applications.
    pub apps: Seq<AppModel>,
}

/// Ids and paths of repositories are unique; so are the tags of each.
pub open spec fn repos_ok(repos: Seq<RepoModel>) -> bool {
    &&& forall|i: int, j: int|
        0 <= i < j < repos.len() ==> #[trigger] repos[i].id != #[trigger] repos[j].id
            && repos[i].path != repos[j].path
    &&& forall|i: int| 0 <= i < repos.len() ==> (#[trigger] repos[i]).tags.no_duplicates()
}

/// Keys are unique.
pub open spec fn keys_ok(s: Seq<(Seq<char>, Seq<char>)>) -> bool {
    forall|i: int, j: int| 0 <= i < j < s.len() ==> (#[trigger] s[i]).0 != (#[trigger] s[j]).0
}

/// Ids and names of applications are unique; so are the events of each.
pub open spec fn apps_ok(apps: Seq<AppModel>) -> bool {
    &&& forall|i: int, j: int|
        0 <= i < j < apps.len() ==> #[trigger] apps[i].id != #[trigger] apps[j].id
            && apps[i].name != apps[j].name
    &&& forall|i: int| 0 <= i < apps.len() ==> keys_ok((#[trigger] apps[i]).listeners)
}

/// The constraints of the schema: ids and paths of repositories, keys of
/// settings, excluded paths, ids and names of applications, tags of a
/// repository and events of an application are each unique.
pub open spec fn well_formed(m: DbModel) -> bool {
    &&& (m.sep == '/' || m.sep == '\\')
    &&& repos_ok(m.repos)
    &&& keys_ok(m.settings)
    &&& m.exclusions.no_duplicates()
    &&& apps_ok(m.apps)
}

/// The registry database.
pub struct Database {
    conn: rusqlite::Connection,
    sep: char,
    repos: Vec<RepoRecord>,
    settings: Vec<Setting>,
    exclusions: Vec<String>,
    apps: Vec<AppRecord>,
    /// The statements handed to SQLite through this handle that change the
    /// database, in order.
    written: Ghost<Seq<Statement>>,
}

impl Database {
    /// The statements that this handle has handed to SQLite to change the
    /// database, oldest first: the setup when it was opened, then one or more
    /// per change.
    pub closed spec fn writes(&self) -> Seq<Statement> {
        self.written@
    }

    /// Hands the statement `sql` with `args` to SQLite and records it.
    fn write(&mut self, sql: &str, args: Vec<SqlArg>) -> (r: Result<usize, rusqlite::Error>)
        ensures
            final(self)@ == old(self)@,
            final(self).repos == old(self).repos,
            final(self).settings == old(self).settings,
            final(self).exclusions == old(self).exclusions,
            final(self).apps == old(self).apps,
            final(self).sep == old(self).sep,
            final(self).writes() == old(self).writes().push((sql@, views(args@))),
    {
        let r = run_statement(&self.conn, sql, args.as_slice());
        self.written = Ghost(self.written@.push((sql@, views(args@))));
        r
    }
}

impl View for Database {
    type V = DbModel;

    closed spec fn view(&self) -> DbModel {
        DbModel {
            sep: self.sep,
            repos: views(self.repos@),
            settings: views(self.settings@),
            exclusions: views(self.exclusions@),
            apps: views(self.apps@),
        }
    }
}

// ---------------------------------------------------------------------------
// Lookups
// ---------------------------------------------------------------------------

/// How a repository is looked up.
pub enum RepoKey {
    Id(i64),
    Path(Seq<char>),
    PathOrName(Seq<char>),
}

pub open spec fn repo_matches(r: RepoModel, k: RepoKey) -> bool {
    match k {
        RepoKey::Id(id) => r.id == id,
        RepoKey::Path(p) => r.path == p,
        RepoKey::PathOrName(t) => r.path == t || r.name == Some(t),
    }
}

/// The index of the first repository that matches `k`.
pub open spec fn first_repo(repos: Seq<RepoModel>, k: RepoKey) -> Option<int>
    decreases repos.len(),
{
    if repos.len() == 0 {
        None
    } else {
        match first_repo(repos.drop_last(), k) {
            Some(i) => Some(i),
            None => if repo_matches(repos.last(), k) {
                Some(repos.len() - 1)
            } else {
                None
            },
        }
    }
}

pub proof fn lemma_first_repo(repos: Seq<RepoModel>, k: RepoKey)
    ensures
        match first_repo(repos, k) {
            Some(i) => 0 <= i < repos.len() && repo_matches(repos[i], k) && forall|j: int|
                0 <= j < i ==> !repo_matches(#[trigger] repos[j], k),
            None => forall|j: int| 0 <= j < repos.len() ==> !repo_matches(#[trigger] repos[j], k),
        },
    decreases repos.len(),
{
    if repos.len() > 0 {
        lemma_first_repo(repos.drop_last(), k);
        assert forall|j: int| 0 <= j < repos.len() - 1 implies repos[j] == repos.drop_last()[j] by {}
    }
}

/// The index of the first element equal to `x`.
pub open spec fn position<A>(s: Seq<A>, x: A) -> Option<int>
    decreases s.len(),
{
    if s.len() == 0 {
        None
    } else {
        match position(s.drop_last(), x) {
            Some(i) => Some(i),
            None => if s.last() == x {
                Some(s.len() - 1)
            } else {
                None
            },
        }
    }
}

pub proof fn lemma_position<A>(s: Seq<A>, x: A)
    ensures
        match position(s, x) {
            Some(i) => 0 <= i < s.len() && s[i] == x && forall|j: int| 0 <= j < i ==> s[j] != x,
            None => !s.contains(x),
        },
    decreases s.len(),
{
    if s.len() > 0 {
        lemma_position(s.drop_last(), x);
        assert forall|j: int| 0 <= j < s.len() - 1 implies s[j] == s.drop_last()[j] by {}
    }
}

/// The index of the first pair whose key is `k`.
pub open spec fn key_position(s: Seq<(Seq<char>, Seq<char>)>, k: Seq<char>) -> Option<int>
    decreases s.len(),
{
    if s.len() == 0 {
        None
    } else {
        match key_position(s.drop_last(), k) {
            Some(i) => Some(i),
            None => if s.last().0 == k {
                Some(s.len() - 1)
            } else {
                None
            },
        }
    }
}

pub proof fn lemma_key_position(s: Seq<(Seq<char>, Seq<char>)>, k: Seq<char>)
    ensures
        match key_position(s, k) {
            Some(i) => 0 <= i < s.len() && s[i].0 == k && forall|j: int|
                0 <= j < i ==> (#[trigger] s[j]).0 != k,
            None => forall|j: int| 0 <= j < s.len() ==> (#[trigger] s[j]).0 != k,
        },
    decreases s.len(),
{
    if s.len() > 0 {
        lemma_key_position(s.drop_last(), k);
        assert forall|j: int| 0 <= j < s.len() - 1 implies s[j] == s.drop_last()[j] by {}
    }
}

/// The value stored under key `k`.
pub open spec fn value_of(s: Seq<(Seq<char>, Seq<char>)>, k: Seq<char>) -> Option<Seq<char>> {
    match key_position(s, k) {
        Some(i) => Some(s[i].1),
        None => None,
    }
}

/// The index of the first application named `name`.
pub open spec fn app_position(apps: Seq<AppModel>, name: Seq<char>) -> Option<int>
    decreases apps.len(),
{
    if apps.len() == 0 {
        None
    } else {
        match app_position(apps.drop_last(), name) {
            Some(i) => Some(i),
            None => if apps.last().name == name {
                Some(apps.len() - 1)
            } else {
                None
            },
        }
    }
}

pub proof fn lemma_app_position(apps: Seq<AppModel>, name: Seq<char>)
    ensures
        match app_position(apps, name) {
            Some(i) => 0 <= i < apps.len() && apps[i].name == name && forall|j: int|
                0 <= j < i ==> (#[trigger] apps[j]).name != name,
            None => forall|j: int| 0 <= j < apps.len() ==> (#[trigger] apps[j]).name != name,
        },
    decreases apps.len(),
{
    if apps.len() > 0 {
        lemma_app_position(apps.drop_last(), name);
        assert forall|j: int| 0 <= j < apps.len() - 1 implies apps[j] == apps.drop_last()[j] by {}
    }
}

/// With unique ids, the only repository with a given id is the first.
pub proof fn lemma_unique_id(repos: Seq<RepoModel>, id: i64, j: int)
    requires
        repos_ok(repos),
        0 <= j < repos.len(),
        repos[j].id == id,
    ensures
        first_repo(repos, RepoKey::Id(id)) == Some(j),
{
    lemma_first_repo(repos, RepoKey::Id(id));
    let f = first_repo(repos, RepoKey::Id(id));
    if f != Some(j) {
        let i = f->0;
        assert(repos[i].id == id);
        if i < j {
            assert(repos[i].id != repos[j].id);
        } else {
            assert(!repo_matches(repos[j], RepoKey::Id(id)));
        }
    }
}

/// With unique paths, the only repository with a given path is the first.
pub proof fn lemma_unique_path(repos: Seq<RepoModel>, p: Seq<char>, j: int)
    requires
        repos_ok(repos),
        0 <= j < repos.len(),
        repos[j].path == p,
    ensures
        first_repo(repos, RepoKey::Path(p)) == Some(j),
{
    lemma_first_repo(repos, RepoKey::Path(p));
    let f = first_repo(repos, RepoKey::Path(p));
    if f != Some(j) {
        let i = f->0;
        if i < j {
            assert(repos[i].id != repos[j].id);
            assert(repos[i].path != repos[j].path);
        } else {
            assert(!repo_matches(repos[j], RepoKey::Path(p)));
        }
    }
}

fn find_repo_by_id(repos: &Vec<RepoRecord>, id: i64) -> (r: Option<usize>)
    ensures
        match r {
            Some(i) => first_repo(views(repos@), RepoKey::Id(id)) == Some(i as int),
            None => first_repo(views(repos@), RepoKey::Id(id)) is None,
        },
{
    let ghost v = views(repos@);
    let mut i: usize = 0;
    while i < repos.len()
        invariant
            0 <= i <= repos@.len(),
            v == views(repos@),
            first_repo(v.take(i as int), RepoKey::Id(id)) is None,
        decreases repos.len() - i,
    {
        assert(v.take(i + 1).drop_last() == v.take(i as int));
        if repos[i].id == id {
            proof {
                lemma_first_repo(v, RepoKey::Id(id));
                lemma_first_repo(v.take(i as int), RepoKey::Id(id));
                assert forall|j: int| 0 <= j < i implies !repo_matches(#[trigger] v[j], RepoKey::Id(id)) by {
                    assert(v[j] == v.take(i as int)[j]);
                }
                assert(repo_matches(v[i as int], RepoKey::Id(id)));
            }
            return Some(i);
        }
        i = i + 1;
    }
    assert(v.take(repos.len() as int) == v);
    None
}

fn find_repo_by_path(repos: &Vec<RepoRecord>, path: &str) -> (r: Option<usize>)
    ensures
        match r {
            Some(i) => first_repo(views(repos@), RepoKey::Path(path@)) == Some(i as int),
            None => first_repo(views(repos@), RepoKey::Path(path@)) is None,
        },
{
    let ghost v = views(repos@);
    let mut i: usize = 0;
    while i < repos.len()
        invariant
            0 <= i <= repos@.len(),
            v == views(repos@),
            first_repo(v.take(i as int), RepoKey::Path(path@)) is None,
        decreases repos.len() - i,
    {
        assert(v.take(i + 1).drop_last() == v.take(i as int));
        if str_eq(repos[i].path.as_str(), path) {
            proof {
                lemma_first_repo(v, RepoKey::Path(path@));
                lemma_first_repo(v.take(i as int), RepoKey::Path(path@));
                assert forall|j: int| 0 <= j < i implies !repo_matches(
                    #[trigger] v[j],
                    RepoKey::Path(path@),
                ) by {
                    assert(v[j] == v.take(i as int)[j]);
                }
                assert(repo_matches(v[i as int], RepoKey::Path(path@)));
            }
            return Some(i);
        }
        i = i + 1;
    }
    assert(v.take(repos.len() as int) == v);
    None
}

fn opt_str_eq(o: &Option<String>, t: &str) -> (b: bool)
    ensures
        b == (opt_view(*o) == Some(t@)),
{
    match o {
        Some(s) => str_eq(s.as_str(), t),
        None => false,
    }
}

fn find_repo_by_path_or_name(repos: &Vec<RepoRecord>, t: &str) -> (r: Option<usize>)
    ensures
        match r {
            Some(i) => first_repo(views(repos@), RepoKey::PathOrName(t@)) == Some(i as int),
            None => first_repo(views(repos@), RepoKey::PathOrName(t@)) is None,
        },
{
    let ghost v = views(repos@);
    let mut i: usize = 0;
    while i < repos.len()
        invariant
            0 <= i <= repos@.len(),
            v == views(repos@),
            first_repo(v.take(i as int), RepoKey::PathOrName(t@)) is None,
        decreases repos.len() - i,
    {
        assert(v.take(i + 1).drop_last() == v.take(i as int));
        if str_eq(repos[i].path.as_str(), t) || opt_str_eq(&repos[i].name, t) {
            proof {
                lemma_first_repo(v, RepoKey::PathOrName(t@));
                lemma_first_repo(v.take(i as int), RepoKey::PathOrName(t@));
                assert forall|j: int| 0 <= j < i implies !repo_matches(
                    #[trigger] v[j],
                    RepoKey::PathOrName(t@),
                ) by {
                    assert(v[j] == v.take(i as int)[j]);
                }
                assert(repo_matches(v[i as int], RepoKey::PathOrName(t@)));
            }
            return Some(i);
        }
        i = i + 1;
    }
    assert(v.take(repos.len() as int) == v);
    None
}

fn find_string(s: &Vec<String>, x: &str) -> (r: Option<usize>)
    ensures
        match r {
            Some(i) => position(views(s@), x@) == Some(i as int),
            None => position(views(s@), x@) is None,
        },
{
    let ghost v = views(s@);
    let mut i: usize = 0;
    while i < s.len()
        invariant
            0 <= i <= s@.len(),
            v == views(s@),
            position(v.take(i as int), x@) is None,
        decreases s.len() - i,
    {
        assert(v.take(i + 1).drop_last() == v.take(i as int));
        if str_eq(s[i].as_str(), x) {
            proof {
                lemma_position(v.take(i as int), x@);
                assert(v.take(i + 1).last() == x@);
                lemma_position(v, x@);
                if position(v, x@) != Some(i as int) {
                    let k = position(v, x@)->0;
                    if k < i {
                        assert(v.take(i as int)[k] == v[k]);
                        assert(v.take(i as int).contains(x@));
                    }
                }
            }
            return Some(i);
        }
        i = i + 1;
    }
    proof {
        assert(v.take(s.len() as int) == v);
    }
    None
}

fn find_setting(s: &Vec<Setting>, key: &str) -> (r: Option<usize>)
    ensures
        match r {
            Some(i) => key_position(views(s@), key@) == Some(i as int),
            None => key_position(views(s@), key@) is None,
        },
{
    let ghost v = views(s@);
    let mut i: usize = 0;
    while i < s.len()
        invariant
            0 <= i <= s@.len(),
            v == views(s@),
            key_position(v.take(i as int), key@) is None,
        decreases s.len() - i,
    {
        assert(v.take(i + 1).drop_last() == v.take(i as int));
        if str_eq(s[i].key.as_str(), key) {
            proof {
                lemma_key_position(v.take(i as int), key@);
                lemma_key_position(v, key@);
                assert(v[i as int].0 == key@);
                match key_position(v, key@) {
                    Some(k) => {
                        if k < i {
                            assert(v.take(i as int)[k] == v[k]);
                        }
                    },
                    None => {},
                }
            }
            return Some(i);
        }
        i = i + 1;
    }
    proof {
        assert(v.take(s.len() as int) == v);
    }
    None
}

fn find_listener(s: &Vec<Listener>, event: &str) -> (r: Option<usize>)
    ensures
        match r {
            Some(i) => key_position(views(s@), event@) == Some(i as int),
            None => key_position(views(s@), event@) is None,
        },
{
    let ghost v = views(s@);
    let mut i: usize = 0;
    while i < s.len()
        invariant
            0 <= i <= s@.len(),
            v == views(s@),
            key_position(v.take(i as int), event@) is None,
        decreases s.len() - i,
    {
        assert(v.take(i + 1).drop_last() == v.take(i as int));
        if str_eq(s[i].event.as_str(), event) {
            proof {
                lemma_key_position(v.take(i as int), event@);
                lemma_key_position(v, event@);
                assert(v[i as int].0 == event@);
                match key_position(v, event@) {
                    Some(k) => {
                        if k < i {
                            assert(v.take(i as int)[k] == v[k]);
                        }
                    },
                    None => {},
                }
            }
            return Some(i);
        }
        i = i + 1;
    }
    proof {
        assert(v.take(s.len() as int) == v);
    }
    None
}

fn find_app(apps: &Vec<AppRecord>, name: &str) -> (r: Option<usize>)
    ensures
        match r {
            Some(i) => app_position(views(apps@), name@) == Some(i as int),
            None => app_position(views(apps@), name@) is None,
        },
{
    let ghost v = views(apps@);
    let mut i: usize = 0;
    while i < apps.len()
        invariant
            0 <= i <= apps@.len(),
            v == views(apps@),
            app_position(v.take(i as int), name@) is None,
        decreases apps.len() - i,
    {
        assert(v.take(i + 1).drop_last() == v.take(i as int));
        if str_eq(apps[i].name.as_str(), name) {
            proof {
                lemma_app_position(v.take(i as int), name@);
                lemma_app_position(v, name@);
                assert(v[i as int].name == name@);
                match app_position(v, name@) {
                    Some(k) => {
                        if k < i {
                            assert(v.take(i as int)[k] == v[k]);
                        }
                    },
                    None => {},
                }
            }
            return Some(i);
        }
        i = i + 1;
    }
    proof {
        assert(v.take(apps.len() as int) == v);
    }
    None
}

fn find_app_by_id(apps: &Vec<AppRecord>, id: i64) -> (r: Option<usize>)
    ensures
        match r {
            Some(i) => i < apps@.len() && apps@[i as int].id == id,
            None => forall|j: int| 0 <= j < apps@.len() ==> (#[trigger] apps@[j]).id != id,
        },
{
    let mut i: usize = 0;
    while i < apps.len()
        invariant
            0 <= i <= apps@.len(),
            forall|j: int| 0 <= j < i ==> (#[trigger] apps@[j]).id != id,
        decreases apps.len() - i,
    {
        if apps[i].id == id {
            return Some(i);
        }
        i = i + 1;
    }
    None
}

// ---------------------------------------------------------------------------
// Small helpers
// ---------------------------------------------------------------------------

/// Replaces the element at `i`, returning the one that was there.
fn replace_at<T>(v: &mut Vec<T>, i: usize, x: T) -> (y: T)
    requires
        i < old(v)@.len(),
    ensures
        final(v)@ == old(v)@.update(i as int, x),
        y == old(v)@[i as int],
{
    let y = v.remove(i);
    v.insert(i, x);
    assert(v@ =~= old(v)@.update(i as int, x));
    y
}

fn copy_opt(o: &Option<String>) -> (r: Option<String>)
    ensures
        opt_view(r) == opt_view(*o),
{
    match o {
        Some(s) => Some(s.clone()),
        None => None,
    }
}

/// `Option<&str>` by its view.
pub open spec fn opt_str_view(o: Option<&str>) -> Option<Seq<char>> {
    match o {
        Some(s) => Some(s@),
        None => None,
    }
}

fn owned_opt(o: Option<&str>) -> (r: Option<String>)
    ensures
        opt_view(r) == opt_str_view(o),
{
    match o {
        Some(s) => Some(s.to_owned()),
        None => None,
    }
}

fn text_arg(s: &str) -> (a: SqlArg)
    ensures
        a matches SqlArg::Text(t) && t@ == s@,
{
    SqlArg::Text(s.to_owned())
}

/// The integer a column holds.
spec fn int_of(v: SqlValue) -> Option<i64> {
    match v {
        SqlValue::Integer(i) => Some(i),
        _ => None,
    }
}

/// The text a column holds.
spec fn text_of(v: SqlValue) -> Option<Seq<char>> {
    match v {
        SqlValue::Text(t) => Some(t@),
        _ => None,
    }
}

/// The text of a column that may be NULL.
spec fn opt_text_of(v: SqlValue) -> Option<Option<Seq<char>>> {
    match v {
        SqlValue::Null => Some(None),
        SqlValue::Text(t) => Some(Some(t@)),
        _ => None,
    }
}

fn int_value(v: &SqlValue) -> (r: Option<i64>)
    ensures
        r == int_of(*v),
{
    match v {
        SqlValue::Integer(i) => Some(*i),
        _ => None,
    }
}

fn text_value(v: &SqlValue) -> (r: Option<String>)
    ensures
        opt_view(r) == text_of(*v),
{
    match v {
        SqlValue::Text(t) => Some(t.clone()),
        _ => None,
    }
}

fn opt_text_value(v: &SqlValue) -> (r: Option<Option<String>>)
    ensures
        match r {
            Some(o) => opt_text_of(*v) == Some(opt_view(o)),
            None => opt_text_of(*v) is None,
        },
{
    match v {
        SqlValue::Null => Some(None),
        SqlValue::Text(t) => Some(Some(t.clone())),
        _ => None,
    }
}

/// The error that reports database contents that break the schema's
/// constraints.
pub open spec fn inconsistency(e: GitregError) -> bool {
    e matches GitregError::InvalidFormat(m) && m@ == "database contents are inconsistent"@
}

fn inconsistent() -> (e: GitregError)
    ensures
        inconsistency(e),
{
    GitregError::InvalidFormat("database contents are inconsistent".to_owned())
}

fn db_error(e: rusqlite::Error) -> (r: GitregError)
    ensures
        r == GitregError::Database(e),
{
    GitregError::Database(e)
}

/// Adds `tag` to the repository at index `i`.
fn push_tag(repos: &mut Vec<RepoRecord>, i: usize, tag: String)
    requires
        i < old(repos)@.len(),
        repos_ok(views(old(repos)@)),
        !views(old(repos)@)[i as int].tags.contains(tag@),
    ensures
        views(final(repos)@) == views(old(repos)@).update(
            i as int,
            RepoModel { tags: views(old(repos)@)[i as int].tags.push(tag@), ..views(old(repos)@)[i as int] },
        ),
        repos_ok(views(final(repos)@)),
{
    let ghost old_v = views(repos@);
    let mut r = repos.remove(i);
    let ghost old_tags = r.tags@;
    r.tags.push(tag);
    proof {
        lemma_views_push(old_tags, r.tags@.last());
        assert(r.tags@ == old_tags.push(r.tags@.last()));
        let t = views(r.tags@);
        assert(old_v[i as int].tags.no_duplicates());
        assert forall|x: int, y: int| 0 <= x < t.len() && 0 <= y < t.len() && x != y implies t[x]
            != t[y] by {
            if x == t.len() - 1 {
                assert(!old_v[i as int].tags.contains(t[y]) || t[y] != t[x]);
            } else if y == t.len() - 1 {
                assert(!old_v[i as int].tags.contains(t[x]) || t[y] != t[x]);
            } else {
                assert(old_v[i as int].tags[x] == t[x]);
                assert(old_v[i as int].tags[y] == t[y]);
            }
        }
    }
    repos.insert(i, r);
    proof {
        assert(repos@ =~= old(repos)@.update(i as int, r));
        lemma_views_update(old(repos)@, i as int, r);
        lemma_repos_ok_update(old_v, i as int, r@);
    }
}

// ---------------------------------------------------------------------------
// Loading
// ---------------------------------------------------------------------------

/// The result of reading `rows` one after another with `step`, starting
/// from `init`: `None` as soon as a row is refused.
spec fn fold_rows<S>(
    init: Option<S>,
    rows: Seq<Vec<SqlValue>>,
    step: spec_fn(S, Vec<SqlValue>) -> Option<S>,
) -> Option<S>
    decreases rows.len(),
{
    if rows.len() == 0 {
        init
    } else {
        match fold_rows(init, rows.drop_last(), step) {
            Some(s) => step(s, rows.last()),
            None => None,
        }
    }
}

proof fn lemma_fold_take<S>(
    init: Option<S>,
    rows: Seq<Vec<SqlValue>>,
    step: spec_fn(S, Vec<SqlValue>) -> Option<S>,
    k: int,
)
    requires
        0 <= k < rows.len(),
    ensures
        fold_rows(init, rows.take(k + 1), step) == match fold_rows(init, rows.take(k), step) {
            Some(s) => step(s, rows[k]),
            None => None,
        },
{
    assert(rows.take(k + 1).drop_last() =~= rows.take(k));
    assert(rows.take(k + 1).last() == rows[k]);
}

/// A refused prefix refuses the whole.
proof fn lemma_fold_none<S>(
    init: Option<S>,
    rows: Seq<Vec<SqlValue>>,
    step: spec_fn(S, Vec<SqlValue>) -> Option<S>,
    k: int,
)
    requires
        0 <= k <= rows.len(),
        fold_rows(init, rows.take(k), step) is None,
    ensures
        fold_rows(init, rows, step) is None,
    decreases rows.len() - k,
{
    if k < rows.len() {
        lemma_fold_take(init, rows, step, k);
        lemma_fold_none(init, rows, step, k + 1);
    } else {
        assert(rows.take(k) =~= rows);
    }
}

/// A repository row: id, path, name (or NULL), time of last registration,
/// emergency branch (or NULL).
spec fn repo_of_row(row: Vec<SqlValue>) -> Option<RepoModel> {
    if int_of(row[0]) is Some && text_of(row[1]) is Some && opt_text_of(row[2]) is Some && int_of(
        row[3],
    ) is Some && opt_text_of(row[4]) is Some {
        Some(
            RepoModel {
                id: int_of(row[0])->0,
                path: text_of(row[1])->0,
                name: opt_text_of(row[2])->0,
                last_seen: int_of(row[3])->0,
                tags: Seq::empty(),
                emergency_branch: opt_text_of(row[4])->0,
            },
        )
    } else {
        None
    }
}

/// Appends the repository of `row`, whose id and path must be new.
spec fn repo_step(rs: Seq<RepoModel>, row: Vec<SqlValue>) -> Option<Seq<RepoModel>> {
    match repo_of_row(row) {
        Some(r) => if first_repo(rs, RepoKey::Id(r.id)) is None && first_repo(
            rs,
            RepoKey::Path(r.path),
        ) is None {
            Some(rs.push(r))
        } else {
            None
        },
        None => None,
    }
}

spec fn repo_step_fn() -> spec_fn(Seq<RepoModel>, Vec<SqlValue>) -> Option<Seq<RepoModel>> {
    |rs: Seq<RepoModel>, row: Vec<SqlValue>| repo_step(rs, row)
}

/// Adds the tag of a (repository id, tag) row to that repository, which
/// must exist and not have it yet.
spec fn tag_step(rs: Seq<RepoModel>, row: Vec<SqlValue>) -> Option<Seq<RepoModel>> {
    if int_of(row[0]) is Some && text_of(row[1]) is Some {
        let tag = text_of(row[1])->0;
        match first_repo(rs, RepoKey::Id(int_of(row[0])->0)) {
            Some(i) => if rs[i].tags.contains(tag) {
                None
            } else {
                Some(rs.update(i, RepoModel { tags: rs[i].tags.push(tag), ..rs[i] }))
            },
            None => None,
        }
    } else {
        None
    }
}

spec fn tag_step_fn() -> spec_fn(Seq<RepoModel>, Vec<SqlValue>) -> Option<Seq<RepoModel>> {
    |rs: Seq<RepoModel>, row: Vec<SqlValue>| tag_step(rs, row)
}

/// The repositories that the repository rows and then the tag rows make.
spec fn repos_from_rows(rows: Seq<Vec<SqlValue>>, tag_rows: Seq<Vec<SqlValue>>) -> Option<
    Seq<RepoModel>,
> {
    fold_rows(fold_rows(Some(Seq::empty()), rows, repo_step_fn()), tag_rows, tag_step_fn())
}

/// Appends the (key, value) pair of `row`, whose key must be new.
spec fn setting_step(s: Seq<(Seq<char>, Seq<char>)>, row: Vec<SqlValue>) -> Option<
    Seq<(Seq<char>, Seq<char>)>,
> {
    if text_of(row[0]) is Some && text_of(row[1]) is Some && key_position(s, text_of(row[0])->0) is None {
        Some(s.push((text_of(row[0])->0, text_of(row[1])->0)))
    } else {
        None
    }
}

spec fn setting_step_fn() -> spec_fn(Seq<(Seq<char>, Seq<char>)>, Vec<SqlValue>) -> Option<
    Seq<(Seq<char>, Seq<char>)>,
> {
    |s: Seq<(Seq<char>, Seq<char>)>, row: Vec<SqlValue>| setting_step(s, row)
}

/// Appends the path of `row`, which must be new.
spec fn exclusion_step(s: Seq<Seq<char>>, row: Vec<SqlValue>) -> Option<Seq<Seq<char>>> {
    if text_of(row[0]) is Some && !s.contains(text_of(row[0])->0) {
        Some(s.push(text_of(row[0])->0))
    } else {
        None
    }
}

spec fn exclusion_step_fn() -> spec_fn(Seq<Seq<char>>, Vec<SqlValue>) -> Option<Seq<Seq<char>>> {
    |s: Seq<Seq<char>>, row: Vec<SqlValue>| exclusion_step(s, row)
}

/// Appends the application of an (id, name, blocked) row, whose id and name
/// must be new; it has no registrations yet.
spec fn app_step(apps: Seq<AppModel>, row: Vec<SqlValue>) -> Option<Seq<AppModel>> {
    if int_of(row[0]) is Some && text_of(row[1]) is Some && int_of(row[2]) is Some && !(exists|j: int|
        0 <= j < apps.len() && (#[trigger] apps[j]).id == int_of(row[0])->0) && app_position(
        apps,
        text_of(row[1])->0,
    ) is None {
        Some(
            apps.push(
                AppModel {
                    id: int_of(row[0])->0,
                    name: text_of(row[1])->0,
                    blocked: int_of(row[2])->0 != 0,
                    listeners: Seq::empty(),
                },
            ),
        )
    } else {
        None
    }
}

spec fn app_step_fn() -> spec_fn(Seq<AppModel>, Vec<SqlValue>) -> Option<Seq<AppModel>> {
    |apps: Seq<AppModel>, row: Vec<SqlValue>| app_step(apps, row)
}

/// Adds the registration of an (application id, event, socket) row to that
/// application, which must exist and not be registered for the event yet.
spec fn listener_step(apps: Seq<AppModel>, row: Vec<SqlValue>) -> Option<Seq<AppModel>> {
    if int_of(row[0]) is Some && text_of(row[1]) is Some && text_of(row[2]) is Some && exists|j: int|
        0 <= j < apps.len() && (#[trigger] apps[j]).id == int_of(row[0])->0 {
        let i = choose|j: int| 0 <= j < apps.len() && (#[trigger] apps[j]).id == int_of(row[0])->0;
        let event = text_of(row[1])->0;
        if key_position(apps[i].listeners, event) is None {
            Some(
                apps.update(
                    i,
                    AppModel {
                        listeners: apps[i].listeners.push((event, text_of(row[2])->0)),
                        ..apps[i]
                    },
                ),
            )
        } else {
            None
        }
    } else {
        None
    }
}

spec fn listener_step_fn() -> spec_fn(Seq<AppModel>, Vec<SqlValue>) -> Option<Seq<AppModel>> {
    |apps: Seq<AppModel>, row: Vec<SqlValue>| listener_step(apps, row)
}

/// The applications that the application rows and then the registration
/// rows make.
spec fn apps_from_rows(rows: Seq<Vec<SqlValue>>, listener_rows: Seq<Vec<SqlValue>>) -> Option<
    Seq<AppModel>,
> {
    fold_rows(fold_rows(Some(Seq::empty()), rows, app_step_fn()), listener_rows, listener_step_fn())
}

/// A refused prefix of the first rows refuses what both kinds of rows make.
proof fn lemma_fold_refused<S>(
    init: Option<S>,
    rows: Seq<Vec<SqlValue>>,
    step: spec_fn(S, Vec<SqlValue>) -> Option<S>,
    k: int,
    rows2: Seq<Vec<SqlValue>>,
    step2: spec_fn(S, Vec<SqlValue>) -> Option<S>,
)
    requires
        0 <= k <= rows.len(),
        fold_rows(init, rows.take(k), step) is None,
    ensures
        fold_rows(fold_rows(init, rows, step), rows2, step2) is None,
{
    lemma_fold_none(init, rows, step, k);
    lemma_fold_none(None, rows2, step2, 0);
}

/// The repository of a repository row, when its id and path are new to
/// `out`.
fn repo_record(out: &Vec<RepoRecord>, row: &Vec<SqlValue>) -> (r: Option<RepoRecord>)
    requires
        row.len() == 5,
    ensures
        match r {
            Some(rec) => repo_step(views(out@), *row) == Some(views(out@).push(rec@)),
            None => repo_step(views(out@), *row) is None,
        },
{
    let id = match int_value(&row[0]) {
        Some(v) => v,
        None => return None,
    };
    let path = match text_value(&row[1]) {
        Some(v) => v,
        None => return None,
    };
    let name = match opt_text_value(&row[2]) {
        Some(v) => v,
        None => return None,
    };
    let last_seen = match int_value(&row[3]) {
        Some(v) => v,
        None => return None,
    };
    let emergency_branch = match opt_text_value(&row[4]) {
        Some(v) => v,
        None => return None,
    };
    if find_repo_by_id(out, id).is_some() || find_repo_by_path(out, path.as_str()).is_some() {
        return None;
    }
    let rec = RepoRecord { id, path, name, last_seen, tags: Vec::new(), emergency_branch };
    assert(views(rec.tags@) =~= Seq::<Seq<char>>::empty());
    assert(repo_of_row(*row) == Some(rec@));
    Some(rec)
}

/// The repositories and tags in the rows read from the database, checked
/// against the schema's constraints.
fn load_repos(rows: &Vec<Vec<SqlValue>>, tag_rows: &Vec<Vec<SqlValue>>) -> (r: Option<
    Vec<RepoRecord>,
>)
    requires
        forall|i: int| 0 <= i < rows.len() ==> #[trigger] rows[i].len() == 5,
        forall|i: int| 0 <= i < tag_rows.len() ==> #[trigger] tag_rows[i].len() == 2,
    ensures
        match r {
            Some(v) => repos_from_rows(rows@, tag_rows@) == Some(views(v@)) && repos_ok(views(v@)),
            None => repos_from_rows(rows@, tag_rows@) is None,
        },
{
    let ghost init = Some(Seq::<RepoModel>::empty());
    let mut out: Vec<RepoRecord> = Vec::new();
    let mut k: usize = 0;
    assert(views(out@) =~= Seq::<RepoModel>::empty());
    while k < rows.len()
        invariant
            0 <= k <= rows.len(),
            init == Some(Seq::<RepoModel>::empty()),
            repos_ok(views(out@)),
            forall|i: int| 0 <= i < rows.len() ==> #[trigger] rows[i].len() == 5,
            fold_rows(init, rows@.take(k as int), repo_step_fn()) == Some(views(out@)),
        decreases rows.len() - k,
    {
        proof {
            lemma_fold_take(init, rows@, repo_step_fn(), k as int);
        }
        assert(rows[k as int].len() == 5);
        let rec = match repo_record(&out, &rows[k]) {
            Some(r) => r,
            None => {
                proof {
                    lemma_fold_refused(init, rows@, repo_step_fn(), k + 1, tag_rows@, tag_step_fn());
                }
                return None;
            },
        };
        proof {
            lemma_first_repo(views(out@), RepoKey::Id(rec.id));
            lemma_first_repo(views(out@), RepoKey::Path(rec.path@));
        }
        let ghost old_out = out@;
        out.push(rec);
        proof {
            lemma_views_push(old_out, rec);
            let v = views(out@);
            let w = views(old_out);
            assert forall|a: int, b: int| 0 <= a < b < v.len() implies #[trigger] v[a].id
                != #[trigger] v[b].id && v[a].path != v[b].path by {
                if b == v.len() - 1 {
                    assert(!repo_matches(w[a], RepoKey::Id(rec.id)));
                    assert(!repo_matches(w[a], RepoKey::Path(rec.path@)));
                } else {
                    assert(w[a].id != w[b].id);
                }
            }
            assert forall|a: int| 0 <= a < v.len() implies (#[trigger] v[a]).tags.no_duplicates() by {
                if a < w.len() {
                    assert(w[a].tags.no_duplicates());
                }
            }
        }
        k = k + 1;
    }
    assert(rows@.take(rows@.len() as int) =~= rows@);
    let ghost init2 = Some(views(out@));
    let mut t: usize = 0;
    while t < tag_rows.len()
        invariant
            0 <= t <= tag_rows.len(),
            init == Some(Seq::<RepoModel>::empty()),
            repos_ok(views(out@)),
            forall|i: int| 0 <= i < tag_rows.len() ==> #[trigger] tag_rows[i].len() == 2,
            init2 == fold_rows(init, rows@, repo_step_fn()),
            fold_rows(init2, tag_rows@.take(t as int), tag_step_fn()) == Some(views(out@)),
        decreases tag_rows.len() - t,
    {
        proof {
            lemma_fold_take(init2, tag_rows@, tag_step_fn(), t as int);
        }
        assert(tag_rows[t as int].len() == 2);
        let row = &tag_rows[t];
        let id = match int_value(&row[0]) {
            Some(v) => v,
            None => {
                proof {
                    lemma_fold_none(init2, tag_rows@, tag_step_fn(), t + 1);
                }
                return None;
            },
        };
        let tag = match text_value(&row[1]) {
            Some(v) => v,
            None => {
                proof {
                    lemma_fold_none(init2, tag_rows@, tag_step_fn(), t + 1);
                }
                return None;
            },
        };
        match find_repo_by_id(&out, id) {
            None => {
                proof {
                    lemma_fold_none(init2, tag_rows@, tag_step_fn(), t + 1);
                }
                return None;
            },
            Some(i) => {
                proof {
                    lemma_first_repo(views(out@), RepoKey::Id(id));
                    lemma_position(views(out@[i as int].tags@), tag@);
                    assert(views(out@)[i as int].tags == views(out@[i as int].tags@));
                }
                if find_string(&out[i].tags, tag.as_str()).is_some() {
                    proof {
                        lemma_fold_none(init2, tag_rows@, tag_step_fn(), t + 1);
                    }
                    return None;
                }
                push_tag(&mut out, i, tag);
            },
        }
        t = t + 1;
    }
    assert(tag_rows@.take(tag_rows@.len() as int) =~= tag_rows@);
    Some(out)
}

/// The settings in the rows read from the database, keys checked unique.
fn load_settings(rows: &Vec<Vec<SqlValue>>) -> (r: Option<Vec<Setting>>)
    requires
        forall|i: int| 0 <= i < rows.len() ==> #[trigger] rows[i].len() == 2,
    ensures
        match r {
            Some(v) => fold_rows(Some(Seq::empty()), rows@, setting_step_fn()) == Some(views(v@))
                && keys_ok(views(v@)),
            None => fold_rows(Some(Seq::empty()), rows@, setting_step_fn()) is None,
        },
{
    let ghost init = Some(Seq::<(Seq<char>, Seq<char>)>::empty());
    let mut out: Vec<Setting> = Vec::new();
    let mut k: usize = 0;
    assert(views(out@) =~= Seq::<(Seq<char>, Seq<char>)>::empty());
    while k < rows.len()
        invariant
            0 <= k <= rows.len(),
            init == Some(Seq::<(Seq<char>, Seq<char>)>::empty()),
            keys_ok(views(out@)),
            forall|i: int| 0 <= i < rows.len() ==> #[trigger] rows[i].len() == 2,
            fold_rows(init, rows@.take(k as int), setting_step_fn()) == Some(views(out@)),
        decreases rows.len() - k,
    {
        proof {
            lemma_fold_take(init, rows@, setting_step_fn(), k as int);
        }
        assert(rows[k as int].len() == 2);
        let key = match text_value(&rows[k][0]) {
            Some(v) => v,
            None => {
                proof {
                    lemma_fold_none(init, rows@, setting_step_fn(), k + 1);
                }
                return None;
            },
        };
        let value = match text_value(&rows[k][1]) {
            Some(v) => v,
            None => {
                proof {
                    lemma_fold_none(init, rows@, setting_step_fn(), k + 1);
                }
                return None;
            },
        };
        if find_setting(&out, key.as_str()).is_some() {
            proof {
                lemma_fold_none(init, rows@, setting_step_fn(), k + 1);
            }
            return None;
        }
        proof {
            lemma_key_position(views(out@), key@);
        }
        let ghost old_out = out@;
        let item = Setting { key, value };
        out.push(item);
        proof {
            lemma_views_push(old_out, item);
        }
        k = k + 1;
    }
    assert(rows@.take(rows@.len() as int) =~= rows@);
    Some(out)
}

/// The excluded paths in the rows read from the database, checked unique.
fn load_exclusions(rows: &Vec<Vec<SqlValue>>) -> (r: Option<Vec<String>>)
    requires
        forall|i: int| 0 <= i < rows.len() ==> #[trigger] rows[i].len() == 1,
    ensures
        match r {
            Some(v) => fold_rows(Some(Seq::empty()), rows@, exclusion_step_fn()) == Some(views(v@))
                && views(v@).no_duplicates(),
            None => fold_rows(Some(Seq::empty()), rows@, exclusion_step_fn()) is None,
        },
{
    let ghost init = Some(Seq::<Seq<char>>::empty());
    let mut out: Vec<String> = Vec::new();
    let mut k: usize = 0;
    assert(views(out@) =~= Seq::<Seq<char>>::empty());
    while k < rows.len()
        invariant
            0 <= k <= rows.len(),
            init == Some(Seq::<Seq<char>>::empty()),
            views(out@).no_duplicates(),
            forall|i: int| 0 <= i < rows.len() ==> #[trigger] rows[i].len() == 1,
            fold_rows(init, rows@.take(k as int), exclusion_step_fn()) == Some(views(out@)),
        decreases rows.len() - k,
    {
        proof {
            lemma_fold_take(init, rows@, exclusion_step_fn(), k as int);
        }
        assert(rows[k as int].len() == 1);
        let path = match text_value(&rows[k][0]) {
            Some(v) => v,
            None => {
                proof {
                    lemma_fold_none(init, rows@, exclusion_step_fn(), k + 1);
                }
                return None;
            },
        };
        proof {
            lemma_position(views(out@), path@);
        }
        if find_string(&out, path.as_str()).is_some() {
            proof {
                lemma_fold_none(init, rows@, exclusion_step_fn(), k + 1);
            }
            return None;
        }
        let ghost old_out = out@;
        out.push(path);
        proof {
            lemma_views_push(old_out, path);
            let v = views(out@);
            assert forall|x: int, y: int| 0 <= x < v.len() && 0 <= y < v.len() && x != y implies v[x]
                != v[y] by {
                if x == v.len() - 1 {
                    assert(views(old_out)[y] == v[y]);
                } else if y == v.len() - 1 {
                    assert(views(old_out)[x] == v[x]);
                }
            }
        }
        k = k + 1;
    }
    assert(rows@.take(rows@.len() as int) =~= rows@);
    Some(out)
}

/// Adds a listener to the application at index `i`, whose events do not
/// include the new one.
fn push_listener(apps: &mut Vec<AppRecord>, i: usize, l: Listener)
    requires
        i < old(apps)@.len(),
        apps_ok(views(old(apps)@)),
        key_position(views(old(apps)@)[i as int].listeners, l.event@) is None,
    ensures
        views(final(apps)@) == views(old(apps)@).update(
            i as int,
            AppModel {
                listeners: views(old(apps)@)[i as int].listeners.push(l@),
                ..views(old(apps)@)[i as int]
            },
        ),
        apps_ok(views(final(apps)@)),
{
    let ghost old_v = views(apps@);
    proof {
        lemma_key_position(old_v[i as int].listeners, l.event@);
    }
    let mut a = apps.remove(i);
    let ghost old_l = a.listeners@;
    a.listeners.push(l);
    proof {
        lemma_views_push(old_l, l);
    }
    apps.insert(i, a);
    proof {
        assert(apps@ == old(apps)@.update(i as int, a));
        lemma_views_update(old(apps)@, i as int, a);
        let v = views(apps@);
        assert forall|x: int, y: int| 0 <= x < y < v.len() implies #[trigger] v[x].id
            != #[trigger] v[y].id && v[x].name != v[y].name by {
            assert(old_v[x].id != old_v[y].id);
        }
        assert forall|x: int| 0 <= x < v.len() implies keys_ok((#[trigger] v[x]).listeners) by {
            assert(keys_ok(old_v[x].listeners));
        }
    }
}

/// The application of an application row, when its id and name are new to
/// `out`.
fn app_record(out: &Vec<AppRecord>, row: &Vec<SqlValue>) -> (r: Option<AppRecord>)
    requires
        row.len() == 3,
    ensures
        match r {
            Some(a) => app_step(views(out@), *row) == Some(views(out@).push(a@)) && (forall|j: int|
                0 <= j < out@.len() ==> (#[trigger] out@[j]).id != a.id) && app_position(
                views(out@),
                a.name@,
            ) is None,
            None => app_step(views(out@), *row) is None,
        },
{
    let id = match int_value(&row[0]) {
        Some(v) => v,
        None => return None,
    };
    let name = match text_value(&row[1]) {
        Some(v) => v,
        None => return None,
    };
    let blocked = match int_value(&row[2]) {
        Some(v) => v != 0,
        None => return None,
    };
    match find_app_by_id(out, id) {
        Some(i) => {
            assert(views(out@)[i as int].id == id);
            return None;
        },
        None => {},
    }
    if find_app(out, name.as_str()).is_some() {
        return None;
    }
    let app = AppRecord { id, name, blocked, listeners: Vec::new() };
    assert(views(app.listeners@) =~= Seq::<(Seq<char>, Seq<char>)>::empty());
    Some(app)
}

/// The applications and their registrations in the rows read from the
/// database, checked against the schema's constraints.
fn load_apps(rows: &Vec<Vec<SqlValue>>, listener_rows: &Vec<Vec<SqlValue>>) -> (r: Option<
    Vec<AppRecord>,
>)
    requires
        forall|i: int| 0 <= i < rows.len() ==> #[trigger] rows[i].len() == 3,
        forall|i: int| 0 <= i < listener_rows.len() ==> #[trigger] listener_rows[i].len() == 3,
    ensures
        match r {
            Some(v) => apps_from_rows(rows@, listener_rows@) == Some(views(v@)) && apps_ok(views(v@)),
            None => apps_from_rows(rows@, listener_rows@) is None,
        },
{
    let ghost init = Some(Seq::<AppModel>::empty());
    let mut out: Vec<AppRecord> = Vec::new();
    let mut k: usize = 0;
    assert(views(out@) =~= Seq::<AppModel>::empty());
    while k < rows.len()
        invariant
            0 <= k <= rows.len(),
            init == Some(Seq::<AppModel>::empty()),
            apps_ok(views(out@)),
            forall|i: int| 0 <= i < rows.len() ==> #[trigger] rows[i].len() == 3,
            fold_rows(init, rows@.take(k as int), app_step_fn()) == Some(views(out@)),
        decreases rows.len() - k,
    {
        proof {
            lemma_fold_take(init, rows@, app_step_fn(), k as int);
        }
        assert(rows[k as int].len() == 3);
        let app = match app_record(&out, &rows[k]) {
            Some(a) => a,
            None => {
                proof {
                    lemma_fold_refused(
                        init,
                        rows@,
                        app_step_fn(),
                        k + 1,
                        listener_rows@,
                        listener_step_fn(),
                    );
                }
                return None;
            },
        };
        proof {
            lemma_app_position(views(out@), app.name@);
        }
        let ghost old_out = out@;
        out.push(app);
        proof {
            lemma_views_push(old_out, app);
            let v = views(out@);
            let w = views(old_out);
            assert forall|x: int, y: int| 0 <= x < y < v.len() implies #[trigger] v[x].id
                != #[trigger] v[y].id && v[x].name != v[y].name by {
                if y == v.len() - 1 {
                    assert(old_out[x].id != app.id);
                    assert(w[x].name != app.name@);
                } else {
                    assert(w[x].id != w[y].id);
                }
            }
            assert forall|x: int| 0 <= x < v.len() implies keys_ok((#[trigger] v[x]).listeners) by {
                if x < w.len() {
                    assert(keys_ok(w[x].listeners));
                }
            }
        }
        k = k + 1;
    }
    assert(rows@.take(rows@.len() as int) =~= rows@);
    let ghost init2 = Some(views(out@));
    let mut t: usize = 0;
    while t < listener_rows.len()
        invariant
            0 <= t <= listener_rows.len(),
            init == Some(Seq::<AppModel>::empty()),
            apps_ok(views(out@)),
            forall|i: int| 0 <= i < listener_rows.len() ==> #[trigger] listener_rows[i].len() == 3,
            init2 == fold_rows(init, rows@, app_step_fn()),
            fold_rows(init2, listener_rows@.take(t as int), listener_step_fn()) == Some(views(out@)),
        decreases listener_rows.len() - t,
    {
        proof {
            lemma_fold_take(init2, listener_rows@, listener_step_fn(), t as int);
        }
        assert(listener_rows[t as int].len() == 3);
        let id = match int_value(&listener_rows[t][0]) {
            Some(v) => v,
            None => {
                proof {
                    lemma_fold_none(init2, listener_rows@, listener_step_fn(), t + 1);
                }
                return None;
            },
        };
        let event = match text_value(&listener_rows[t][1]) {
            Some(v) => v,
            None => {
                proof {
                    lemma_fold_none(init2, listener_rows@, listener_step_fn(), t + 1);
                }
                return None;
            },
        };
        let socket_path = match text_value(&listener_rows[t][2]) {
            Some(v) => v,
            None => {
                proof {
                    lemma_fold_none(init2, listener_rows@, listener_step_fn(), t + 1);
                }
                return None;
            },
        };
        match find_app_by_id(&out, id) {
            None => {
                proof {
                    lemma_fold_none(init2, listener_rows@, listener_step_fn(), t + 1);
                }
                return None;
            },
            Some(i) => {
                proof {
                    let apps = views(out@);
                    assert(apps[i as int].id == id);
                    let j = choose|j: int| 0 <= j < apps.len() && (#[trigger] apps[j]).id == id;
                    assert(0 <= j < apps.len() && apps[j].id == id);
                    if j < i {
                        assert(apps[j].id != apps[i as int].id);
                    } else if j > i {
                        assert(apps[i as int].id != apps[j].id);
                    }
                    assert(apps[i as int].listeners == views(out@[i as int].listeners@));
                }
                if find_listener(&out[i].listeners, event.as_str()).is_some() {
                    proof {
                        lemma_fold_none(init2, listener_rows@, listener_step_fn(), t + 1);
                    }
                    return None;
                }
                push_listener(&mut out, i, Listener { event, socket_path });
            },
        }
        t = t + 1;
    }
    assert(listener_rows@.take(listener_rows@.len() as int) =~= listener_rows@);
    Some(out)
}

// ---------------------------------------------------------------------------
// Opening
// ---------------------------------------------------------------------------

/// Whether one of the rows of `PRAGMA table_info` names the column `name`.
fn has_column(rows: &Vec<Vec<SqlValue>>, name: &str) -> (b: bool)
    requires
        forall|i: int| 0 <= i < rows.len() ==> #[trigger] rows[i].len() == 2,
    ensures
        b == exists|i: int| 0 <= i < rows.len() && text_of(#[trigger] rows[i][1]) == Some(name@),
{
    let mut k: usize = 0;
    while k < rows.len()
        invariant
            0 <= k <= rows.len(),
            forall|i: int| 0 <= i < rows.len() ==> #[trigger] rows[i].len() == 2,
            forall|i: int| 0 <= i < k ==> text_of(#[trigger] rows[i][1]) != Some(name@),
        decreases rows.len() - k,
    {
        assert(rows[k as int].len() == 2);
        if let SqlValue::Text(col) = &rows[k][1] {
            if str_eq(col.as_str(), name) {
                return true;
            }
        }
        k = k + 1;
    }
    false
}

/// Write-ahead logging and foreign keys.
pub const PRAGMA_SQL: &'static str = "PRAGMA journal_mode=WAL; PRAGMA foreign_keys = ON;";

/// The tables of the registry.
pub const SCHEMA_SQL: &'static str = "CREATE TABLE IF NOT EXISTS repos (
    id        INTEGER PRIMARY KEY AUTOINCREMENT,
    path      TEXT    NOT NULL UNIQUE,
    name      TEXT,
    last_seen INTEGER NOT NULL
);
CREATE TABLE IF NOT EXISTS settings (
    key   TEXT PRIMARY KEY,
    value TEXT NOT NULL
);
CREATE TABLE IF NOT EXISTS exclusions (
    path TEXT PRIMARY KEY
);
CREATE TABLE IF NOT EXISTS apps (
    id         INTEGER PRIMARY KEY AUTOINCREMENT,
    name       TEXT    NOT NULL UNIQUE,
    is_blocked BOOLEAN NOT NULL DEFAULT 0
);
CREATE TABLE IF NOT EXISTS integrations (
    app_id      INTEGER NOT NULL REFERENCES apps(id) ON DELETE CASCADE,
    event       TEXT    NOT NULL,
    socket_path TEXT    NOT NULL,
    PRIMARY KEY (app_id, event)
);
CREATE TABLE IF NOT EXISTS tags (
    repo_id INTEGER NOT NULL REFERENCES repos(id) ON DELETE CASCADE,
    tag     TEXT    NOT NULL,
    PRIMARY KEY (repo_id, tag)
);";

/// The name column, which databases of early versions lack.
pub const ADD_NAME_COLUMN_SQL: &'static str = "ALTER TABLE repos ADD COLUMN name TEXT;";

/// The emergency branch column, which databases of early versions lack.
pub const ADD_BRANCH_COLUMN_SQL: &'static str = "ALTER TABLE repos ADD COLUMN emergency_branch TEXT;";

/// The statements that set a database up: the pragmas, the tables, then
/// each of the two later columns that the database does not have yet.
pub open spec fn schema_setup(w: Seq<Statement>) -> bool {
    let base = seq![batch(PRAGMA_SQL@), batch(SCHEMA_SQL@)];
    ||| w == base
    ||| w == base.push(batch(ADD_NAME_COLUMN_SQL@))
    ||| w == base.push(batch(ADD_BRANCH_COLUMN_SQL@))
    ||| w == base.push(batch(ADD_NAME_COLUMN_SQL@)).push(batch(ADD_BRANCH_COLUMN_SQL@))
}

/// Sets the connection up: busy timeout, write-ahead log, foreign keys, the
/// tables, and the columns that older databases lack; returns the
/// statements it ran.
fn init_conn(conn: &rusqlite::Connection) -> (r: Result<Ghost<Seq<Statement>>, GitregError>)
    ensures
        match r {
            Ok(w) => schema_setup(w@),
            Err(e) => e is Database,
        },
{
    if let Err(e) = set_busy_timeout(conn, 5000) {
        return Err(db_error(e));
    }
    if let Err(e) = run_batch(conn, PRAGMA_SQL) {
        return Err(db_error(e));
    }
    if let Err(e) = run_batch(conn, SCHEMA_SQL) {
        return Err(db_error(e));
    }
    let ghost mut w = seq![batch(PRAGMA_SQL@), batch(SCHEMA_SQL@)];
    let ghost base = w;
    // Databases created by earlier versions lack these columns.
    let cols = match run_query(conn, "PRAGMA table_info(repos)", &[], 2) {
        Ok(c) => c,
        Err(e) => return Err(db_error(e)),
    };
    if !has_column(&cols, "name") {
        if let Err(e) = run_batch(conn, ADD_NAME_COLUMN_SQL) {
            return Err(db_error(e));
        }
        proof {
            w = w.push(batch(ADD_NAME_COLUMN_SQL@));
        }
    }
    let cols = match run_query(conn, "PRAGMA table_info(repos)", &[], 2) {
        Ok(c) => c,
        Err(e) => return Err(db_error(e)),
    };
    if !has_column(&cols, "emergency_branch") {
        if let Err(e) = run_batch(conn, ADD_BRANCH_COLUMN_SQL) {
            return Err(db_error(e));
        }
        proof {
            w = w.push(batch(ADD_BRANCH_COLUMN_SQL@));
        }
    }
    Ok(Ghost(w))
}

/// Reads the registry's contents from the database.
fn load(conn: rusqlite::Connection, written: Ghost<Seq<Statement>>) -> (r: Result<
    Database,
    GitregError,
>)
    ensures
        r matches Ok(db) ==> well_formed(db@) && db.writes() == written@,
        r matches Err(e) ==> e is Database || inconsistency(e),
{
    let repo_rows = match run_query(
        &conn,
        "SELECT id, path, name, last_seen, emergency_branch FROM repos ORDER BY id",
        &[],
        5,
    ) {
        Ok(r) => r,
        Err(e) => return Err(db_error(e)),
    };
    let tag_rows = match run_query(&conn, "SELECT repo_id, tag FROM tags ORDER BY rowid", &[], 2) {
        Ok(r) => r,
        Err(e) => return Err(db_error(e)),
    };
    let setting_rows = match run_query(&conn, "SELECT key, value FROM settings", &[], 2) {
        Ok(r) => r,
        Err(e) => return Err(db_error(e)),
    };
    let exclusion_rows = match run_query(&conn, "SELECT path FROM exclusions", &[], 1) {
        Ok(r) => r,
        Err(e) => return Err(db_error(e)),
    };
    let app_rows = match run_query(
        &conn,
        "SELECT id, name, is_blocked FROM apps ORDER BY id",
        &[],
        3,
    ) {
        Ok(r) => r,
        Err(e) => return Err(db_error(e)),
    };
    let listener_rows = match run_query(
        &conn,
        "SELECT app_id, event, socket_path FROM integrations ORDER BY rowid",
        &[],
        3,
    ) {
        Ok(r) => r,
        Err(e) => return Err(db_error(e)),
    };
    let repos = match load_repos(&repo_rows, &tag_rows) {
        Some(v) => v,
        None => return Err(inconsistent()),
    };
    let settings = match load_settings(&setting_rows) {
        Some(v) => v,
        None => return Err(inconsistent()),
    };
    let exclusions = match load_exclusions(&exclusion_rows) {
        Some(v) => v,
        None => return Err(inconsistent()),
    };
    let apps = match load_apps(&app_rows, &listener_rows) {
        Some(v) => v,
        None => return Err(inconsistent()),
    };
    let sep = main_separator();
    Ok(Database { conn, sep, repos, settings, exclusions, apps, written })
}

impl Database {
    /// Opens the registry database at `path`, creating the file and its
    /// tables when needed.  The parent directory must exist.
    pub fn open(path: &str) -> (r: Result<Database, GitregError>)
        ensures
            r matches Ok(db) ==> well_formed(db@) && schema_setup(db.writes()),
            r matches Err(e) ==> e is Database || inconsistency(e),
    {
        let conn = match open_connection(path) {
            Ok(c) => c,
            Err(e) => return Err(db_error(e)),
        };
        let written = match init_conn(&conn) {
            Ok(w) => w,
            Err(e) => return Err(e),
        };
        load(conn, written)
    }

    /// A new, empty registry held in memory.
    pub fn open_in_memory() -> (r: Result<Database, GitregError>)
        ensures
            r matches Ok(db) ==> well_formed(db@) && db@.repos.len() == 0 && db@.settings.len() == 0
                && db@.exclusions.len() == 0 && db@.apps.len() == 0 && schema_setup(db.writes()),
            r matches Err(e) ==> e is Database,
    {
        let conn = match open_memory_connection() {
            Ok(c) => c,
            Err(e) => return Err(db_error(e)),
        };
        let written = match init_conn(&conn) {
            Ok(w) => w,
            Err(e) => return Err(e),
        };
        // A database made in memory a moment ago holds nothing yet.
        let sep = main_separator();
        let db = Database {
            conn,
            sep,
            repos: Vec::new(),
            settings: Vec::new(),
            exclusions: Vec::new(),
            apps: Vec::new(),
            written,
        };
        assert(db@.repos.len() == 0);
        Ok(db)
    }
}

// ---------------------------------------------------------------------------
// Repositories: model
// ---------------------------------------------------------------------------

pub open spec fn with_repos(m: DbModel, repos: Seq<RepoModel>) -> DbModel {
    DbModel { sep: m.sep, repos, settings: m.settings, exclusions: m.exclusions, apps: m.apps }
}

/// A name given on registration replaces the stored one; none keeps it.
pub open spec fn coalesce(new_name: Option<Seq<char>>, old_name: Option<Seq<char>>) -> Option<
    Seq<char>,
> {
    if new_name is Some {
        new_name
    } else {
        old_name
    }
}

pub open spec fn new_repo(id: i64, path: Seq<char>, name: Option<Seq<char>>, ts: i64) -> RepoModel {
    RepoModel { id, path, name, last_seen: ts, tags: Seq::empty(), emergency_branch: None }
}

/// The registry after registering `path` at time `ts`: an existing entry
/// gets the new time (and the name, when one is given); a new path becomes a
/// new entry with id `id`.
pub open spec fn upserted(
    m: DbModel,
    path: Seq<char>,
    name: Option<Seq<char>>,
    id: i64,
    ts: i64,
) -> DbModel {
    match first_repo(m.repos, RepoKey::Path(path)) {
        Some(i) => with_repos(
            m,
            m.repos.update(
                i,
                RepoModel { last_seen: ts, name: coalesce(name, m.repos[i].name), ..m.repos[i] },
            ),
        ),
        None => with_repos(m, m.repos.push(new_repo(id, path, name, ts))),
    }
}

/// An id that a target resolves to belongs to a repository.
pub proof fn lemma_resolve_exists(m: DbModel, target: Seq<char>)
    ensures
        resolve_target_spec(m, target) matches Some(id) ==> first_repo(m.repos, RepoKey::Id(id)) is Some,
{
    match parse_i64(target) {
        Some(id) => {},
        None => {
            lemma_first_repo(m.repos, RepoKey::PathOrName(target));
            match first_repo(m.repos, RepoKey::PathOrName(target)) {
                Some(i) => {
                    lemma_first_repo(m.repos, RepoKey::Id(m.repos[i].id));
                },
                None => {},
            }
        },
    }
}

/// The id that `target` stands for: an integer is an id, which must exist;
/// anything else is matched against paths and names.
pub open spec fn resolve_target_spec(m: DbModel, target: Seq<char>) -> Option<i64> {
    match parse_i64(target) {
        Some(id) => if first_repo(m.repos, RepoKey::Id(id)) is Some {
            Some(id)
        } else {
            None
        },
        None => match first_repo(m.repos, RepoKey::PathOrName(target)) {
            Some(i) => Some(m.repos[i].id),
            None => None,
        },
    }
}

/// Tags as a listing reports them: the stored tags joined by commas and split
/// again at every comma.
pub open spec fn split_tags(tags: Seq<Seq<char>>) -> Seq<Seq<char>>
    decreases tags.len(),
{
    if tags.len() == 0 {
        Seq::empty()
    } else {
        split_tags(tags.drop_last()) + split(tags.last(), ',')
    }
}

/// A repository as a listing reports it.
pub open spec fn listed(r: RepoModel) -> RepoModel {
    RepoModel { tags: split_tags(r.tags), ..r }
}

pub open spec fn listed_all(repos: Seq<RepoModel>) -> Seq<RepoModel> {
    Seq::new(repos.len(), |i: int| listed(repos[i]))
}

/// The order of a listing: named repositories first, by name, then unnamed
/// ones; newest (highest id) first among equal names.
pub open spec fn list_before(a: RepoModel, b: RepoModel) -> bool {
    match (a.name, b.name) {
        (Some(x), Some(y)) => lex_lt(x, y) || (x == y && a.id > b.id),
        (Some(_), None) => true,
        (None, Some(_)) => false,
        (None, None) => a.id > b.id,
    }
}

impl Ranked for RepoRecord {
    open spec fn ranks_before(a: RepoModel, b: RepoModel) -> bool {
        list_before(a, b)
    }

    fn before(&self, other: &Self) -> (r: bool) {
        match (&self.name, &other.name) {
            (Some(x), Some(y)) => match compare_strs(x.as_str(), y.as_str()) {
                Order::Less => true,
                Order::Equal => self.id > other.id,
                Order::Greater => false,
            },
            (Some(_), None) => true,
            (None, Some(_)) => false,
            (None, None) => self.id > other.id,
        }
    }

    proof fn lemma_strict_order(a: RepoModel, b: RepoModel, c: RepoModel) {
        if let (Some(x), Some(y)) = (a.name, b.name) {
            lemma_lex_asymmetric(x, y);
            lemma_lex_irreflexive(x);
            if let Some(z) = c.name {
                if lex_lt(x, y) && lex_lt(y, z) {
                    lemma_lex_transitive(x, y, z);
                }
            }
        }
    }
}

// ---------------------------------------------------------------------------
// Repositories: well-formedness lemmas
// ---------------------------------------------------------------------------

pub proof fn lemma_repos_ok_update(repos: Seq<RepoModel>, i: int, r: RepoModel)
    requires
        repos_ok(repos),
        0 <= i < repos.len(),
        r.id == repos[i].id,
        r.path == repos[i].path,
        r.tags.no_duplicates(),
    ensures
        repos_ok(repos.update(i, r)),
{
    let v = repos.update(i, r);
    assert forall|a: int, b: int| 0 <= a < b < v.len() implies #[trigger] v[a].id
        != #[trigger] v[b].id && v[a].path != v[b].path by {
        assert(repos[a].id != repos[b].id);
    }
    assert forall|a: int| 0 <= a < v.len() implies (#[trigger] v[a]).tags.no_duplicates() by {
        if a != i {
            assert(repos[a].tags.no_duplicates());
        }
    }
}

pub proof fn lemma_repos_ok_remove(repos: Seq<RepoModel>, i: int)
    requires
        repos_ok(repos),
        0 <= i < repos.len(),
    ensures
        repos_ok(repos.remove(i)),
{
    let v = repos.remove(i);
    assert forall|a: int, b: int| 0 <= a < b < v.len() implies #[trigger] v[a].id
        != #[trigger] v[b].id && v[a].path != v[b].path by {
        let a2 = if a < i { a } else { a + 1 };
        let b2 = if b < i { b } else { b + 1 };
        assert(v[a] == repos[a2] && v[b] == repos[b2]);
        assert(repos[a2].id != repos[b2].id);
    }
    assert forall|a: int| 0 <= a < v.len() implies (#[trigger] v[a]).tags.no_duplicates() by {
        let a2 = if a < i { a } else { a + 1 };
        assert(v[a] == repos[a2]);
        assert(repos[a2].tags.no_duplicates());
    }
}

pub proof fn lemma_repos_ok_push(repos: Seq<RepoModel>, r: RepoModel)
    requires
        repos_ok(repos),
        first_repo(repos, RepoKey::Id(r.id)) is None,
        first_repo(repos, RepoKey::Path(r.path)) is None,
        r.tags.no_duplicates(),
    ensures
        repos_ok(repos.push(r)),
{
    lemma_first_repo(repos, RepoKey::Id(r.id));
    lemma_first_repo(repos, RepoKey::Path(r.path));
    let v = repos.push(r);
    assert forall|a: int, b: int| 0 <= a < b < v.len() implies #[trigger] v[a].id
        != #[trigger] v[b].id && v[a].path != v[b].path by {
        if b == repos.len() {
            assert(!repo_matches(repos[a], RepoKey::Id(r.id)));
            assert(!repo_matches(repos[a], RepoKey::Path(r.path)));
        } else {
            assert(repos[a].id != repos[b].id);
        }
    }
    assert forall|a: int| 0 <= a < v.len() implies (#[trigger] v[a]).tags.no_duplicates() by {
        if a < repos.len() {
            assert(repos[a].tags.no_duplicates());
        }
    }
}

// ---------------------------------------------------------------------------
// Repositories: copies for listings
// ---------------------------------------------------------------------------

fn split_tags_exec(tags: &Vec<String>) -> (r: Vec<String>)
    ensures
        views(r@) == split_tags(views(tags@)),
{
    let ghost t = views(tags@);
    let mut out: Vec<String> = Vec::new();
    let mut k: usize = 0;
    assert(views(out@) =~= split_tags(t.take(0)));
    while k < tags.len()
        invariant
            0 <= k <= tags@.len(),
            t == views(tags@),
            views(out@) == split_tags(t.take(k as int)),
        decreases tags.len() - k,
    {
        let cs = chars_of(tags[k].as_str());
        let pieces = split_exec(cs.as_slice(), ',');
        let ghost before = views(out@);
        let mut j: usize = 0;
        assert(views(out@) == before + views(pieces@).take(0));
        while j < pieces.len()
            invariant
                0 <= j <= pieces@.len(),
                views(out@) == before + views(pieces@).take(j as int),
            decreases pieces.len() - j,
        {
            let piece = string_of(pieces[j].as_slice());
            let ghost old_out = out@;
            out.push(piece);
            proof {
                lemma_views_push(old_out, piece);
                assert(views(pieces@).take(j + 1) == views(pieces@).take(j as int).push(
                    pieces@[j as int]@,
                ));
            }
            j = j + 1;
        }
        proof {
            assert(views(pieces@).take(pieces@.len() as int) == views(pieces@));
            assert(t.take(k + 1).drop_last() == t.take(k as int));
            assert(t.take(k + 1).last() == tags@[k as int]@);
        }
        k = k + 1;
    }
    assert(t.take(tags@.len() as int) == t);
    out
}

/// A copy of `r` with its tags as a listing reports them.
fn listed_copy(r: &RepoRecord) -> (c: RepoRecord)
    ensures
        c@ == listed(r@),
{
    RepoRecord {
        id: r.id,
        path: r.path.clone(),
        name: copy_opt(&r.name),
        last_seen: r.last_seen,
        tags: split_tags_exec(&r.tags),
        emergency_branch: copy_opt(&r.emergency_branch),
    }
}

/// Copies of `repos` with their tags as a listing reports them.
fn listed_copies(repos: &Vec<RepoRecord>) -> (r: Vec<RepoRecord>)
    ensures
        views(r@) == listed_all(views(repos@)),
{
    let mut out: Vec<RepoRecord> = Vec::new();
    let mut i: usize = 0;
    while i < repos.len()
        invariant
            0 <= i <= repos@.len(),
            views(out@) == listed_all(views(repos@).take(i as int)),
        decreases repos.len() - i,
    {
        let c = listed_copy(&repos[i]);
        let ghost old_out = out@;
        out.push(c);
        proof {
            lemma_views_push(old_out, c);
            assert(views(out@) =~= listed_all(views(repos@).take(i + 1)));
        }
        i = i + 1;
    }
    assert(views(repos@).take(repos@.len() as int) == views(repos@));
    out
}

/// Removes a repository (its tags go with it).
pub const DELETE_REPO_BY_PATH_SQL: &'static str = "DELETE FROM repos WHERE path = ?1";

/// Removes a repository by id (its tags go with it).
pub const DELETE_REPO_BY_ID_SQL: &'static str = "DELETE FROM repos WHERE id = ?1";

/// Records the emergency branch of a repository.
pub const SET_EMERGENCY_SQL: &'static str = "UPDATE repos SET emergency_branch = ?1 WHERE id = ?2";

/// Forgets every emergency branch.
pub const CLEAR_EMERGENCY_SQL: &'static str = "UPDATE repos SET emergency_branch = NULL";

/// Adds a tag to a repository.
pub const ADD_TAG_SQL: &'static str = "INSERT OR IGNORE INTO tags (repo_id, tag) VALUES (?1, ?2)";

/// Removes a tag from a repository.
pub const REMOVE_TAG_SQL: &'static str = "DELETE FROM tags WHERE repo_id = ?1 AND tag = ?2";

/// Sets a setting.
pub const SET_SETTING_SQL: &'static str = "INSERT INTO settings (key, value) VALUES (?1, ?2)
             ON CONFLICT(key) DO UPDATE SET value = excluded.value";

/// Adds an exclusion.
pub const ADD_EXCLUSION_SQL: &'static str = "INSERT OR IGNORE INTO exclusions (path) VALUES (?1)";

/// Removes an exclusion.
pub const REMOVE_EXCLUSION_SQL: &'static str = "DELETE FROM exclusions WHERE path = ?1";

/// Creates an application unless there is one of that name.
pub const CREATE_APP_SQL: &'static str = "INSERT OR IGNORE INTO apps (name) VALUES (?1)";

/// Blocks an application.
pub const BLOCK_APP_SQL: &'static str = "UPDATE apps SET is_blocked = 1 WHERE name = ?1";

/// Unblocks an application.
pub const UNBLOCK_APP_SQL: &'static str = "UPDATE apps SET is_blocked = 0 WHERE name = ?1";

/// Removes an application (its registrations go with it).
pub const REMOVE_APP_SQL: &'static str = "DELETE FROM apps WHERE name = ?1";

/// Registers an application for an event, replacing an earlier socket.
pub const REGISTER_SQL: &'static str = "INSERT INTO integrations (app_id, event, socket_path) VALUES (?1, ?2, ?3)
             ON CONFLICT(app_id, event) DO UPDATE SET socket_path = excluded.socket_path";

/// Removes an application's registration for an event.
pub const UNREGISTER_SQL: &'static str = "DELETE FROM integrations WHERE app_id = ?1 AND event = ?2";

/// `after` is what removing by `c` leaves of `before` (with the statements
/// `before_w` already handed to SQLite) when it stops at repository `n`,
/// whose deletion SQLite refused: the repositories before `n` are filtered,
/// and a deletion was handed over for each removed one and for `n`.
pub open spec fn removal_stopped_at(
    before: Seq<RepoModel>,
    before_w: Seq<Statement>,
    after: Seq<RepoModel>,
    after_w: Seq<Statement>,
    c: Removal,
    n: int,
) -> bool {
    &&& 0 <= n < before.len()
    &&& removes(c, before[n])
    &&& after == kept(before.take(n), c) + before.skip(n)
    &&& after_w == before_w + delete_path_statements(dropped_paths(before.take(n), c)).push(
        delete_path_statement(before[n].path),
    )
}

pub open spec fn removal_stopped(
    before: Seq<RepoModel>,
    before_w: Seq<Statement>,
    after: Seq<RepoModel>,
    after_w: Seq<Statement>,
    c: Removal,
) -> bool {
    exists|n: int| removal_stopped_at(before, before_w, after, after_w, c, n)
}

pub open spec fn delete_path_statement(path: Seq<char>) -> Statement {
    (DELETE_REPO_BY_PATH_SQL@, seq![ArgValue::Text(path)])
}

/// One deletion per path, in order.
pub open spec fn delete_path_statements(paths: Seq<Seq<char>>) -> Seq<Statement> {
    paths.map_values(|p: Seq<char>| delete_path_statement(p))
}

pub open spec fn delete_id_statement(id: i64) -> Statement {
    (DELETE_REPO_BY_ID_SQL@, seq![ArgValue::Integer(id)])
}

pub open spec fn emergency_statement(id: i64, branch: Seq<char>) -> Statement {
    (SET_EMERGENCY_SQL@, seq![ArgValue::Text(branch), ArgValue::Integer(id)])
}

pub open spec fn add_tag_statement(id: i64, tag: Seq<char>) -> Statement {
    (ADD_TAG_SQL@, seq![ArgValue::Integer(id), ArgValue::Text(tag)])
}

pub open spec fn remove_tag_statement(id: i64, tag: Seq<char>) -> Statement {
    (REMOVE_TAG_SQL@, seq![ArgValue::Integer(id), ArgValue::Text(tag)])
}

pub open spec fn setting_statement(key: Seq<char>, value: Seq<char>) -> Statement {
    (SET_SETTING_SQL@, seq![ArgValue::Text(key), ArgValue::Text(value)])
}

pub open spec fn add_exclusion_statement(path: Seq<char>) -> Statement {
    (ADD_EXCLUSION_SQL@, seq![ArgValue::Text(path)])
}

pub open spec fn remove_exclusion_statement(path: Seq<char>) -> Statement {
    (REMOVE_EXCLUSION_SQL@, seq![ArgValue::Text(path)])
}

pub open spec fn create_app_statement(name: Seq<char>) -> Statement {
    (CREATE_APP_SQL@, seq![ArgValue::Text(name)])
}

pub open spec fn block_statement(name: Seq<char>, blocked: bool) -> Statement {
    (if blocked {
        BLOCK_APP_SQL@
    } else {
        UNBLOCK_APP_SQL@
    }, seq![ArgValue::Text(name)])
}

pub open spec fn remove_app_statement(name: Seq<char>) -> Statement {
    (REMOVE_APP_SQL@, seq![ArgValue::Text(name)])
}

pub open spec fn register_statement(app_id: i64, event: Seq<char>, socket: Seq<char>) -> Statement {
    (REGISTER_SQL@, seq![ArgValue::Integer(app_id), ArgValue::Text(event), ArgValue::Text(socket)])
}

pub open spec fn unregister_statement(app_id: i64, event: Seq<char>) -> Statement {
    (UNREGISTER_SQL@, seq![ArgValue::Integer(app_id), ArgValue::Text(event)])
}

/// Registers a path: a new row, or the new time (and the name, when one is
/// given) on the existing row.
pub const UPSERT_SQL: &'static str = "INSERT INTO repos (path, name, last_seen) VALUES (?1, ?2, ?3)
             ON CONFLICT(path) DO UPDATE SET last_seen = excluded.last_seen,
                                             name = COALESCE(excluded.name, name)";

/// The statement that registers `path` with `name` at time `ts`.
pub open spec fn upsert_statement(path: Seq<char>, name: Option<Seq<char>>, ts: i64) -> Statement {
    (UPSERT_SQL@, seq![ArgValue::Text(path), opt_text_arg(name), ArgValue::Integer(ts)])
}

/// The id in the one row of one column that a lookup of a new row gives;
/// any other answer means the database is inconsistent.
fn id_from_rows(rows: &Vec<Vec<SqlValue>>) -> (r: Result<i64, GitregError>)
    requires
        forall|i: int| 0 <= i < rows.len() ==> #[trigger] rows[i].len() == 1,
    ensures
        match r {
            Ok(id) => rows.len() == 1 && int_of(rows[0][0]) == Some(id),
            Err(e) => inconsistency(e) && !(rows.len() == 1 && int_of(rows[0][0]) is Some),
        },
{
    if rows.len() != 1 {
        return Err(inconsistent());
    }
    assert(rows[0].len() == 1);
    match int_value(&rows[0][0]) {
        Some(v) => Ok(v),
        None => Err(inconsistent()),
    }
}

// ---------------------------------------------------------------------------
// Repositories: operations
// ---------------------------------------------------------------------------

impl Database {
    /// Registers `path` (with an optional `owner/repo` name) as seen at time
    /// `ts`; returns whether the path was new.
    pub fn upsert_at(&mut self, path: &str, name: Option<&str>, ts: i64) -> (res: Result<
        bool,
        GitregError,
    >)
        requires
            well_formed(old(self)@),
        ensures
            well_formed(final(self)@),
            final(self).writes() == old(self).writes().push(
                upsert_statement(path@, opt_str_view(name), ts),
            ),
            match res {
                Ok(added) => added == (first_repo(old(self)@.repos, RepoKey::Path(path@)) is None)
                    && exists|id: i64|
                    (added ==> first_repo(old(self)@.repos, RepoKey::Id(id)) is None) && final(self)@
                        == upserted(old(self)@, path@, opt_str_view(name), id, ts),
                Err(e) => (e is Database || inconsistency(e)) && final(self)@ == old(self)@,
            },
    {
        let name_arg = match name {
            Some(n) => text_arg(n),
            None => SqlArg::Null,
        };
        let args = vec![text_arg(path), name_arg, SqlArg::Integer(ts)];
        assert(views(args@) =~= upsert_statement(path@, opt_str_view(name), ts).1);
        if let Err(e) = self.write(UPSERT_SQL, args) {
            return Err(db_error(e));
        }
        let ghost old_m = self@;
        match find_repo_by_path(&self.repos, path) {
            Some(i) => {
                proof {
                    lemma_first_repo(old_m.repos, RepoKey::Path(path@));
                }
                let mut r = self.repos.remove(i);
                r.last_seen = ts;
                match name {
                    Some(n) => {
                        r.name = Some(n.to_owned());
                    },
                    None => {},
                }
                self.repos.insert(i, r);
                proof {
                    assert(self.repos@ =~= old(self).repos@.update(i as int, r));
                    lemma_views_update(old(self).repos@, i as int, r);
                    lemma_repos_ok_update(old_m.repos, i as int, r@);
                    assert(self@ == upserted(old_m, path@, opt_str_view(name), 0, ts));
                }
                Ok(false)
            },
            None => {
                let rows = match run_query(
                    &self.conn,
                    "SELECT id FROM repos WHERE path = ?1",
                    vec![text_arg(path)].as_slice(),
                    1,
                ) {
                    Ok(r) => r,
                    Err(e) => return Err(db_error(e)),
                };
                let id = match id_from_rows(&rows) {
                    Ok(v) => v,
                    Err(e) => return Err(e),
                };
                if find_repo_by_id(&self.repos, id).is_some() {
                    return Err(inconsistent());
                }
                let r = RepoRecord {
                    id,
                    path: path.to_owned(),
                    name: owned_opt(name),
                    last_seen: ts,
                    tags: Vec::new(),
                    emergency_branch: None,
                };
                let ghost old_repos = self.repos@;
                self.repos.push(r);
                proof {
                    lemma_views_push(old_repos, r);
                    assert(views(r.tags@) =~= Seq::<Seq<char>>::empty());
                    assert(r@ == new_repo(id, path@, opt_str_view(name), ts));
                    lemma_repos_ok_push(old_m.repos, r@);
                    assert(self@ == upserted(old_m, path@, opt_str_view(name), id, ts));
                }
                Ok(true)
            },
        }
    }


    /// Registers `path` (with an optional `owner/repo` name) at the current
    /// time; returns whether the path was new.
    pub fn upsert(&mut self, path: &str, name: Option<&str>) -> (res: Result<bool, GitregError>)
        requires
            well_formed(old(self)@),
        ensures
            well_formed(final(self)@),
            exists|ts: i64|
                ts >= 0 && final(self).writes() == old(self).writes().push(
                    upsert_statement(path@, opt_str_view(name), ts),
                ) && match res {
                    Ok(added) => added == (first_repo(old(self)@.repos, RepoKey::Path(path@)) is None)
                        && exists|id: i64|
                        (added ==> first_repo(old(self)@.repos, RepoKey::Id(id)) is None)
                            && final(self)@ == upserted(old(self)@, path@, opt_str_view(name), id, ts),
                    Err(e) => (e is Database || inconsistency(e)) && final(self)@ == old(self)@,
                },
    {
        let ts = now_millis();
        self.upsert_at(path, name, ts)
    }

    /// All repositories, tags split at commas, in listing order.
    pub fn list(&self) -> (res: Result<Vec<RepoRecord>, GitregError>)
        requires
            well_formed(self@),
        ensures
            res matches Ok(v) && sorted_by_rank::<RepoRecord>(views(v@)) && views(v@).to_multiset()
                == listed_all(self@.repos).to_multiset(),
    {
        let copies = listed_copies(&self.repos);
        Ok(sort_ranked(copies))
    }

    /// The id of the repository that `target` names: an integer is taken as
    /// an id, anything else as a path or an `owner/repo` name.
    pub fn resolve_target(&self, target: &str) -> (res: Result<Option<i64>, GitregError>)
        requires
            well_formed(self@),
        ensures
            res matches Ok(r) && r == resolve_target_spec(self@, target@),
    {
        let cs = chars_of(target);
        match parse_i64_exec(cs.as_slice()) {
            Some(id) => match find_repo_by_id(&self.repos, id) {
                Some(_) => Ok(Some(id)),
                None => Ok(None),
            },
            None => match find_repo_by_path_or_name(&self.repos, target) {
                Some(i) => {
                    proof {
                        lemma_first_repo(self@.repos, RepoKey::PathOrName(target@));
                    }
                    Ok(Some(self.repos[i].id))
                },
                None => Ok(None),
            },
        }
    }
}

// ---------------------------------------------------------------------------
// Exclusions: model
// ---------------------------------------------------------------------------

/// The prefix that paths under `excl` start with: `excl` ending in `sep`.
pub open spec fn exclusion_prefix(excl: Seq<char>, sep: char) -> Seq<char> {
    if ends_with(excl, seq![sep]) {
        excl
    } else {
        excl.push(sep)
    }
}

/// `path` is `excl` itself or lies under it.
pub open spec fn under(path: Seq<char>, excl: Seq<char>, sep: char) -> bool {
    path == excl || starts_with(path, exclusion_prefix(excl, sep))
}

/// `path` is one of `exclusions` or lies under one.
pub open spec fn excluded_by(path: Seq<char>, exclusions: Seq<Seq<char>>, sep: char) -> bool {
    exists|i: int| 0 <= i < exclusions.len() && under(path, #[trigger] exclusions[i], sep)
}

fn under_exec(path: &[char], excl: &[char], sep: char) -> (b: bool)
    ensures
        b == under(path@, excl@, sep),
{
    if compare_chars_eq(path, excl) {
        return true;
    }
    let mut prefix: Vec<char> = slice_copy(excl);
    let sep_v: Vec<char> = vec![sep];
    assert(sep_v@ == seq![sep]);
    if !crate::text::ends_with_exec(excl, sep_v.as_slice()) {
        prefix.push(sep);
    }
    crate::text::starts_with_exec(path, prefix.as_slice())
}

fn compare_chars_eq(a: &[char], b: &[char]) -> (r: bool)
    ensures
        r == (a@ == b@),
{
    crate::text::compare_chars(a, b) == Order::Equal
}

fn slice_copy(s: &[char]) -> (r: Vec<char>)
    ensures
        r@ == s@,
{
    let r = crate::text::slice_to_vec(s, 0, s.len());
    assert(s@.subrange(0, s@.len() as int) == s@);
    r
}

fn excluded_exec(path: &str, exclusions: &[String], sep: char) -> (b: bool)
    ensures
        b == excluded_by(path@, views(exclusions@), sep),
{
    let pc = chars_of(path);
    let mut i: usize = 0;
    while i < exclusions.len()
        invariant
            0 <= i <= exclusions@.len(),
            pc@ == path@,
            forall|j: int| 0 <= j < i ==> !under(path@, #[trigger] views(exclusions@)[j], sep),
        decreases exclusions.len() - i,
    {
        let ec = chars_of(exclusions[i].as_str());
        if under_exec(pc.as_slice(), ec.as_slice(), sep) {
            assert(under(path@, views(exclusions@)[i as int], sep));
            return true;
        }
        i = i + 1;
    }
    false
}

// ---------------------------------------------------------------------------
// Repositories: removal in bulk
// ---------------------------------------------------------------------------

/// Which repositories a bulk removal takes out.
pub enum Removal {
    /// Those whose path is missing from the file system or excluded.
    Prune { missing: Seq<Seq<char>>, exclusions: Seq<Seq<char>>, sep: char },
    /// Those at or under an excluded path.
    Under { exclusion: Seq<char>, sep: char },
}

pub open spec fn removes(c: Removal, r: RepoModel) -> bool {
    match c {
        Removal::Prune { missing, exclusions, sep } => missing.contains(r.path) || excluded_by(
            r.path,
            exclusions,
            sep,
        ),
        Removal::Under { exclusion, sep } => under(r.path, exclusion, sep),
    }
}

/// The repositories that a removal keeps, in order.
pub open spec fn kept(repos: Seq<RepoModel>, c: Removal) -> Seq<RepoModel>
    decreases repos.len(),
{
    if repos.len() == 0 {
        Seq::empty()
    } else if removes(c, repos.last()) {
        kept(repos.drop_last(), c)
    } else {
        kept(repos.drop_last(), c).push(repos.last())
    }
}

/// The paths of the repositories that a removal takes out, in order.
pub open spec fn dropped_paths(repos: Seq<RepoModel>, c: Removal) -> Seq<Seq<char>>
    decreases repos.len(),
{
    if repos.len() == 0 {
        Seq::empty()
    } else if removes(c, repos.last()) {
        dropped_paths(repos.drop_last(), c).push(repos.last().path)
    } else {
        dropped_paths(repos.drop_last(), c)
    }
}

/// Every kept repository is one of those before, and not one that the
/// removal takes out.
pub proof fn lemma_kept_subset(repos: Seq<RepoModel>, c: Removal)
    ensures
        forall|i: int|
            0 <= i < kept(repos, c).len() ==> repos.contains(#[trigger] kept(repos, c)[i])
                && !removes(c, kept(repos, c)[i]),
    decreases repos.len(),
{
    if repos.len() > 0 {
        let d = repos.drop_last();
        lemma_kept_subset(d, c);
        let k = kept(repos, c);
        let k0 = kept(d, c);
        assert forall|i: int| 0 <= i < k.len() implies repos.contains(#[trigger] k[i]) && !removes(
            c,
            k[i],
        ) by {
            if i < k0.len() {
                assert(k[i] == k0[i]);
                assert(d.contains(k0[i]));
                let m = choose|m: int| 0 <= m < d.len() && d[m] == k0[i];
                assert(repos[m] == k[i]);
            } else {
                assert(k[i] == repos[repos.len() - 1]);
            }
        }
    }
}

/// A partly done removal leaves well-formed repositories: the kept ones of a
/// prefix followed by the rest.
pub proof fn lemma_kept_prefix_ok(repos: Seq<RepoModel>, c: Removal, n: int)
    requires
        repos_ok(repos),
        0 <= n <= repos.len(),
    ensures
        repos_ok(kept(repos.take(n), c) + repos.skip(n)),
    decreases n,
{
    if n == 0 {
        assert(kept(repos.take(0), c) =~= Seq::<RepoModel>::empty());
        assert(kept(repos.take(0), c) + repos.skip(0) =~= repos);
    } else {
        lemma_kept_prefix_ok(repos, c, n - 1);
        let prev = kept(repos.take(n - 1), c) + repos.skip(n - 1);
        assert(repos.take(n).drop_last() == repos.take(n - 1));
        assert(repos.take(n).last() == repos[n - 1]);
        let kp = kept(repos.take(n - 1), c);
        if removes(c, repos[n - 1]) {
            assert(kept(repos.take(n), c) + repos.skip(n) =~= prev.remove(kp.len() as int));
            lemma_repos_ok_remove(prev, kp.len() as int);
        } else {
            assert(kept(repos.take(n), c) + repos.skip(n) =~= prev);
        }
    }
}

pub proof fn lemma_views_append<T: View>(a: Seq<T>, b: Seq<T>)
    ensures
        views(a + b) == views(a) + views(b),
{
    assert(views(a + b) =~= views(a) + views(b));
}

impl Database {
    /// Takes out the repositories that `c` removes; the criterion is the
    /// executable form of `spec_c`.
    fn remove_repos(&mut self, missing: &Vec<String>, under_path: Option<&str>, Ghost(spec_c): Ghost<
        Removal,
    >) -> (res: Result<Vec<String>, GitregError>)
        requires
            well_formed(old(self)@),
            match spec_c {
                Removal::Prune { missing: ms, exclusions, sep } => under_path is None && ms
                    == views(missing@) && exclusions == old(self)@.exclusions && sep == old(
                    self,
                )@.sep,
                Removal::Under { exclusion, sep } => under_path matches Some(e) && exclusion == e@
                    && sep == old(self)@.sep,
            },
        ensures
            well_formed(final(self)@),
            final(self)@.sep == old(self)@.sep,
            final(self)@.settings == old(self)@.settings,
            final(self)@.exclusions == old(self)@.exclusions,
            final(self)@.apps == old(self)@.apps,
            match res {
                Ok(removed) => final(self)@.repos == kept(old(self)@.repos, spec_c) && views(
                    removed@,
                ) == dropped_paths(old(self)@.repos, spec_c) && final(self).writes() == old(
                    self,
                ).writes() + delete_path_statements(dropped_paths(old(self)@.repos, spec_c)),
                Err(e) => e is Database && exists|n: int|
                    0 <= n <= old(self)@.repos.len() && final(self)@.repos == kept(
                        old(self)@.repos.take(n),
                        spec_c,
                    ) + old(self)@.repos.skip(n),
            },
            res is Err ==> removal_stopped(old(self)@.repos, old(self).writes(), final(self)@.repos, final(self).writes(), spec_c),
    {
        let ghost orig = views(self.repos@);
        let ghost w0 = self.writes();
        let mut rest: Vec<RepoRecord> = Vec::new();
        std::mem::swap(&mut rest, &mut self.repos);
        let mut kept_v: Vec<RepoRecord> = Vec::new();
        let mut removed: Vec<String> = Vec::new();
        let ghost mut n: int = 0;
        proof {
            assert(orig.take(0) =~= Seq::<RepoModel>::empty());
            assert(orig.skip(0) == orig);
            assert(views(kept_v@) =~= kept(orig.take(0), spec_c));
            assert(views(removed@) =~= dropped_paths(orig.take(0), spec_c));
            lemma_kept_prefix_ok(orig, spec_c, 0);
        }
        while rest.len() > 0
            invariant
                0 <= n <= orig.len(),
                w0 == old(self).writes(),
                self.writes() == w0 + delete_path_statements(views(removed@)),
                views(rest@) == orig.skip(n),
                views(kept_v@) == kept(orig.take(n), spec_c),
                views(removed@) == dropped_paths(orig.take(n), spec_c),
                repos_ok(orig),
                well_formed(old(self)@),
                self.sep == old(self)@.sep,
                self.settings == old(self).settings,
                self.exclusions == old(self).exclusions,
                self.apps == old(self).apps,
                orig == old(self)@.repos,
                match spec_c {
                    Removal::Prune { missing: ms, exclusions, sep } => under_path is None && ms
                        == views(missing@) && exclusions == old(self)@.exclusions && sep == old(
                        self,
                    )@.sep,
                    Removal::Under { exclusion, sep } => under_path matches Some(e) && exclusion
                        == e@ && sep == old(self)@.sep,
                },
            decreases rest.len(),
        {
            proof {
                assert(orig.skip(n).len() > 0);
                assert(orig.skip(n)[0] == orig[n]);
                assert(views(rest@)[0] == orig[n]);
                assert(orig.take(n + 1).drop_last() =~= orig.take(n));
                assert(orig.take(n + 1).last() == orig[n]);
            }
            let drop = match under_path {
                None => find_string(missing, rest[0].path.as_str()).is_some() || excluded_exec(
                    rest[0].path.as_str(),
                    self.exclusions.as_slice(),
                    self.sep,
                ),
                Some(e) => {
                    let pc = chars_of(rest[0].path.as_str());
                    let ec = chars_of(e);
                    under_exec(pc.as_slice(), ec.as_slice(), self.sep)
                },
            };
            proof {
                if let Removal::Prune { missing: ms, exclusions, sep } = spec_c {
                    lemma_position(ms, orig[n].path);
                }
            }
            assert(drop == removes(spec_c, orig[n]));
            let ghost rest_before = rest@;
            if drop {
                let args = vec![text_arg(rest[0].path.as_str())];
                assert(views(args@) =~= delete_path_statement(orig[n].path).1);
                let ghost w1 = self.writes();
                let written = self.write(DELETE_REPO_BY_PATH_SQL, args);
                proof {
                    assert(self.writes() == w1.push(delete_path_statement(orig[n].path)));
                }
                if let Err(e) = written {
                    let ghost kv = kept_v@;
                    let ghost rv = rest@;
                    kept_v.append(&mut rest);
                    self.repos = kept_v;
                    proof {
                        assert(removal_stopped_at(orig, w0, kept(orig.take(n), spec_c) + orig.skip(n), self.writes(), spec_c, n));
                        lemma_views_append(kv, rv);
                        lemma_kept_prefix_ok(orig, spec_c, n);
                        assert(self@.repos == kept(orig.take(n), spec_c) + orig.skip(n));
                        assert(self@.settings == old(self)@.settings);
                        assert(self@.exclusions == old(self)@.exclusions);
                        assert(self@.apps == old(self)@.apps);
                        assert(well_formed(self@));
                    }
                    return Err(db_error(e));
                }
                let r = rest.remove(0);
                let ghost old_removed = removed@;
                removed.push(r.path);
                proof {
                    lemma_views_push(old_removed, r.path);
                    assert(delete_path_statements(views(removed@)) =~= delete_path_statements(
                        views(old_removed),
                    ).push(delete_path_statement(r.path@)));
                }
            } else {
                let r = rest.remove(0);
                let ghost old_kept = kept_v@;
                kept_v.push(r);
                proof {
                    lemma_views_push(old_kept, r);
                }
            }
            proof {
                lemma_views_remove(rest_before, 0);
                assert(orig.skip(n).remove(0) =~= orig.skip(n + 1));
                assert(views(rest@) =~= orig.skip(n + 1));
                n = n + 1;
            }
        }
        proof {
            assert(orig.skip(n).len() == 0);
            assert(n == orig.len());
            assert(orig.take(n) == orig);
            lemma_kept_prefix_ok(orig, spec_c, n);
            assert(kept(orig.take(n), spec_c) + orig.skip(n) =~= kept(orig, spec_c));
        }
        self.repos = kept_v;
        Ok(removed)
    }
}

// ---------------------------------------------------------------------------
// Repositories: updates
// ---------------------------------------------------------------------------

pub open spec fn prune_removal(m: DbModel, missing: Seq<Seq<char>>) -> Removal {
    Removal::Prune { missing, exclusions: m.exclusions, sep: m.sep }
}

/// `after` is `before` with the removals of a pruning (with `missing` as the
/// paths found missing) done on its first `n` repositories.
pub open spec fn pruned_prefix_by(before: DbModel, after: DbModel, missing: Seq<Seq<char>>, n: int) -> bool {
    0 <= n <= before.repos.len() && after == with_repos(
        before,
        kept(before.repos.take(n), prune_removal(before, missing)) + before.repos.skip(n),
    )
}

/// `after` is `before` after a pruning that may have stopped part way: some
/// prefix of the repositories pruned, for some set of missing paths.
pub open spec fn pruned_prefix(before: DbModel, after: DbModel) -> bool {
    exists|missing: Seq<Seq<char>>, n: int| pruned_prefix_by(before, after, missing, n)
}

pub open spec fn with_emergency(m: DbModel, id: i64, branch: Option<Seq<char>>) -> DbModel {
    match first_repo(m.repos, RepoKey::Id(id)) {
        Some(i) => with_repos(m, m.repos.update(i, RepoModel { emergency_branch: branch, ..m.repos[i] })),
        None => m,
    }
}

pub open spec fn cleared(repos: Seq<RepoModel>) -> Seq<RepoModel> {
    Seq::new(repos.len(), |i: int| RepoModel { emergency_branch: None, ..repos[i] })
}

pub open spec fn tagged(m: DbModel, id: i64, tag: Seq<char>) -> DbModel {
    match first_repo(m.repos, RepoKey::Id(id)) {
        Some(i) => if m.repos[i].tags.contains(tag) {
            m
        } else {
            with_repos(m, m.repos.update(i, RepoModel { tags: m.repos[i].tags.push(tag), ..m.repos[i] }))
        },
        None => m,
    }
}

pub open spec fn untagged(m: DbModel, id: i64, tag: Seq<char>) -> DbModel {
    match first_repo(m.repos, RepoKey::Id(id)) {
        Some(i) => match position(m.repos[i].tags, tag) {
            Some(k) => with_repos(
                m,
                m.repos.update(i, RepoModel { tags: m.repos[i].tags.remove(k), ..m.repos[i] }),
            ),
            None => m,
        },
        None => m,
    }
}

impl Database {
    /// Removes the repositories whose path is in `missing` or excluded;
    /// returns their paths.
    pub fn prune_missing(&mut self, missing: &Vec<String>) -> (res: Result<Vec<String>, GitregError>)
        requires
            well_formed(old(self)@),
        ensures
            well_formed(final(self)@),
            match res {
                Ok(removed) => final(self)@ == with_repos(
                    old(self)@,
                    kept(old(self)@.repos, prune_removal(old(self)@, views(missing@))),
                ) && views(removed@) == dropped_paths(
                    old(self)@.repos,
                    prune_removal(old(self)@, views(missing@)),
                ) && final(self).writes() == old(self).writes() + delete_path_statements(
                    views(removed@),
                ),
                Err(e) => e is Database && exists|n: int|
                    0 <= n <= old(self)@.repos.len() && final(self)@ == with_repos(
                        old(self)@,
                        kept(
                            old(self)@.repos.take(n),
                            prune_removal(old(self)@, views(missing@)),
                        ) + old(self)@.repos.skip(n),
                    ),
            },
            res is Err ==> removal_stopped(
                old(self)@.repos,
                old(self).writes(),
                final(self)@.repos,
                final(self).writes(),
                prune_removal(old(self)@, views(missing@)),
            ),
    {
        let ghost c = prune_removal(self@, views(missing@));
        self.remove_repos(missing, None, Ghost(c))
    }

    /// Removes the repositories whose path no longer exists or is excluded;
    /// returns their paths.  Which paths exist is up to the file system.
    pub fn prune(&mut self) -> (res: Result<Vec<String>, GitregError>)
        requires
            well_formed(old(self)@),
        ensures
            well_formed(final(self)@),
            pruned_prefix(old(self)@, final(self)@),
            res matches Ok(removed) ==> exists|missing: Seq<Seq<char>>|
                final(self)@ == with_repos(
                    old(self)@,
                    kept(old(self)@.repos, prune_removal(old(self)@, missing)),
                ) && views(removed@) == dropped_paths(
                    old(self)@.repos,
                    prune_removal(old(self)@, missing),
                ) && final(self).writes() == old(self).writes()
                    + delete_path_statements(views(removed@)),
            res is Err ==> exists|missing: Seq<Seq<char>>|
                removal_stopped(
                    old(self)@.repos,
                    old(self).writes(),
                    final(self)@.repos,
                    final(self).writes(),
                    prune_removal(old(self)@, missing),
                ),
    {
        let ghost m0 = self@;
        let mut missing: Vec<String> = Vec::new();
        let mut i: usize = 0;
        while i < self.repos.len()
            invariant
                0 <= i <= self.repos@.len(),
                self@ == m0,
            decreases self.repos.len() - i,
        {
            if !path_exists(self.repos[i].path.as_str()) {
                missing.push(self.repos[i].path.clone());
            }
            i = i + 1;
        }
        let res = self.prune_missing(&missing);
        proof {
            let ms = views(missing@);
            if res is Ok {
                let n = m0.repos.len() as int;
                assert(m0.repos.take(n) == m0.repos);
                assert(kept(m0.repos, prune_removal(m0, ms)) + m0.repos.skip(n) == kept(
                    m0.repos,
                    prune_removal(m0, ms),
                ));
                assert(pruned_prefix_by(m0, self@, ms, n));
            } else {
                let n = choose|n: int|
                    0 <= n <= m0.repos.len() && self@ == with_repos(
                        m0,
                        kept(m0.repos.take(n), prune_removal(m0, ms)) + m0.repos.skip(n),
                    );
                assert(pruned_prefix_by(m0, self@, ms, n));
            }
        }
        res
    }

    /// Removes the repositories at or under `exclusion`; returns how many.
    pub fn remove_by_exclusion(&mut self, exclusion: &str) -> (res: Result<usize, GitregError>)
        requires
            well_formed(old(self)@),
        ensures
            well_formed(final(self)@),
            match res {
                Ok(count) => final(self)@ == with_repos(
                    old(self)@,
                    kept(old(self)@.repos, Removal::Under { exclusion: exclusion@, sep: old(self)@.sep }),
                ) && count == dropped_paths(
                    old(self)@.repos,
                    Removal::Under { exclusion: exclusion@, sep: old(self)@.sep },
                ).len() && final(self).writes() == old(self).writes()
                    + delete_path_statements(
                    dropped_paths(
                        old(self)@.repos,
                        Removal::Under { exclusion: exclusion@, sep: old(self)@.sep },
                    ),
                ),
                Err(e) => e is Database && exists|n: int|
                    0 <= n <= old(self)@.repos.len() && final(self)@ == with_repos(
                        old(self)@,
                        kept(
                            old(self)@.repos.take(n),
                            Removal::Under { exclusion: exclusion@, sep: old(self)@.sep },
                        ) + old(self)@.repos.skip(n),
                    ),
            },
            res is Err ==> removal_stopped(
                old(self)@.repos,
                old(self).writes(),
                final(self)@.repos,
                final(self).writes(),
                Removal::Under { exclusion: exclusion@, sep: old(self)@.sep },
            ),
    {
        let ghost c = Removal::Under { exclusion: exclusion@, sep: self@.sep };
        let none: Vec<String> = Vec::new();
        match self.remove_repos(&none, Some(exclusion), Ghost(c)) {
            Ok(removed) => Ok(removed.len()),
            Err(e) => Err(e),
        }
    }

    /// Removes the repository with id `id`; returns its path, or `None` when
    /// there is none.
    pub fn remove_by_id(&mut self, id: i64) -> (res: Result<Option<String>, GitregError>)
        requires
            well_formed(old(self)@),
        ensures
            first_repo(old(self)@.repos, RepoKey::Id(id)) is Some ==> final(self).writes() == old(self).writes().push(
                delete_id_statement(id),
            ),
            first_repo(old(self)@.repos, RepoKey::Id(id)) is None ==> final(self).writes() == old(self).writes(),
            first_repo(old(self)@.repos, RepoKey::Id(id)) is None ==> res is Ok,
            well_formed(final(self)@),
            match res {
                Ok(None) => first_repo(old(self)@.repos, RepoKey::Id(id)) is None && final(self)@
                    == old(self)@,
                Ok(Some(p)) => first_repo(old(self)@.repos, RepoKey::Id(id)) matches Some(i)
                    && p@ == old(self)@.repos[i].path && final(self)@ == with_repos(
                    old(self)@,
                    old(self)@.repos.remove(i),
                ),
                Err(e) => e is Database && final(self)@ == old(self)@,
            },
    {
        match find_repo_by_id(&self.repos, id) {
            None => Ok(None),
            Some(i) => {
                proof {
                    lemma_first_repo(self@.repos, RepoKey::Id(id));
                }
                let args = vec![SqlArg::Integer(id)];
                assert(views(args@) =~= delete_id_statement(id).1);
                if let Err(e) = self.write(DELETE_REPO_BY_ID_SQL, args) {
                    return Err(db_error(e));
                }
                let ghost old_repos = self.repos@;
                let r = self.repos.remove(i);
                proof {
                    lemma_views_remove(old_repos, i as int);
                    lemma_repos_ok_remove(views(old_repos), i as int);
                }
                Ok(Some(r.path))
            },
        }
    }

    /// Records the emergency branch pushed for the repository with id `id`.
    pub fn set_emergency_branch(&mut self, id: i64, branch: &str) -> (res: Result<(), GitregError>)
        requires
            well_formed(old(self)@),
        ensures
            final(self).writes() == old(self).writes().push(emergency_statement(id, branch@)),
            well_formed(final(self)@),
            match res {
                Ok(_) => final(self)@ == with_emergency(old(self)@, id, Some(branch@)),
                Err(e) => e is Database && final(self)@ == old(self)@,
            },
    {
        let args = vec![text_arg(branch), SqlArg::Integer(id)];
        assert(views(args@) =~= emergency_statement(id, branch@).1);
        if let Err(e) = self.write(SET_EMERGENCY_SQL, args) {
            return Err(db_error(e));
        }
        match find_repo_by_id(&self.repos, id) {
            None => Ok(()),
            Some(i) => {
                proof {
                    lemma_first_repo(self@.repos, RepoKey::Id(id));
                }
                let ghost old_repos = self.repos@;
                let mut r = self.repos.remove(i);
                r.emergency_branch = Some(branch.to_owned());
                self.repos.insert(i, r);
                proof {
                    assert(self.repos@ =~= old_repos.update(i as int, r));
                    lemma_views_update(old_repos, i as int, r);
                    lemma_repos_ok_update(views(old_repos), i as int, r@);
                }
                Ok(())
            },
        }
    }

    /// Forgets every recorded emergency branch.
    pub fn clear_all_emergency_branches(&mut self) -> (res: Result<(), GitregError>)
        requires
            well_formed(old(self)@),
        ensures
            final(self).writes() == old(self).writes().push(batch(CLEAR_EMERGENCY_SQL@)),
            well_formed(final(self)@),
            match res {
                Ok(_) => final(self)@ == with_repos(old(self)@, cleared(old(self)@.repos)),
                Err(e) => e is Database && final(self)@ == old(self)@,
            },
    {
        let args: Vec<SqlArg> = Vec::new();
        assert(views(args@) =~= Seq::<ArgValue>::empty());
        if let Err(e) = self.write(CLEAR_EMERGENCY_SQL, args) {
            return Err(db_error(e));
        }
        let ghost orig = self@.repos;
        let mut i: usize = 0;
        assert(cleared(orig.take(0)) + orig.skip(0) =~= orig);
        while i < self.repos.len()
            invariant
                0 <= i <= self.repos@.len(),
                self.repos@.len() == orig.len(),
                views(self.repos@) == cleared(orig.take(i as int)) + orig.skip(i as int),
                self.writes() == old(self).writes().push(batch(CLEAR_EMERGENCY_SQL@)),
                repos_ok(views(self.repos@)),
                self.sep == old(self).sep,
                self.settings == old(self).settings,
                self.exclusions == old(self).exclusions,
                self.apps == old(self).apps,
            decreases self.repos.len() - i,
        {
            let ghost before = self.repos@;
            let mut r = self.repos.remove(i);
            r.emergency_branch = None;
            self.repos.insert(i, r);
            proof {
                assert(self.repos@ =~= before.update(i as int, r));
                lemma_views_update(before, i as int, r);
                lemma_repos_ok_update(views(before), i as int, r@);
                assert(views(self.repos@) =~= cleared(orig.take(i + 1)) + orig.skip(i + 1));
            }
            i = i + 1;
        }
        assert(cleared(orig.take(i as int)) + orig.skip(i as int) =~= cleared(orig));
        Ok(())
    }

    /// Adds `tag` to the repository with id `repo_id` (nothing when it has
    /// it already).
    pub fn add_tag(&mut self, repo_id: i64, tag: &str) -> (res: Result<(), GitregError>)
        requires
            well_formed(old(self)@),
        ensures
            final(self).writes() == old(self).writes().push(add_tag_statement(repo_id, tag@)),
            well_formed(final(self)@),
            match res {
                Ok(_) => final(self)@ == tagged(old(self)@, repo_id, tag@),
                Err(e) => e is Database && final(self)@ == old(self)@,
            },
    {
        let args = vec![SqlArg::Integer(repo_id), text_arg(tag)];
        assert(views(args@) =~= add_tag_statement(repo_id, tag@).1);
        if let Err(e) = self.write(ADD_TAG_SQL, args) {
            return Err(db_error(e));
        }
        match find_repo_by_id(&self.repos, repo_id) {
            None => Ok(()),
            Some(i) => {
                proof {
                    lemma_first_repo(self@.repos, RepoKey::Id(repo_id));
                    lemma_position(views(self.repos@[i as int].tags@), tag@);
                }
                if find_string(&self.repos[i].tags, tag).is_some() {
                    return Ok(());
                }
                let ghost old_repos = self.repos@;
                push_tag(&mut self.repos, i, tag.to_owned());
                Ok(())
            },
        }
    }

    /// Removes `tag` from the repository with id `repo_id`.
    pub fn remove_tag(&mut self, repo_id: i64, tag: &str) -> (res: Result<(), GitregError>)
        requires
            well_formed(old(self)@),
        ensures
            final(self).writes() == old(self).writes().push(remove_tag_statement(repo_id, tag@)),
            well_formed(final(self)@),
            match res {
                Ok(_) => final(self)@ == untagged(old(self)@, repo_id, tag@),
                Err(e) => e is Database && final(self)@ == old(self)@,
            },
    {
        let args = vec![SqlArg::Integer(repo_id), text_arg(tag)];
        assert(views(args@) =~= remove_tag_statement(repo_id, tag@).1);
        if let Err(e) = self.write(REMOVE_TAG_SQL, args) {
            return Err(db_error(e));
        }
        match find_repo_by_id(&self.repos, repo_id) {
            None => Ok(()),
            Some(i) => {
                proof {
                    lemma_first_repo(self@.repos, RepoKey::Id(repo_id));
                }
                match find_string(&self.repos[i].tags, tag) {
                    None => Ok(()),
                    Some(k) => {
                        let ghost old_repos = self.repos@;
                        let ghost old_v = views(old_repos);
                        proof {
                            lemma_position(old_v[i as int].tags, tag@);
                        }
                        let mut r = self.repos.remove(i);
                        let ghost old_tags = r.tags@;
                        r.tags.remove(k);
                        proof {
                            lemma_views_remove(old_tags, k as int);
                            let t = views(r.tags@);
                            let t0 = old_v[i as int].tags;
                            assert(t0.no_duplicates());
                            assert forall|x: int, y: int|
                                0 <= x < t.len() && 0 <= y < t.len() && x != y implies t[x]
                                != t[y] by {
                                let x2 = if x < k { x } else { x + 1 };
                                let y2 = if y < k { y } else { y + 1 };
                                assert(t[x] == t0[x2] && t[y] == t0[y2]);
                            }
                        }
                        self.repos.insert(i, r);
                        proof {
                            assert(self.repos@ =~= old_repos.update(i as int, r));
                            lemma_views_update(old_repos, i as int, r);
                            lemma_repos_ok_update(old_v, i as int, r@);
                        }
                        Ok(())
                    },
                }
            },
        }
    }

    /// Whether `path` is one of `exclusions` or lies under one.
    pub fn is_path_excluded(&self, path: &str, exclusions: &[String]) -> (b: bool)
        ensures
            b == excluded_by(path@, views(exclusions@), self@.sep),
    {
        excluded_exec(path, exclusions, self.sep)
    }

    /// Whether `path` is excluded from the registry.
    pub fn is_excluded(&self, path: &str) -> (res: Result<bool, GitregError>)
        ensures
            res matches Ok(b) && b == excluded_by(path@, self@.exclusions, self@.sep),
    {
        Ok(excluded_exec(path, self.exclusions.as_slice(), self.sep))
    }
}

// ---------------------------------------------------------------------------
// Repositories: selecting several
// ---------------------------------------------------------------------------

/// The repositories carrying `tag`, as a listing reports them, in order.
pub open spec fn tagged_records(repos: Seq<RepoModel>, tag: Seq<char>) -> Seq<RepoModel>
    decreases repos.len(),
{
    if repos.len() == 0 {
        Seq::empty()
    } else if repos.last().tags.contains(tag) {
        tagged_records(repos.drop_last(), tag).push(listed(repos.last()))
    } else {
        tagged_records(repos.drop_last(), tag)
    }
}

/// `acc` followed by those of `rs`, in order, whose id is not already there.
pub open spec fn add_unseen(acc: Seq<RepoModel>, rs: Seq<RepoModel>) -> Seq<RepoModel>
    decreases rs.len(),
{
    if rs.len() == 0 {
        acc
    } else {
        let a = add_unseen(acc, rs.drop_last());
        if first_repo(a, RepoKey::Id(rs.last().id)) is Some {
            a
        } else {
            a.push(rs.last())
        }
    }
}

/// What one comma-separated target adds to the selection `acc`: `@tag`
/// selects the repositories carrying the tag; anything else is resolved as an
/// id, path or name.
pub open spec fn resolve_piece(m: DbModel, acc: Seq<RepoModel>, piece: Seq<char>) -> Seq<RepoModel> {
    let t = trim(piece);
    if t.len() == 0 {
        acc
    } else if t[0] == '@' {
        add_unseen(acc, tagged_records(m.repos, t.drop_first()))
    } else {
        match resolve_target_spec(m, t) {
            Some(id) => match first_repo(m.repos, RepoKey::Id(id)) {
                Some(i) => add_unseen(acc, seq![listed(m.repos[i])]),
                None => acc,
            },
            None => acc,
        }
    }
}

pub open spec fn resolve_pieces(m: DbModel, pieces: Seq<Seq<char>>) -> Seq<RepoModel>
    decreases pieces.len(),
{
    if pieces.len() == 0 {
        Seq::empty()
    } else {
        resolve_piece(m, resolve_pieces(m, pieces.drop_last()), pieces.last())
    }
}

/// Appends `r` unless a record with its id is there already.
fn add_record(results: &mut Vec<RepoRecord>, r: RepoRecord)
    ensures
        views(final(results)@) == if first_repo(views(old(results)@), RepoKey::Id(r@.id)) is Some {
            views(old(results)@)
        } else {
            views(old(results)@).push(r@)
        },
{
    if find_repo_by_id(results, r.id).is_none() {
        let ghost old_r = results@;
        results.push(r);
        proof {
            lemma_views_push(old_r, r);
        }
    }
}

impl Database {
    /// The repositories that `targets` selects: `all` selects every one (in
    /// listing order); otherwise `targets` is a comma-separated list of
    /// `@tag`s, ids, paths and names, and each repository is selected once,
    /// in the order of first selection.
    pub fn resolve_many(&self, targets: &str) -> (res: Result<Vec<RepoRecord>, GitregError>)
        requires
            well_formed(self@),
        ensures
            res matches Ok(v) && if targets@ == "all"@ {
                sorted_by_rank::<RepoRecord>(views(v@)) && views(v@).to_multiset() == listed_all(
                    self@.repos,
                ).to_multiset()
            } else {
                views(v@) == resolve_pieces(self@, split(targets@, ','))
            },
    {
        if str_eq(targets, "all") {
            return self.list();
        }
        let tc = chars_of(targets);
        let pieces = split_exec(tc.as_slice(), ',');
        let ghost pv = views(pieces@);
        let mut results: Vec<RepoRecord> = Vec::new();
        let mut k: usize = 0;
        assert(views(results@) =~= resolve_pieces(self@, pv.take(0)));
        while k < pieces.len()
            invariant
                0 <= k <= pieces@.len(),
                pv == views(pieces@),
                pv == split(targets@, ','),
                views(results@) == resolve_pieces(self@, pv.take(k as int)),
                well_formed(self@),
            decreases pieces.len() - k,
        {
            let ghost acc = views(results@);
            proof {
                assert(pv.take(k + 1).drop_last() == pv.take(k as int));
                assert(pv.take(k + 1).last() == pieces@[k as int]@);
            }
            let piece = pieces[k].as_slice();
            let (a, b) = trim_bounds(piece, 0, piece.len());
            proof {
                assert(piece@.subrange(0, piece@.len() as int) == piece@);
            }
            let ghost t = trim(piece@);
            if a < b {
                if piece[a] == '@' {
                    let tag_chars = slice_to_vec(piece, a + 1, b);
                    assert(tag_chars@ == t.drop_first());
                    let tag = string_of(tag_chars.as_slice());
                    let mut j: usize = 0;
                    assert(views(results@) =~= add_unseen(acc, tagged_records(self@.repos.take(0), tag@)));
                    while j < self.repos.len()
                        invariant
                            0 <= j <= self.repos@.len(),
                            views(results@) == add_unseen(acc, tagged_records(self@.repos.take(j as int), tag@)),
                        decreases self.repos.len() - j,
                    {
                        let ghost rs = self@.repos;
                        proof {
                            assert(rs.take(j + 1).drop_last() == rs.take(j as int));
                            assert(rs.take(j + 1).last() == rs[j as int]);
                            lemma_position(rs[j as int].tags, tag@);
                        }
                        if find_string(&self.repos[j].tags, tag.as_str()).is_some() {
                            let c = listed_copy(&self.repos[j]);
                            add_record(&mut results, c);
                            proof {
                                let tr = tagged_records(rs.take(j as int), tag@);
                                assert(tagged_records(rs.take(j + 1), tag@) == tr.push(c@));
                                assert(tr.push(c@).drop_last() == tr);
                            }
                        }
                        j = j + 1;
                    }
                    proof {
                        assert(self@.repos.take(self@.repos.len() as int) == self@.repos);
                    }
                } else {
                    let tv = slice_to_vec(piece, a, b);
                    let ts = string_of(tv.as_slice());
                    match self.resolve_target(ts.as_str()) {
                        Ok(Some(id)) => {
                            match find_repo_by_id(&self.repos, id) {
                                Some(i) => {
                                    proof {
                                        lemma_first_repo(self@.repos, RepoKey::Id(id));
                                    }
                                    let c = listed_copy(&self.repos[i]);
                                    add_record(&mut results, c);
                                    proof {
                                        let one = seq![c@];
                                        assert(one.drop_last() =~= Seq::<RepoModel>::empty());
                                        assert(add_unseen(acc, one.drop_last()) == acc);
                                    }
                                },
                                None => {},
                            }
                        },
                        _ => {},
                    }
                }
            }
            k = k + 1;
        }
        proof {
            assert(pv.take(pieces@.len() as int) == pv);
        }
        Ok(results)
    }
}

// ---------------------------------------------------------------------------
// Settings
// ---------------------------------------------------------------------------

pub open spec fn with_settings(m: DbModel, settings: Seq<(Seq<char>, Seq<char>)>) -> DbModel {
    DbModel { sep: m.sep, repos: m.repos, settings, exclusions: m.exclusions, apps: m.apps }
}

/// `s` with `k` mapped to `v`: the pair replaced in place, or appended.
pub open spec fn set_value(s: Seq<(Seq<char>, Seq<char>)>, k: Seq<char>, v: Seq<char>) -> Seq<
    (Seq<char>, Seq<char>),
> {
    match key_position(s, k) {
        Some(i) => s.update(i, (k, v)),
        None => s.push((k, v)),
    }
}

pub proof fn lemma_set_value_ok(s: Seq<(Seq<char>, Seq<char>)>, k: Seq<char>, v: Seq<char>)
    requires
        keys_ok(s),
    ensures
        keys_ok(set_value(s, k, v)),
        value_of(set_value(s, k, v), k) == Some(v),
        forall|k2: Seq<char>| k2 != k ==> value_of(set_value(s, k, v), k2) == value_of(s, k2),
{
    lemma_key_position(s, k);
    let t = set_value(s, k, v);
    assert forall|i: int, j: int| 0 <= i < j < t.len() implies (#[trigger] t[i]).0 != (
    #[trigger] t[j]).0 by {
        if j < s.len() {
            assert(s[i].0 != s[j].0);
        }
    }
    lemma_key_position(t, k);
    let at = match key_position(s, k) {
        Some(i) => i,
        None => s.len() as int,
    };
    assert(t[at].0 == k);
    match key_position(t, k) {
        Some(b) => {
            if b < at {
                assert(t[b] == s[b]);
            }
            assert(b == at);
            assert(t[at] == (k, v));
        },
        None => {},
    }
    assert forall|k2: Seq<char>| k2 != k implies value_of(t, k2) == value_of(s, k2) by {
        lemma_key_position(s, k2);
        lemma_key_position(t, k2);
        match key_position(s, k2) {
            Some(a) => {
                assert(t[a].0 == k2);
                match key_position(t, k2) {
                    Some(b) => {
                        if b < a {
                            assert(t[b] == s[b]);
                        }
                        if a < b {
                            assert(t[a].0 == k2);
                        }
                    },
                    None => {},
                }
            },
            None => {
                match key_position(t, k2) {
                    Some(b) => {
                        if b < s.len() {
                            assert(t[b] == s[b]);
                        }
                    },
                    None => {},
                }
            },
        }
    }
}

/// Whether daily pruning is on: unless the setting says otherwise, it is.
pub open spec fn autoprune_enabled(m: DbModel) -> bool {
    match value_of(m.settings, "autoprune_enabled"@) {
        Some(v) => v == "true"@,
        None => true,
    }
}

/// The daily pruning time, `00:00` unless set.
pub open spec fn autoprune_time(m: DbModel) -> Seq<char> {
    match value_of(m.settings, "autoprune_time"@) {
        Some(v) => v,
        None => "00:00"@,
    }
}

impl Database {
    /// The value of setting `key`.
    pub fn get_setting(&self, key: &str) -> (res: Result<Option<String>, GitregError>)
        ensures
            res matches Ok(v) && opt_view(v) == value_of(self@.settings, key@),
    {
        match find_setting(&self.settings, key) {
            Some(i) => {
                proof {
                    lemma_key_position(self@.settings, key@);
                }
                Ok(Some(self.settings[i].value.clone()))
            },
            None => Ok(None),
        }
    }

    /// Sets `key` to `value`.
    pub fn set_setting(&mut self, key: &str, value: &str) -> (res: Result<(), GitregError>)
        requires
            well_formed(old(self)@),
        ensures
            final(self).writes() == old(self).writes().push(setting_statement(key@, value@)),
            well_formed(final(self)@),
            match res {
                Ok(_) => final(self)@ == with_settings(
                    old(self)@,
                    set_value(old(self)@.settings, key@, value@),
                ),
                Err(e) => e is Database && final(self)@ == old(self)@,
            },
    {
        let args = vec![text_arg(key), text_arg(value)];
        assert(views(args@) =~= setting_statement(key@, value@).1);
        if let Err(e) = self.write(SET_SETTING_SQL, args) {
            return Err(db_error(e));
        }
        let item = Setting { key: key.to_owned(), value: value.to_owned() };
        let ghost old_s = self.settings@;
        proof {
            lemma_set_value_ok(views(old_s), key@, value@);
        }
        match find_setting(&self.settings, key) {
            Some(i) => {
                proof {
                    lemma_key_position(views(old_s), key@);
                }
                replace_at(&mut self.settings, i, item);
                proof {
                    lemma_views_update(old_s, i as int, item);
                }
            },
            None => {
                self.settings.push(item);
                proof {
                    lemma_views_push(old_s, item);
                }
            },
        }
        Ok(())
    }

    /// Whether daily pruning is on.
    pub fn is_autoprune_enabled(&self) -> (res: Result<bool, GitregError>)
        ensures
            res matches Ok(b) && b == autoprune_enabled(self@),
    {
        match self.get_setting("autoprune_enabled") {
            Ok(Some(v)) => Ok(str_eq(v.as_str(), "true")),
            Ok(None) => Ok(true),
            Err(e) => Err(e),
        }
    }

    /// The daily pruning time.
    pub fn get_autoprune_time(&self) -> (res: Result<String, GitregError>)
        ensures
            res matches Ok(t) && t@ == autoprune_time(self@),
    {
        match self.get_setting("autoprune_time") {
            Ok(Some(v)) => Ok(v),
            Ok(None) => Ok("00:00".to_owned()),
            Err(e) => Err(e),
        }
    }

    /// The date of the last daily pruning.
    pub fn get_last_autoprune_date(&self) -> (res: Result<Option<String>, GitregError>)
        ensures
            res matches Ok(v) && opt_view(v) == value_of(self@.settings, "last_autoprune_date"@),
    {
        self.get_setting("last_autoprune_date")
    }

    /// Records the date of the last daily pruning.
    pub fn set_last_autoprune_date(&mut self, date: &str) -> (res: Result<(), GitregError>)
        requires
            well_formed(old(self)@),
        ensures
            final(self).writes() == old(self).writes().push(setting_statement("last_autoprune_date"@, date@)),
            well_formed(final(self)@),
            match res {
                Ok(_) => final(self)@ == with_settings(
                    old(self)@,
                    set_value(old(self)@.settings, "last_autoprune_date"@, date@),
                ),
                Err(e) => e is Database && final(self)@ == old(self)@,
            },
    {
        self.set_setting("last_autoprune_date", date)
    }
}

// ---------------------------------------------------------------------------
// Exclusions
// ---------------------------------------------------------------------------

pub open spec fn with_exclusions(m: DbModel, exclusions: Seq<Seq<char>>) -> DbModel {
    DbModel { sep: m.sep, repos: m.repos, settings: m.settings, exclusions, apps: m.apps }
}

impl Ranked for String {
    open spec fn ranks_before(a: Seq<char>, b: Seq<char>) -> bool {
        lex_lt(a, b)
    }

    fn before(&self, other: &Self) -> (r: bool) {
        compare_strs(self.as_str(), other.as_str()) == Order::Less
    }

    proof fn lemma_strict_order(a: Seq<char>, b: Seq<char>, c: Seq<char>) {
        lemma_lex_asymmetric(a, b);
        if lex_lt(a, b) && lex_lt(b, c) {
            lemma_lex_transitive(a, b, c);
        }
    }
}

fn copy_strings(v: &Vec<String>) -> (r: Vec<String>)
    ensures
        views(r@) == views(v@),
{
    let mut out: Vec<String> = Vec::new();
    let mut i: usize = 0;
    while i < v.len()
        invariant
            0 <= i <= v@.len(),
            views(out@) == views(v@).take(i as int),
        decreases v.len() - i,
    {
        let c = v[i].clone();
        let ghost old_out = out@;
        out.push(c);
        proof {
            lemma_views_push(old_out, c);
            assert(views(v@).take(i + 1) == views(v@).take(i as int).push(c@));
        }
        i = i + 1;
    }
    assert(views(v@).take(v@.len() as int) == views(v@));
    out
}

impl Database {
    /// Excludes `path` (and what lies under it) from registration.
    pub fn add_exclusion(&mut self, path: &str) -> (res: Result<(), GitregError>)
        requires
            well_formed(old(self)@),
        ensures
            final(self).writes() == old(self).writes().push(add_exclusion_statement(path@)),
            well_formed(final(self)@),
            match res {
                Ok(_) => final(self)@ == with_exclusions(
                    old(self)@,
                    if old(self)@.exclusions.contains(path@) {
                        old(self)@.exclusions
                    } else {
                        old(self)@.exclusions.push(path@)
                    },
                ),
                Err(e) => e is Database && final(self)@ == old(self)@,
            },
    {
        let args = vec![text_arg(path)];
        assert(views(args@) =~= add_exclusion_statement(path@).1);
        if let Err(e) = self.write(ADD_EXCLUSION_SQL, args) {
            return Err(db_error(e));
        }
        proof {
            lemma_position(self@.exclusions, path@);
        }
        if find_string(&self.exclusions, path).is_none() {
            let p = path.to_owned();
            let ghost old_e = self.exclusions@;
            self.exclusions.push(p);
            proof {
                lemma_views_push(old_e, p);
                let v = views(self.exclusions@);
                let w = views(old_e);
                assert forall|x: int, y: int| 0 <= x < v.len() && 0 <= y < v.len() && x != y implies v[x]
                    != v[y] by {
                    if x == v.len() - 1 {
                        assert(w[y] == v[y]);
                    } else if y == v.len() - 1 {
                        assert(w[x] == v[x]);
                    }
                }
            }
        }
        Ok(())
    }

    /// Removes the exclusion of `path`; returns whether there was one.
    pub fn remove_exclusion(&mut self, path: &str) -> (res: Result<bool, GitregError>)
        requires
            well_formed(old(self)@),
        ensures
            old(self)@.exclusions.contains(path@) ==> final(self).writes() == old(self).writes().push(
                remove_exclusion_statement(path@),
            ),
            !old(self)@.exclusions.contains(path@) ==> final(self).writes() == old(self).writes(),
            !old(self)@.exclusions.contains(path@) ==> res is Ok,
            well_formed(final(self)@),
            match res {
                Ok(found) => found == old(self)@.exclusions.contains(path@) && final(self)@
                    == with_exclusions(
                    old(self)@,
                    match position(old(self)@.exclusions, path@) {
                        Some(i) => old(self)@.exclusions.remove(i),
                        None => old(self)@.exclusions,
                    },
                ),
                Err(e) => e is Database && final(self)@ == old(self)@,
            },
    {
        proof {
            lemma_position(self@.exclusions, path@);
        }
        match find_string(&self.exclusions, path) {
            None => Ok(false),
            Some(i) => {
                let args = vec![text_arg(path)];
                assert(views(args@) =~= remove_exclusion_statement(path@).1);
                if let Err(e) = self.write(REMOVE_EXCLUSION_SQL, args) {
                    return Err(db_error(e));
                }
                let ghost old_e = self.exclusions@;
                self.exclusions.remove(i);
                proof {
                    lemma_views_remove(old_e, i as int);
                    let v = views(self.exclusions@);
                    let w = views(old_e);
                    assert forall|x: int, y: int| 0 <= x < v.len() && 0 <= y < v.len() && x != y implies v[x]
                        != v[y] by {
                        let x2 = if x < i { x } else { x + 1 };
                        let y2 = if y < i { y } else { y + 1 };
                        assert(v[x] == w[x2] && v[y] == w[y2]);
                    }
                }
                Ok(true)
            },
        }
    }

    /// The excluded paths, in order.
    pub fn list_exclusions(&self) -> (res: Result<Vec<String>, GitregError>)
        ensures
            res matches Ok(v) && sorted_by_rank::<String>(views(v@)) && views(v@).to_multiset()
                == self@.exclusions.to_multiset(),
    {
        Ok(sort_ranked(copy_strings(&self.exclusions)))
    }
}

// ---------------------------------------------------------------------------
// Integrator applications
// ---------------------------------------------------------------------------

pub open spec fn with_apps(m: DbModel, apps: Seq<AppModel>) -> DbModel {
    DbModel { sep: m.sep, repos: m.repos, settings: m.settings, exclusions: m.exclusions, apps }
}

pub open spec fn new_app(id: i64, name: Seq<char>) -> AppModel {
    AppModel { id, name, blocked: false, listeners: Seq::empty() }
}

/// `apps` with the application named `name` present: unchanged when there is
/// one, else with a new one with id `id` appended.
pub open spec fn apps_with(apps: Seq<AppModel>, name: Seq<char>, id: i64) -> Seq<AppModel> {
    if app_position(apps, name) is Some {
        apps
    } else {
        apps.push(new_app(id, name))
    }
}

/// `apps` with the application named `name` blocked or unblocked.
pub open spec fn set_blocked(apps: Seq<AppModel>, name: Seq<char>, blocked: bool) -> Seq<AppModel> {
    match app_position(apps, name) {
        Some(i) => apps.update(i, AppModel { blocked, ..apps[i] }),
        None => apps,
    }
}

/// The registry after registering `app` (created with id `id` when new) for
/// `event` on `socket`.
pub open spec fn registered(
    m: DbModel,
    app: Seq<char>,
    event: Seq<char>,
    socket: Seq<char>,
    id: i64,
) -> DbModel {
    let apps = apps_with(m.apps, app, id);
    match app_position(apps, app) {
        Some(i) => with_apps(
            m,
            apps.update(i, AppModel { listeners: set_value(apps[i].listeners, event, socket), ..apps[i] }),
        ),
        None => m,
    }
}

/// The registry after removing `app`'s registration for `event`.
pub open spec fn unregistered(m: DbModel, app: Seq<char>, event: Seq<char>) -> DbModel {
    match app_position(m.apps, app) {
        Some(i) => match key_position(m.apps[i].listeners, event) {
            Some(k) => with_apps(
                m,
                m.apps.update(i, AppModel { listeners: m.apps[i].listeners.remove(k), ..m.apps[i] }),
            ),
            None => m,
        },
        None => m,
    }
}

/// The registrations of one application, as a listing reports them.
pub open spec fn app_integrations(a: AppModel) -> Seq<IntegrationModel> {
    Seq::new(
        a.listeners.len(),
        |j: int|
            IntegrationModel {
                app_name: a.name,
                is_blocked: a.blocked,
                event: a.listeners[j].0,
                socket_path: a.listeners[j].1,
            },
    )
}

/// All registrations.
pub open spec fn all_integrations(apps: Seq<AppModel>) -> Seq<IntegrationModel>
    decreases apps.len(),
{
    if apps.len() == 0 {
        Seq::empty()
    } else {
        all_integrations(apps.drop_last()) + app_integrations(apps.last())
    }
}

/// The sockets of the applications that are not blocked and are registered
/// for `event`, in order.
pub open spec fn active_listeners(apps: Seq<AppModel>, event: Seq<char>) -> Seq<Seq<char>>
    decreases apps.len(),
{
    if apps.len() == 0 {
        Seq::empty()
    } else {
        let rest = active_listeners(apps.drop_last(), event);
        let a = apps.last();
        match key_position(a.listeners, event) {
            Some(k) => if !a.blocked {
                rest.push(a.listeners[k].1)
            } else {
                rest
            },
            None => rest,
        }
    }
}

/// Listing order of registrations: by application name, then event.
pub open spec fn integration_before(a: IntegrationModel, b: IntegrationModel) -> bool {
    lex_lt(a.app_name, b.app_name) || (a.app_name == b.app_name && lex_lt(a.event, b.event))
}

impl Ranked for IntegrationRecord {
    open spec fn ranks_before(a: IntegrationModel, b: IntegrationModel) -> bool {
        integration_before(a, b)
    }

    fn before(&self, other: &Self) -> (r: bool) {
        match compare_strs(self.app_name.as_str(), other.app_name.as_str()) {
            Order::Less => true,
            Order::Greater => false,
            Order::Equal => compare_strs(self.event.as_str(), other.event.as_str()) == Order::Less,
        }
    }

    proof fn lemma_strict_order(a: IntegrationModel, b: IntegrationModel, c: IntegrationModel) {
        lemma_lex_asymmetric(a.app_name, b.app_name);
        lemma_lex_asymmetric(a.event, b.event);
        lemma_lex_irreflexive(a.app_name);
        lemma_lex_irreflexive(a.event);
        if lex_lt(a.app_name, b.app_name) && lex_lt(b.app_name, c.app_name) {
            lemma_lex_transitive(a.app_name, b.app_name, c.app_name);
        }
        if lex_lt(a.event, b.event) && lex_lt(b.event, c.event) {
            lemma_lex_transitive(a.event, b.event, c.event);
        }
    }
}

pub proof fn lemma_apps_ok_update(apps: Seq<AppModel>, i: int, a: AppModel)
    requires
        apps_ok(apps),
        0 <= i < apps.len(),
        a.id == apps[i].id,
        a.name == apps[i].name,
        keys_ok(a.listeners),
    ensures
        apps_ok(apps.update(i, a)),
{
    let v = apps.update(i, a);
    assert forall|x: int, y: int| 0 <= x < y < v.len() implies #[trigger] v[x].id
        != #[trigger] v[y].id && v[x].name != v[y].name by {
        assert(apps[x].id != apps[y].id);
    }
    assert forall|x: int| 0 <= x < v.len() implies keys_ok((#[trigger] v[x]).listeners) by {
        if x != i {
            assert(keys_ok(apps[x].listeners));
        }
    }
}

pub proof fn lemma_apps_ok_remove(apps: Seq<AppModel>, i: int)
    requires
        apps_ok(apps),
        0 <= i < apps.len(),
    ensures
        apps_ok(apps.remove(i)),
{
    let v = apps.remove(i);
    assert forall|x: int, y: int| 0 <= x < y < v.len() implies #[trigger] v[x].id
        != #[trigger] v[y].id && v[x].name != v[y].name by {
        let x2 = if x < i { x } else { x + 1 };
        let y2 = if y < i { y } else { y + 1 };
        assert(v[x] == apps[x2] && v[y] == apps[y2]);
        assert(apps[x2].id != apps[y2].id);
    }
    assert forall|x: int| 0 <= x < v.len() implies keys_ok((#[trigger] v[x]).listeners) by {
        let x2 = if x < i { x } else { x + 1 };
        assert(v[x] == apps[x2]);
        assert(keys_ok(apps[x2].listeners));
    }
}

pub proof fn lemma_keys_ok_remove(s: Seq<(Seq<char>, Seq<char>)>, k: int)
    requires
        keys_ok(s),
        0 <= k < s.len(),
    ensures
        keys_ok(s.remove(k)),
{
    let t = s.remove(k);
    assert forall|x: int, y: int| 0 <= x < y < t.len() implies (#[trigger] t[x]).0 != (
    #[trigger] t[y]).0 by {
        let x2 = if x < k { x } else { x + 1 };
        let y2 = if y < k { y } else { y + 1 };
        assert(t[x] == s[x2] && t[y] == s[y2]);
    }
}

/// Sets the listener for `event` of the application at `i` to `socket`.
fn set_listener(apps: &mut Vec<AppRecord>, i: usize, event: &str, socket: &str)
    requires
        i < old(apps)@.len(),
        apps_ok(views(old(apps)@)),
    ensures
        apps_ok(views(final(apps)@)),
        views(final(apps)@) == views(old(apps)@).update(
            i as int,
            AppModel {
                listeners: set_value(views(old(apps)@)[i as int].listeners, event@, socket@),
                ..views(old(apps)@)[i as int]
            },
        ),
{
    let ghost old_v = views(apps@);
    let ghost old_apps = apps@;
    let mut a = apps.remove(i);
    let ghost old_l = a.listeners@;
    let l = Listener { event: event.to_owned(), socket_path: socket.to_owned() };
    proof {
        assert(keys_ok(old_v[i as int].listeners));
        lemma_set_value_ok(views(old_l), event@, socket@);
        lemma_key_position(views(old_l), event@);
    }
    match find_listener(&a.listeners, event) {
        Some(k) => {
            replace_at(&mut a.listeners, k, l);
            proof {
                lemma_views_update(old_l, k as int, l);
            }
        },
        None => {
            a.listeners.push(l);
            proof {
                lemma_views_push(old_l, l);
            }
        },
    }
    apps.insert(i, a);
    proof {
        assert(apps@ =~= old_apps.update(i as int, a));
        lemma_views_update(old_apps, i as int, a);
        lemma_apps_ok_update(old_v, i as int, a@);
    }
}

fn integration_copies(apps: &Vec<AppRecord>) -> (r: Vec<IntegrationRecord>)
    ensures
        views(r@) == all_integrations(views(apps@)),
{
    let ghost av = views(apps@);
    let mut out: Vec<IntegrationRecord> = Vec::new();
    let mut i: usize = 0;
    assert(views(out@) =~= all_integrations(av.take(0)));
    while i < apps.len()
        invariant
            0 <= i <= apps@.len(),
            av == views(apps@),
            views(out@) == all_integrations(av.take(i as int)),
        decreases apps.len() - i,
    {
        let a = &apps[i];
        let ghost before = views(out@);
        let ghost ai = app_integrations(a@);
        let mut j: usize = 0;
        assert(views(out@) == before + ai.take(0));
        while j < a.listeners.len()
            invariant
                0 <= j <= a.listeners@.len(),
                ai == app_integrations(a@),
                views(out@) == before + ai.take(j as int),
            decreases a.listeners.len() - j,
        {
            let rec = IntegrationRecord {
                app_name: a.name.clone(),
                is_blocked: a.blocked,
                event: a.listeners[j].event.clone(),
                socket_path: a.listeners[j].socket_path.clone(),
            };
            let ghost old_out = out@;
            out.push(rec);
            proof {
                lemma_views_push(old_out, rec);
                assert(rec@ == ai[j as int]);
                assert(ai.take(j + 1) == ai.take(j as int).push(ai[j as int]));
            }
            j = j + 1;
        }
        proof {
            assert(ai.take(ai.len() as int) == ai);
            assert(av.take(i + 1).drop_last() == av.take(i as int));
            assert(av.take(i + 1).last() == a@);
        }
        i = i + 1;
    }
    assert(av.take(apps@.len() as int) == av);
    out
}

impl Database {
    /// The id of the application named `name`, which is created when there
    /// is none.
    pub fn get_or_create_app(&mut self, name: &str) -> (res: Result<i64, GitregError>)
        requires
            well_formed(old(self)@),
        ensures
            final(self).writes() == old(self).writes().push(create_app_statement(name@)),
            well_formed(final(self)@),
            match res {
                Ok(id) => final(self)@ == with_apps(old(self)@, apps_with(old(self)@.apps, name@, id))
                    && match app_position(old(self)@.apps, name@) {
                    Some(i) => id == old(self)@.apps[i].id,
                    None => forall|j: int|
                        0 <= j < old(self)@.apps.len() ==> (#[trigger] old(self)@.apps[j]).id != id,
                },
                Err(e) => (e is Database || inconsistency(e)) && final(self)@ == old(self)@,
            },
    {
        let args = vec![text_arg(name)];
        assert(views(args@) =~= create_app_statement(name@).1);
        if let Err(e) = self.write(CREATE_APP_SQL, args) {
            return Err(db_error(e));
        }
        proof {
            lemma_app_position(self@.apps, name@);
        }
        match find_app(&self.apps, name) {
            Some(i) => Ok(self.apps[i].id),
            None => {
                let rows = match run_query(
                    &self.conn,
                    "SELECT id FROM apps WHERE name = ?1",
                    vec![text_arg(name)].as_slice(),
                    1,
                ) {
                    Ok(r) => r,
                    Err(e) => return Err(db_error(e)),
                };
                let id = match id_from_rows(&rows) {
                    Ok(v) => v,
                    Err(e) => return Err(e),
                };
                if find_app_by_id(&self.apps, id).is_some() {
                    return Err(inconsistent());
                }
                let app = AppRecord { id, name: name.to_owned(), blocked: false, listeners: Vec::new() };
                let ghost old_apps = self.apps@;
                self.apps.push(app);
                proof {
                    lemma_views_push(old_apps, app);
                    assert(views(app.listeners@) =~= Seq::<(Seq<char>, Seq<char>)>::empty());
                    let v = views(self.apps@);
                    let w = views(old_apps);
                    assert forall|x: int, y: int| 0 <= x < y < v.len() implies #[trigger] v[x].id
                        != #[trigger] v[y].id && v[x].name != v[y].name by {
                        if y == v.len() - 1 {
                            assert(old_apps[x].id != id);
                        } else {
                            assert(w[x].id != w[y].id);
                        }
                    }
                    assert forall|x: int| 0 <= x < v.len() implies keys_ok(
                        (#[trigger] v[x]).listeners,
                    ) by {
                        if x < w.len() {
                            assert(keys_ok(w[x].listeners));
                        }
                    }
                }
                Ok(id)
            },
        }
    }

    fn set_app_blocked(&mut self, name: &str, blocked: bool) -> (res: Result<bool, GitregError>)
        requires
            well_formed(old(self)@),
        ensures
            app_position(old(self)@.apps, name@) is Some ==> final(self).writes() == old(self).writes().push(
                block_statement(name@, blocked),
            ),
            app_position(old(self)@.apps, name@) is None ==> final(self).writes() == old(self).writes(),
            app_position(old(self)@.apps, name@) is None ==> res is Ok,
            well_formed(final(self)@),
            match res {
                Ok(found) => found == (app_position(old(self)@.apps, name@) is Some) && final(self)@
                    == with_apps(old(self)@, set_blocked(old(self)@.apps, name@, blocked)),
                Err(e) => e is Database && final(self)@ == old(self)@,
            },
    {
        proof {
            lemma_app_position(self@.apps, name@);
        }
        match find_app(&self.apps, name) {
            None => Ok(false),
            Some(i) => {
                let sql = if blocked {
                    BLOCK_APP_SQL
                } else {
                    UNBLOCK_APP_SQL
                };
                let args = vec![text_arg(name)];
                assert(views(args@) =~= block_statement(name@, blocked).1);
                if let Err(e) = self.write(sql, args) {
                    return Err(db_error(e));
                }
                let ghost old_apps = self.apps@;
                let mut a = self.apps.remove(i);
                a.blocked = blocked;
                self.apps.insert(i, a);
                proof {
                    assert(self.apps@ =~= old_apps.update(i as int, a));
                    lemma_views_update(old_apps, i as int, a);
                    assert(keys_ok(views(old_apps)[i as int].listeners));
                    lemma_apps_ok_update(views(old_apps), i as int, a@);
                }
                Ok(true)
            },
        }
    }

    /// Stops events for the application named `name`; returns whether there
    /// is one.
    pub fn block_app(&mut self, name: &str) -> (res: Result<bool, GitregError>)
        requires
            well_formed(old(self)@),
        ensures
            app_position(old(self)@.apps, name@) is Some ==> final(self).writes() == old(self).writes().push(
                block_statement(name@, true),
            ),
            app_position(old(self)@.apps, name@) is None ==> final(self).writes() == old(self).writes(),
            app_position(old(self)@.apps, name@) is None ==> res is Ok,
            well_formed(final(self)@),
            match res {
                Ok(found) => found == (app_position(old(self)@.apps, name@) is Some) && final(self)@
                    == with_apps(old(self)@, set_blocked(old(self)@.apps, name@, true)),
                Err(e) => e is Database && final(self)@ == old(self)@,
            },
    {
        self.set_app_blocked(name, true)
    }

    /// Resumes events for the application named `name`; returns whether
    /// there is one.
    pub fn unblock_app(&mut self, name: &str) -> (res: Result<bool, GitregError>)
        requires
            well_formed(old(self)@),
        ensures
            app_position(old(self)@.apps, name@) is Some ==> final(self).writes() == old(self).writes().push(
                block_statement(name@, false),
            ),
            app_position(old(self)@.apps, name@) is None ==> final(self).writes() == old(self).writes(),
            app_position(old(self)@.apps, name@) is None ==> res is Ok,
            well_formed(final(self)@),
            match res {
                Ok(found) => found == (app_position(old(self)@.apps, name@) is Some) && final(self)@
                    == with_apps(old(self)@, set_blocked(old(self)@.apps, name@, false)),
                Err(e) => e is Database && final(self)@ == old(self)@,
            },
    {
        self.set_app_blocked(name, false)
    }

    /// Removes the application named `name` with its registrations; returns
    /// whether there was one.
    pub fn remove_app(&mut self, name: &str) -> (res: Result<bool, GitregError>)
        requires
            well_formed(old(self)@),
        ensures
            app_position(old(self)@.apps, name@) is Some ==> final(self).writes() == old(self).writes().push(
                remove_app_statement(name@),
            ),
            app_position(old(self)@.apps, name@) is None ==> final(self).writes() == old(self).writes(),
            app_position(old(self)@.apps, name@) is None ==> res is Ok,
            well_formed(final(self)@),
            match res {
                Ok(found) => found == (app_position(old(self)@.apps, name@) is Some) && final(self)@
                    == with_apps(
                    old(self)@,
                    match app_position(old(self)@.apps, name@) {
                        Some(i) => old(self)@.apps.remove(i),
                        None => old(self)@.apps,
                    },
                ),
                Err(e) => e is Database && final(self)@ == old(self)@,
            },
    {
        proof {
            lemma_app_position(self@.apps, name@);
        }
        match find_app(&self.apps, name) {
            None => Ok(false),
            Some(i) => {
                let args = vec![text_arg(name)];
                assert(views(args@) =~= remove_app_statement(name@).1);
                if let Err(e) = self.write(REMOVE_APP_SQL, args) {
                    return Err(db_error(e));
                }
                let ghost old_apps = self.apps@;
                self.apps.remove(i);
                proof {
                    lemma_views_remove(old_apps, i as int);
                    lemma_apps_ok_remove(views(old_apps), i as int);
                }
                Ok(true)
            },
        }
    }

    /// Registers the application `app_name` (created when new) for `event`
    /// on `socket_path`, replacing an earlier socket for the same event.
    pub fn register_integration(&mut self, app_name: &str, event: &str, socket_path: &str) -> (res:
        Result<(), GitregError>)
        requires
            well_formed(old(self)@),
        ensures
            well_formed(final(self)@),
            match res {
                Ok(_) => exists|id: i64|
                    (app_position(old(self)@.apps, app_name@) is None ==> forall|j: int|
                        0 <= j < old(self)@.apps.len() ==> (#[trigger] old(self)@.apps[j]).id != id)
                        && final(self)@ == registered(
                        old(self)@,
                        app_name@,
                        event@,
                        socket_path@,
                        id,
                    ) && final(self).writes() == old(self).writes().push(
                        create_app_statement(app_name@),
                    ).push(register_statement(id, event@, socket_path@)),
                Err(e) => (e is Database || inconsistency(e)) && ((final(self)@ == old(self)@
                    && final(self).writes() == old(self).writes().push(
                    create_app_statement(app_name@),
                )) || exists|id: i64|
                    final(self)@ == with_apps(old(self)@, apps_with(old(self)@.apps, app_name@, id))
                        && final(self).writes() == old(self).writes().push(
                        create_app_statement(app_name@),
                    ).push(register_statement(id, event@, socket_path@))),
            },
    {
        let ghost m0 = self@;
        let app_id = match self.get_or_create_app(app_name) {
            Ok(id) => id,
            Err(e) => return Err(e),
        };
        let ghost m1 = self@;
        let args = vec![SqlArg::Integer(app_id), text_arg(event), text_arg(socket_path)];
        assert(views(args@) =~= register_statement(app_id, event@, socket_path@).1);
        if let Err(e) = self.write(REGISTER_SQL, args) {
            return Err(db_error(e));
        }
        proof {
            lemma_app_position(m0.apps, app_name@);
            lemma_app_position(m1.apps, app_name@);
            if app_position(m0.apps, app_name@) is None {
                assert(m1.apps[m0.apps.len() as int].name == app_name@);
            }
        }
        match find_app(&self.apps, app_name) {
            None => Ok(()),
            Some(i) => {
                set_listener(&mut self.apps, i, event, socket_path);
                proof {
                    let ghost apps = apps_with(m0.apps, app_name@, app_id);
                    assert(apps == m1.apps);
                    assert(app_position(apps, app_name@) == Some(i as int));
                    assert(self@ == registered(m0, app_name@, event@, socket_path@, app_id));
                }
                Ok(())
            },
        }
    }

    /// Removes `app_name`'s registration for `event`; returns whether there
    /// was one.
    pub fn unregister_integration(&mut self, app_name: &str, event: &str) -> (res: Result<
        bool,
        GitregError,
    >)
        requires
            well_formed(old(self)@),
        ensures
            match app_position(old(self)@.apps, app_name@) {
                Some(i) => if key_position(old(self)@.apps[i].listeners, event@) is Some {
                    final(self).writes() == old(self).writes().push(unregister_statement(old(self)@.apps[i].id, event@))
                } else {
                    final(self).writes() == old(self).writes()
                },
                None => final(self).writes() == old(self).writes(),
            },
            !(app_position(old(self)@.apps, app_name@) matches Some(i) && key_position(
                old(self)@.apps[i].listeners,
                event@,
            ) is Some) ==> res is Ok,
            well_formed(final(self)@),
            match res {
                Ok(found) => found == (app_position(old(self)@.apps, app_name@) matches Some(i)
                    && key_position(old(self)@.apps[i].listeners, event@) is Some) && final(self)@
                    == unregistered(old(self)@, app_name@, event@),
                Err(e) => e is Database && final(self)@ == old(self)@,
            },
    {
        proof {
            lemma_app_position(self@.apps, app_name@);
        }
        let i = match find_app(&self.apps, app_name) {
            None => return Ok(false),
            Some(i) => i,
        };
        proof {
            lemma_key_position(self@.apps[i as int].listeners, event@);
            assert(self@.apps[i as int].listeners == views(self.apps@[i as int].listeners@));
        }
        let k = match find_listener(&self.apps[i].listeners, event) {
            None => return Ok(false),
            Some(k) => k,
        };
        let args = vec![SqlArg::Integer(self.apps[i].id), text_arg(event)];
        assert(views(args@) =~= unregister_statement(self.apps@[i as int].id, event@).1);
        if let Err(e) = self.write(UNREGISTER_SQL, args) {
            return Err(db_error(e));
        }
        let ghost old_apps = self.apps@;
        let mut a = self.apps.remove(i);
        let ghost old_l = a.listeners@;
        a.listeners.remove(k);
        self.apps.insert(i, a);
        proof {
            lemma_views_remove(old_l, k as int);
            assert(keys_ok(views(old_apps)[i as int].listeners));
            lemma_keys_ok_remove(views(old_l), k as int);
            assert(self.apps@ =~= old_apps.update(i as int, a));
            lemma_views_update(old_apps, i as int, a);
            lemma_apps_ok_update(views(old_apps), i as int, a@);
        }
        Ok(true)
    }

    /// Every registration, ordered by application name and event.
    pub fn list_integrations(&self) -> (res: Result<Vec<IntegrationRecord>, GitregError>)
        ensures
            res matches Ok(v) && sorted_by_rank::<IntegrationRecord>(views(v@)) && views(
                v@,
            ).to_multiset() == all_integrations(self@.apps).to_multiset(),
    {
        Ok(sort_ranked(integration_copies(&self.apps)))
    }

    /// The sockets to notify of `event`: those of the applications that are
    /// registered for it and not blocked.
    pub fn get_active_listeners_for_event(&self, event: &str) -> (res: Result<
        Vec<String>,
        GitregError,
    >)
        ensures
            res matches Ok(v) && views(v@) == active_listeners(self@.apps, event@),
    {
        let ghost av = views(self.apps@);
        let mut out: Vec<String> = Vec::new();
        let mut i: usize = 0;
        assert(views(out@) =~= active_listeners(av.take(0), event@));
        while i < self.apps.len()
            invariant
                0 <= i <= self.apps@.len(),
                av == views(self.apps@),
                views(out@) == active_listeners(av.take(i as int), event@),
            decreases self.apps.len() - i,
        {
            proof {
                assert(av.take(i + 1).drop_last() == av.take(i as int));
                assert(av.take(i + 1).last() == av[i as int]);
                lemma_key_position(av[i as int].listeners, event@);
            }
            if !self.apps[i].blocked {
                match find_listener(&self.apps[i].listeners, event) {
                    Some(k) => {
                        let sock = self.apps[i].listeners[k].socket_path.clone();
                        let ghost old_out = out@;
                        out.push(sock);
                        proof {
                            lemma_views_push(old_out, sock);
                        }
                    },
                    None => {},
                }
            }
            i = i + 1;
        }
        assert(av.take(self.apps@.len() as int) == av);
        Ok(out)
    }
}

} // verus!
