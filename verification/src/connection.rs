//! The registry of datasets that have an open connection. The registry decides
//! whether a request is refused, reuses a connection or opens one; opening and
//! querying are left to the caller, who holds the connections in the order of the
//! registry and is called only for a request that is not refused.
use crate::text::{
    append_chars, append_decimal, append_str, chars_equal, chars_of, decimal, ends_with,
    string_of,
};
use vstd::prelude::*;

verus! {

/// What a request for a dataset's connection has to do.
#[derive(Debug, PartialEq, Eq)]
pub enum ConnectionStep {
    /// The connection at this place of the registry serves the request.
    Reuse(usize),
    /// No connection is open yet: one is to be opened and registered.
    Open,
}

/// The paths of the datasets with an open connection, in the order of opening.
pub struct ConnectionHandler {
    db_paths: Vec<Vec<char>>,
}

/// The extension that a dataset's path has to end in.
pub open spec fn dataset_extension() -> Seq<char> {
    ".duckdb"@
}

/// Whether `path` ends in the extension of a dataset.
pub open spec fn has_dataset_extension(path: Seq<char>) -> bool {
    dataset_extension().len() <= path.len() && path.skip(path.len() - dataset_extension().len())
        == dataset_extension()
}

/// The message for a dataset whose file is missing.
pub open spec fn missing_file_text(path: Seq<char>) -> Seq<char> {
    "Error<file not found>` connecting to: '"@ + path + "'"@
}

impl ConnectionHandler {
    /// The registered paths, in the order of opening.
    pub closed spec fn registered(&self) -> Seq<Seq<char>> {
        Seq::new(self.db_paths@.len(), |i: int| self.db_paths@[i]@)
    }

    /// No path is registered twice.
    pub open spec fn wf(&self) -> bool {
        self.registered().no_duplicates()
    }

    /// A registry without connections.
    pub fn new() -> (handler: Self)
        ensures
            handler.registered() == Seq::<Seq<char>>::empty(),
            handler.wf(),
    {
        let handler = ConnectionHandler { db_paths: Vec::new() };
        assert(handler.registered() =~= Seq::<Seq<char>>::empty());
        handler
    }

    /// The number of open connections.
    pub fn len(&self) -> (n: usize)
        ensures
            n == self.registered().len(),
    {
        self.db_paths.len()
    }

    /// The place of `db_path` in the registry, if it is registered.
    pub fn position(&self, db_path: &str) -> (place: Option<usize>)
        ensures
            match place {
                Some(i) => i < self.registered().len() && self.registered()[i as int] == db_path@
                    && forall|k: int| 0 <= k < i ==> self.registered()[k] != db_path@,
                None => !self.registered().contains(db_path@),
            },
    {
        let wanted: Vec<char> = chars_of(db_path);
        let mut i: usize = 0;
        while i < self.db_paths.len()
            invariant
                i <= self.db_paths.len(),
                wanted@ == db_path@,
                forall|k: int| 0 <= k < i ==> self.registered()[k] != db_path@,
            decreases self.db_paths.len() - i,
        {
            if chars_equal(&self.db_paths[i], &wanted) {
                return Some(i);
            }
            i += 1;
        }
        None
    }

    /// Decides how a request for the dataset at `db_path` gets its connection.
    /// `file_exists` tells whether a file lies at that path. A path without the
    /// dataset extension is refused; a registered dataset reuses its connection,
    /// whether or not its file is still there; another one is opened if its
    /// file exists and refused if not.
    pub fn fetch_connection(&self, db_path: &str, file_exists: bool) -> (step: Result<
        ConnectionStep,
        String,
    >)
        ensures
            !has_dataset_extension(db_path@) ==> step is Err && step->Err_0@
                == "Database path must end with .duckdb"@,
            has_dataset_extension(db_path@) && self.registered().contains(db_path@) ==> step
                is Ok && step->Ok_0 is Reuse && step->Ok_0->Reuse_0 < self.registered().len()
                && self.registered()[step->Ok_0->Reuse_0 as int] == db_path@ && forall|k: int|
                0 <= k < step->Ok_0->Reuse_0 ==> self.registered()[k] != db_path@,
            has_dataset_extension(db_path@) && !self.registered().contains(db_path@)
                && file_exists ==> step == Ok::<ConnectionStep, String>(ConnectionStep::Open),
            has_dataset_extension(db_path@) && !self.registered().contains(db_path@)
                && !file_exists ==> step is Err && step->Err_0@ == missing_file_text(db_path@),
    {
        let path: Vec<char> = chars_of(db_path);
        if !ends_with(&path, &chars_of(".duckdb")) {
            return Err(string_of(&chars_of("Database path must end with .duckdb")));
        }
        match self.position(db_path) {
            Some(i) => {
                assert(self.registered().contains(db_path@));
                Ok(ConnectionStep::Reuse(i))
            },
            None => {
                if file_exists {
                    Ok(ConnectionStep::Open)
                } else {
                    let mut message: Vec<char> = Vec::new();
                    append_str(&mut message, "Error<file not found>` connecting to: '");
                    append_chars(&mut message, &path);
                    append_str(&mut message, "'");
                    Err(string_of(&message))
                }
            },
        }
    }

    /// Registers the dataset at `db_path`, whose connection was just opened, and
    /// returns its place. A dataset that is registered already keeps its place,
    /// and the registry stays as it is.
    pub fn register(&mut self, db_path: &str) -> (place: usize)
        ensures
            old(self).registered().contains(db_path@) ==> final(self).registered() == old(
                self,
            ).registered() && place < old(self).registered().len() && old(
                self,
            ).registered()[place as int] == db_path@,
            !old(self).registered().contains(db_path@) ==> final(self).registered() == old(
                self,
            ).registered().push(db_path@) && place == old(self).registered().len(),
            old(self).wf() ==> final(self).wf(),
    {
        match self.position(db_path) {
            Some(place) => place,
            None => {
                let place: usize = self.db_paths.len();
                let ghost before = self.registered();
                self.db_paths.push(chars_of(db_path));
                assert(self.registered() =~= before.push(db_path@));
                proof {
                    if old(self).wf() {
                        assert forall|i: int, j: int|
                            0 <= i < self.registered().len() && 0 <= j < self.registered().len()
                                && i != j implies self.registered()[i] != self.registered()[j] by {
                            if i < before.len() && j < before.len() {
                                assert(before[i] != before[j]);
                            } else if i < before.len() {
                                assert(before.contains(before[i]));
                            } else {
                                assert(before.contains(before[j]));
                            }
                        }
                    }
                }
                place
            },
        }
    }
}

/// What the query engine reported for one query on an open connection.
#[derive(Debug)]
pub enum QueryEvent<T> {
    /// The text of the query was refused, with this reason.
    ParseFailed(String),
    /// The query was accepted and failed while it ran, with this reason.
    ExecutionFailed(String),
    /// The query ran and gave this.
    Fetched(T),
}

/// The rows that were mapped, in their order.
pub open spec fn mapped_rows<T>(rows: Seq<Result<T, String>>) -> Seq<T>
    decreases rows.len(),
{
    if rows.len() == 0 {
        Seq::empty()
    } else {
        match rows.last() {
            Ok(row) => mapped_rows(rows.drop_last()).push(row),
            Err(_) => mapped_rows(rows.drop_last()),
        }
    }
}

/// Why the first row that could not be mapped could not be, if there is such a
/// row.
pub open spec fn first_failure<T>(rows: Seq<Result<T, String>>) -> Option<String>
    decreases rows.len(),
{
    if rows.len() == 0 {
        None
    } else {
        match first_failure(rows.drop_last()) {
            Some(cause) => Some(cause),
            None => match rows.last() {
                Ok(_) => None,
                Err(cause) => Some(cause),
            },
        }
    }
}

/// Where every row was mapped, there are as many mapped rows as rows, each the
/// row at its place.
pub proof fn lemma_all_mapped<T>(rows: Seq<Result<T, String>>)
    requires
        first_failure(rows) is None,
    ensures
        mapped_rows(rows).len() == rows.len(),
        forall|i: int| 0 <= i < rows.len() ==> (#[trigger] rows[i]) == Ok::<T, String>(
            mapped_rows(rows)[i],
        ),
    decreases rows.len(),
{
    if rows.len() > 0 {
        lemma_all_mapped(rows.drop_last());
        assert forall|i: int| 0 <= i < rows.len() implies (#[trigger] rows[i]) == Ok::<T, String>(
            mapped_rows(rows)[i],
        ) by {
            if i < rows.len() - 1 {
                assert(rows.drop_last()[i] == rows[i]);
            }
        }
    }
}

/// What became of a request that was let through to the database.
#[derive(Debug)]
pub enum Served<T> {
    /// The dataset could not be opened, for this reason.
    OpenFailed(String),
    /// The query was put to the dataset's connection, which reported this.
    Answered(QueryEvent<T>),
}

impl ConnectionHandler {
    /// The step that a request for the dataset at `path` takes where it is not
    /// refused: the first connection of the dataset, or opening one.
    pub open spec fn step_for(&self, path: Seq<char>) -> ConnectionStep {
        match self.registered().index_of_first(path) {
            Some(place) => ConnectionStep::Reuse(place as usize),
            None => ConnectionStep::Open,
        }
    }

    /// Lets `serve` put a query to the dataset at `db_path`, unless the request is
    /// refused. A path without the dataset extension, and an unregistered dataset
    /// whose file is missing, are refused before anything is opened or run: the
    /// result is the message, whatever `serve` would do, and the registry stays as
    /// it is. Else `serve` is called once, with the step to take. Where it reports
    /// a failure to open, the result is that message and the registry stays as it
    /// is; where it reports the answer of the connection, the result is that
    /// answer, and a dataset that was opened is registered.
    pub fn serve_query<T, F: FnOnce(ConnectionStep) -> Served<T>>(
        &mut self,
        db_path: &str,
        file_exists: bool,
        serve: F,
    ) -> (result: Result<QueryEvent<T>, String>)
        requires
            forall|step: ConnectionStep| call_requires(serve, (step,)),
        ensures
            !has_dataset_extension(db_path@) ==> result is Err && result->Err_0@
                == "Database path must end with .duckdb"@ && final(self).registered() == old(self).registered(),
            has_dataset_extension(db_path@) && !old(self).registered().contains(db_path@)
                && !file_exists ==> result is Err && result->Err_0@ == missing_file_text(
                db_path@,
            ) && final(self).registered() == old(self).registered(),
            has_dataset_extension(db_path@) && (old(self).registered().contains(db_path@)
                || file_exists) ==> exists|served: Served<T>|
                call_ensures(serve, (old(self).step_for(db_path@),), served) && match served {
                    Served::OpenFailed(cause) => result is Err && result->Err_0@
                        == "Failed to open database '"@ + db_path@ + "': "@ + cause@ && final(self).registered() == old(self).registered(),
                    Served::Answered(event) => result == Ok::<QueryEvent<T>, String>(event)
                        && final(self).registered() == if old(self).registered().contains(
                        db_path@,
                    ) {
                        old(self).registered()
                    } else {
                        old(self).registered().push(db_path@)
                    },
                },
            old(self).wf() ==> final(self).wf(),
    {
        let step: ConnectionStep = match self.fetch_connection(db_path, file_exists) {
            Err(message) => {
                return Err(message);
            },
            Ok(step) => step,
        };
        proof {
            self.registered().index_of_first_ensures(db_path@);
            if self.registered().contains(db_path@) {
                let i = step->Reuse_0 as int;
                let j = self.registered().index_of_first(db_path@)->Some_0;
                if j < i {
                    assert(self.registered()[j] != db_path@);
                }
                if i < j {
                    assert(self.registered()[i] == db_path@);
                }
            }
        }
        assert(step == self.step_for(db_path@));
        let served: Served<T> = serve(step);
        match served {
            Served::OpenFailed(cause) => Err(open_failure_message(db_path, cause.as_str())),
            Served::Answered(event) => {
                let place: usize = self.register(db_path);
                Ok(event)
            },
        }
    }

    /// A query for record batches on the dataset at `db_path`: refused as
    /// `serve_query` refuses, before anything is opened or run; else what `serve`
    /// made of it, as `run_query_rb` words it.
    pub fn run_query_rb<T, F: FnOnce(ConnectionStep) -> Served<T>>(
        &mut self,
        db_path: &str,
        file_exists: bool,
        serve: F,
    ) -> (result: Result<T, String>)
        requires
            forall|step: ConnectionStep| call_requires(serve, (step,)),
        ensures
            !has_dataset_extension(db_path@) ==> result is Err && result->Err_0@
                == "Database path must end with .duckdb"@ && final(self).registered() == old(self).registered(),
            has_dataset_extension(db_path@) && !old(self).registered().contains(db_path@)
                && !file_exists ==> result is Err && result->Err_0@ == missing_file_text(
                db_path@,
            ) && final(self).registered() == old(self).registered(),
            has_dataset_extension(db_path@) && (old(self).registered().contains(db_path@)
                || file_exists) ==> exists|served: Served<T>|
                call_ensures(serve, (old(self).step_for(db_path@),), served) && match served {
                    Served::OpenFailed(cause) => result is Err && result->Err_0@
                        == "Failed to open database '"@ + db_path@ + "': "@ + cause@,
                    Served::Answered(event) => answers(event, result),
                },
            old(self).wf() ==> final(self).wf(),
    {
        match self.serve_query(db_path, file_exists, serve) {
            Err(message) => Err(message),
            Ok(event) => run_query_rb(event),
        }
    }

    /// A query for rows on the dataset at `db_path`, each row mapped by the caller:
    /// refused as `serve_query` refuses, before anything is opened or run; else
    /// what `serve` made of it, as `run_query_row` words it.
    pub fn run_query_row<T, F: FnOnce(ConnectionStep) -> Served<Vec<Result<T, String>>>>(
        &mut self,
        db_path: &str,
        file_exists: bool,
        serve: F,
    ) -> (result: Result<Vec<T>, String>)
        requires
            forall|step: ConnectionStep| call_requires(serve, (step,)),
        ensures
            !has_dataset_extension(db_path@) ==> result is Err && result->Err_0@
                == "Database path must end with .duckdb"@ && final(self).registered() == old(self).registered(),
            has_dataset_extension(db_path@) && !old(self).registered().contains(db_path@)
                && !file_exists ==> result is Err && result->Err_0@ == missing_file_text(
                db_path@,
            ) && final(self).registered() == old(self).registered(),
            has_dataset_extension(db_path@) && (old(self).registered().contains(db_path@)
                || file_exists) ==> exists|served: Served<Vec<Result<T, String>>>|
                call_ensures(serve, (old(self).step_for(db_path@),), served) && match served {
                    Served::OpenFailed(cause) => result is Err && result->Err_0@
                        == "Failed to open database '"@ + db_path@ + "': "@ + cause@,
                    Served::Answered(event) => rows_answer(event, result),
                },
            old(self).wf() ==> final(self).wf(),
    {
        match self.serve_query(db_path, file_exists, serve) {
            Err(message) => Err(message),
            Ok(event) => run_query_row(event),
        }
    }
}

/// `result` is what a query for record batches comes to where the connection
/// reported `event`.
pub open spec fn answers<T>(event: QueryEvent<T>, result: Result<T, String>) -> bool {
    match event {
        QueryEvent::ParseFailed(cause) => result is Err && result->Err_0@
            == "error parsing query: '"@ + cause@ + "'"@,
        QueryEvent::ExecutionFailed(cause) => result is Err && result->Err_0@
            == "error executing query: '"@ + cause@ + "'"@,
        QueryEvent::Fetched(batches) => result == Ok::<T, String>(batches),
    }
}

/// `result` is what a query for rows comes to where the connection reported
/// `event`.
pub open spec fn rows_answer<T>(
    event: QueryEvent<Vec<Result<T, String>>>,
    result: Result<Vec<T>, String>,
) -> bool {
    match event {
        QueryEvent::ParseFailed(cause) => result is Err && result->Err_0@
            == "error parsing query: '"@ + cause@ + "'"@,
        QueryEvent::ExecutionFailed(cause) => result is Err && result->Err_0@
            == "error executing query: '"@ + cause@ + "'"@,
        QueryEvent::Fetched(rows) => match first_failure(rows@) {
            Some(cause) => result is Err && result->Err_0@ == "error mapping row: '"@ + cause@
                + "'"@,
            None => result is Ok && result->Ok_0@ == mapped_rows(rows@),
        },
    }
}

/// The result of a query for record batches: what was fetched, or a message that
/// says at which step the engine failed and gives the engine's reason.
pub fn run_query_rb<T>(event: QueryEvent<T>) -> (result: Result<T, String>)
    ensures
        answers(event, result),
{
    match event {
        QueryEvent::ParseFailed(cause) => Err(parse_failure_message(cause.as_str())),
        QueryEvent::ExecutionFailed(cause) => Err(execution_failure_message(cause.as_str())),
        QueryEvent::Fetched(batches) => Ok(batches),
    }
}

/// The result of a query for rows, each mapped by the caller: the mapped rows, all
/// of them and in their order; a message with the reason of the first row that
/// could not be mapped, if there is one; or a message as `run_query_rb` gives it.
pub fn run_query_row<T>(event: QueryEvent<Vec<Result<T, String>>>) -> (result: Result<
    Vec<T>,
    String,
>)
    ensures
        rows_answer(event, result),
{
    match event {
        QueryEvent::ParseFailed(cause) => Err(parse_failure_message(cause.as_str())),
        QueryEvent::ExecutionFailed(cause) => Err(execution_failure_message(cause.as_str())),
        QueryEvent::Fetched(rows) => {
            let ghost all = rows@;
            let mut rows = rows;
            // Rows are taken from the end, so they are first gathered last to first.
            let mut backwards: Vec<T> = Vec::new();
            let mut failure: Option<String> = None;
            assert(mapped_rows(rows@) + backwards@.reverse() =~= mapped_rows(all));
            while rows.len() > 0
                invariant
                    first_failure(all) == match first_failure(rows@) {
                        Some(cause) => Some(cause),
                        None => failure,
                    },
                    first_failure(all) is None ==> mapped_rows(rows@) + backwards@.reverse()
                        == mapped_rows(all),
                decreases rows.len(),
            {
                let ghost before = rows@;
                let ghost gathered = backwards@;
                let row: Result<T, String> = rows.pop().unwrap();
                assert(rows@ == before.drop_last());
                match row {
                    Ok(value) => {
                        backwards.push(value);
                        assert(backwards@.reverse() =~= seq![value] + gathered.reverse());
                        assert(mapped_rows(rows@) + backwards@.reverse() =~= mapped_rows(
                            before,
                        ) + gathered.reverse());
                    },
                    Err(cause) => {
                        failure = Some(cause);
                    },
                }
            }
            match failure {
                Some(cause) => Err(mapping_failure_message(cause.as_str())),
                None => {
                    let ghost wanted = mapped_rows(all);
                    assert(mapped_rows(rows@) =~= Seq::<T>::empty());
                    assert(backwards@.reverse() =~= wanted);
                    let mut kept: Vec<T> = Vec::new();
                    assert(kept@ + backwards@.reverse() =~= wanted);
                    while backwards.len() > 0
                        invariant
                            kept@ + backwards@.reverse() == wanted,
                        decreases backwards.len(),
                    {
                        let ghost before = backwards@;
                        let ghost so_far = kept@;
                        let value: T = backwards.pop().unwrap();
                        kept.push(value);
                        assert(before.reverse() =~= seq![value] + backwards@.reverse());
                        assert(kept@ + backwards@.reverse() =~= so_far + before.reverse());
                    }
                    assert(backwards@.reverse() =~= Seq::<T>::empty());
                    assert(kept@ =~= wanted);
                    Ok(kept)
                },
            }
        },
    }
}

/// The message for a row that could not be mapped, for the reason `cause`.
pub fn mapping_failure_message(cause: &str) -> (message: String)
    ensures
        message@ == "error mapping row: '"@ + cause@ + "'"@,
{
    let mut out: Vec<char> = Vec::new();
    append_str(&mut out, "error mapping row: '");
    append_str(&mut out, cause);
    append_str(&mut out, "'");
    string_of(&out)
}

/// The message for a dataset that could not be opened, for the reason `cause`.
pub fn open_failure_message(db_path: &str, cause: &str) -> (message: String)
    ensures
        message@ == "Failed to open database '"@ + db_path@ + "': "@ + cause@,
{
    let mut out: Vec<char> = Vec::new();
    append_str(&mut out, "Failed to open database '");
    append_str(&mut out, db_path);
    append_str(&mut out, "': ");
    append_str(&mut out, cause);
    string_of(&out)
}

/// The message for a query that could not be prepared, for the reason `cause`.
pub fn parse_failure_message(cause: &str) -> (message: String)
    ensures
        message@ == "error parsing query: '"@ + cause@ + "'"@,
{
    let mut out: Vec<char> = Vec::new();
    append_str(&mut out, "error parsing query: '");
    append_str(&mut out, cause);
    append_str(&mut out, "'");
    string_of(&out)
}

/// The message for a query that failed while it ran, for the reason `cause`.
pub fn execution_failure_message(cause: &str) -> (message: String)
    ensures
        message@ == "error executing query: '"@ + cause@ + "'"@,
{
    let mut out: Vec<char> = Vec::new();
    append_str(&mut out, "error executing query: '");
    append_str(&mut out, cause);
    append_str(&mut out, "'");
    string_of(&out)
}

/// Adds the dataset of the request to the message of a failure.
pub fn on_dataset(message: &str, dataset: &str) -> (out: String)
    ensures
        out@ == message@ + " (dataset '"@ + dataset@ + "')"@,
{
    let mut text: Vec<char> = chars_of(message);
    append_str(&mut text, " (dataset '");
    append_str(&mut text, dataset);
    append_str(&mut text, "')");
    string_of(&text)
}

/// Adds the year of the request to the message of a failure.
pub fn in_year(message: &str, year: u32) -> (out: String)
    ensures
        out@ == message@ + " (year "@ + decimal(year as int) + ")"@,
{
    let mut text: Vec<char> = chars_of(message);
    append_str(&mut text, " (year ");
    append_decimal(&mut text, year as i64);
    append_str(&mut text, ")");
    string_of(&text)
}

} // verus!
