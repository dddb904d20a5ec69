//! What a client decides before and after it hands a statement to the
//! connection: whether it may run at all, the text that is sent, and the
//! error that a failure is reported as.

use crate::sink::DecodeError;
use crate::params::{inlined, sql_literals, substitute_params, SqlParam};
use vstd::prelude::*;
use vstd::string::StringExecFns;

verus! {

/// The three ways in which a client runs a statement.
#[derive(Debug, Clone, Copy, PartialEq, Eq)]
pub enum Operation {
    /// Runs a statement and returns its rows boxed.
    Query,
    /// Runs a statement and returns the number of rows affected.
    Execute,
    /// Runs a statement and returns its rows in the binary buffer.
    QueryRaw,
}

/// An error of a client. None is retried, and each tells what went wrong.
#[derive(Debug, Clone, PartialEq, Eq)]
pub enum ClientError {
    /// A statement was to run before a connection was made.
    NotConnected,
    /// The port in a connection string is no port number.
    InvalidPort,
    /// The connection could not be made; the text says why.
    ConnectionFailed(String),
    /// A query failed; the text says why.
    QueryFailed(String),
    /// A statement run for its effect failed; the text says why.
    ExecuteFailed(String),
    /// The decoder did not keep to the order of events.
    Decode(DecodeError),
}

/// What an error of a client holds.
pub enum ClientErrorModel {
    NotConnected,
    InvalidPort,
    ConnectionFailed(Seq<char>),
    QueryFailed(Seq<char>),
    ExecuteFailed(Seq<char>),
    Decode(DecodeError),
}

impl View for ClientError {
    type V = ClientErrorModel;

    open spec fn view(&self) -> ClientErrorModel {
        match self {
            ClientError::NotConnected => ClientErrorModel::NotConnected,
            ClientError::InvalidPort => ClientErrorModel::InvalidPort,
            ClientError::ConnectionFailed(why) => ClientErrorModel::ConnectionFailed(why@),
            ClientError::QueryFailed(why) => ClientErrorModel::QueryFailed(why@),
            ClientError::ExecuteFailed(why) => ClientErrorModel::ExecuteFailed(why@),
            ClientError::Decode(e) => ClientErrorModel::Decode(*e),
        }
    }
}

/// The message of an error.
pub open spec fn error_message(e: ClientErrorModel) -> Seq<char> {
    match e {
        ClientErrorModel::NotConnected => "Not connected. Call connect() first."@,
        ClientErrorModel::InvalidPort => "Invalid port in connection string"@,
        ClientErrorModel::ConnectionFailed(why) => "Connection failed: "@ + why,
        ClientErrorModel::QueryFailed(why) => "Query failed: "@ + why,
        ClientErrorModel::ExecuteFailed(why) => "Execute failed: "@ + why,
        ClientErrorModel::Decode(DecodeError::MissingMetadata) =>
            "Decode failed: no column metadata was received"@,
        ClientErrorModel::Decode(DecodeError::OutOfOrder) =>
            "Decode failed: an event came out of order"@,
        ClientErrorModel::Decode(DecodeError::PartialRow) =>
            "Decode failed: the cells do not fill a whole number of rows"@,
    }
}

impl ClientError {
    /// The message of the error.
    pub fn message(&self) -> (text: String)
        ensures
            text@ == error_message(self@),
    {
        match self {
            ClientError::NotConnected => String::from_str("Not connected. Call connect() first."),
            ClientError::InvalidPort => String::from_str("Invalid port in connection string"),
            ClientError::ConnectionFailed(why) => String::from_str("Connection failed: ").concat(
                why.as_str(),
            ),
            ClientError::QueryFailed(why) => String::from_str("Query failed: ").concat(
                why.as_str(),
            ),
            ClientError::ExecuteFailed(why) => String::from_str("Execute failed: ").concat(
                why.as_str(),
            ),
            ClientError::Decode(DecodeError::MissingMetadata) => String::from_str(
                "Decode failed: no column metadata was received",
            ),
            ClientError::Decode(DecodeError::OutOfOrder) => String::from_str(
                "Decode failed: an event came out of order",
            ),
            ClientError::Decode(DecodeError::PartialRow) => String::from_str(
                "Decode failed: the cells do not fill a whole number of rows",
            ),
        }
    }

    /// The error by which a failure of the connection while a statement ran
    /// is reported: an `Execute` fails as an execution, the others as a query.
    pub fn statement_failed(operation: Operation, why: String) -> (e: ClientError)
        ensures
            e == match operation {
                Operation::Execute => ClientError::ExecuteFailed(why),
                _ => ClientError::QueryFailed(why),
            },
    {
        match operation {
            Operation::Execute => ClientError::ExecuteFailed(why),
            _ => ClientError::QueryFailed(why),
        }
    }
}

/// The text of a statement as it is sent: the template itself where no
/// arguments are given, and the template with the arguments inlined else.
pub open spec fn statement_text(sql: Seq<char>, params: Option<Seq<SqlParam>>) -> Seq<char> {
    match params {
        Some(p) => if p.len() == 0 {
            sql
        } else {
            inlined(sql, sql_literals(p))
        },
        None => sql,
    }
}

/// The text of a statement as it is sent.
pub fn final_sql(sql: &str, params: Option<&[SqlParam]>) -> (text: String)
    ensures
        text@ == statement_text(
            sql@,
            match params {
                Some(p) => Some(p@),
                None => None,
            },
        ),
{
    match params {
        Some(p) => {
            if p.len() == 0 {
                String::from_str(sql)
            } else {
                substitute_params(sql, p)
            }
        },
        None => String::from_str(sql),
    }
}

/// Decides whether a statement may run, and as what text: it may only where
/// a connection stands.
pub fn prepare_statement(connected: bool, sql: &str, params: Option<&[SqlParam]>) -> (r: Result<
    String,
    ClientError,
>)
    ensures
        !connected ==> r == Err::<String, ClientError>(ClientError::NotConnected),
        connected ==> r is Ok && r->Ok_0@ == statement_text(
            sql@,
            match params {
                Some(p) => Some(p@),
                None => None,
            },
        ),
{
    if !connected {
        return Err(ClientError::NotConnected);
    }
    Ok(final_sql(sql, params))
}

} // verus!
