//! The errors of the frontend and how they are shown: the German title of the alert, the
//! messages listed in it, and the English message of the error itself. An error that comes
//! from another library is held as the text that library writes for it.

use vstd::prelude::*;
use vstd::string::StringExecFns;
use crate::text::{int_text, join, push_int, push_joined, str_texts};

verus! {

/// An error of the frontend.
#[derive(Debug, Clone)]
pub enum FrontendError {
    /// The text of the HTTP client's error.
    ErrorQueryingAnonymousConnect(String),
    /// The text of the GraphQL client's error.
    ErrorQueryingAnonymousTransfer(String),
    ErrorQueryingAuthenticatedConnect(String),
    ErrorQueryingAuthenticatedTransfer(String),
    /// The text of the invalid header value's error.
    InvalidHeader(String),
    /// The messages of the errors the GraphQL server answered with.
    Graphql(Vec<String>),
    PlanNotFound(i32),
    NotFound,
    NoServerAddress,
    InvalidPanelTree,
    /// The text of the printer library's error.
    Printer(String),
    PrinterDisconnected,
    PrinterNoSupply,
    UnsupportedTape,
    /// The map's JavaScript error: its message and its debug text.
    MapFailure { message: String, debug: String },
}

/// The texts of strings.
pub open spec fn views(s: Seq<String>) -> Seq<Seq<char>> {
    s.map_values(|t: String| t@)
}

/// The title of the alert showing the error.
pub open spec fn title_text(e: FrontendError) -> Seq<char> {
    match e {
        FrontendError::ErrorQueryingAnonymousConnect(t) => "Fehler beim anyonymen Verbindungsaufbau: "@ + t@,
        FrontendError::ErrorQueryingAnonymousTransfer(t) => "Fehler bei einer anonymen Abfrage: "@ + t@,
        FrontendError::ErrorQueryingAuthenticatedConnect(t) => "Fehler beim authentisierten Verbindungsaufbau: "@ + t@,
        FrontendError::ErrorQueryingAuthenticatedTransfer(t) => "Fehler bei einer authentisierten Abfrage: "@ + t@,
        FrontendError::InvalidHeader(t) => "Ungültiger Header: "@ + t@,
        FrontendError::Graphql(errors) => if errors@.len() == 1 {
            "Fehler vom Server: "@ + errors@[0]@
        } else {
            "Fehler vom Server"@
        },
        FrontendError::PlanNotFound(id) => "Plan "@ + int_text(id as int) + " existiert nicht"@,
        FrontendError::NotFound => "Daten nicht gefunden"@,
        FrontendError::NoServerAddress => "Adresse des Servers konnte nicht bestimmt werden"@,
        FrontendError::InvalidPanelTree => "Die Panels des Schachts bilden keinen gültigen Baum"@,
        FrontendError::Printer(t) => "Druckfehler: "@ + t@,
        FrontendError::PrinterDisconnected => "Drucker nicht verbunden"@,
        FrontendError::PrinterNoSupply => "Drucker hat kein Etikett gemeldet"@,
        FrontendError::UnsupportedTape => "Etikettentyp wird nicht unterstützt (nur Endlosband)"@,
        FrontendError::MapFailure { message, debug: _ } => "Karte konnte nicht angezeigt werden: "@ + message@,
    }
}

/// The message of the error.
pub open spec fn message_text(e: FrontendError) -> Seq<char> {
    match e {
        FrontendError::ErrorQueryingAnonymousConnect(t) => "Error connecting to anonymous GraphQL endpoint: "@ + t@,
        FrontendError::ErrorQueryingAnonymousTransfer(t) => "Error querying anonymous GraphQL endpoint: "@ + t@,
        FrontendError::ErrorQueryingAuthenticatedConnect(t) => "Error connecting to authenticated GraphQL endpoint: "@ + t@,
        FrontendError::ErrorQueryingAuthenticatedTransfer(t) => "Error querying authenticated GraphQL endpoint: "@ + t@,
        FrontendError::InvalidHeader(t) => "Invalid http header: "@ + t@,
        FrontendError::Graphql(errors) => join(views(errors@), "; "@),
        FrontendError::PlanNotFound(id) => "Plan not found: "@ + int_text(id as int),
        FrontendError::NotFound => "Expected data not found"@,
        FrontendError::NoServerAddress => "Cannot determine the address of the server"@,
        FrontendError::InvalidPanelTree => "The panels of the Schacht don't form a tree"@,
        FrontendError::Printer(t) => "Printer error: "@ + t@,
        FrontendError::PrinterDisconnected => "Printer not connected"@,
        FrontendError::PrinterNoSupply => "Printer did not report its supply"@,
        FrontendError::UnsupportedTape => "Unsupported tape, only continuous tape is supported"@,
        FrontendError::MapFailure { message: _, debug } => "Map error: "@ + debug@,
    }
}

/// `prefix` followed by `text`.
fn prefixed(prefix: &str, text: &String) -> (r: String)
    ensures
        r@ == prefix@ + text@,
{
    let mut r = String::from_str(prefix);
    r.append(text.as_str());
    r
}

impl FrontendError {
    /// The title of the alert showing the error.
    pub fn alert_title(&self) -> (r: String)
        ensures
            r@ == title_text(*self),
    {
        match self {
            FrontendError::ErrorQueryingAnonymousConnect(t) => prefixed("Fehler beim anyonymen Verbindungsaufbau: ", t),
            FrontendError::ErrorQueryingAnonymousTransfer(t) => prefixed("Fehler bei einer anonymen Abfrage: ", t),
            FrontendError::ErrorQueryingAuthenticatedConnect(t) => prefixed("Fehler beim authentisierten Verbindungsaufbau: ", t),
            FrontendError::ErrorQueryingAuthenticatedTransfer(t) => prefixed("Fehler bei einer authentisierten Abfrage: ", t),
            FrontendError::InvalidHeader(t) => prefixed("Ungültiger Header: ", t),
            FrontendError::Graphql(errors) => {
                if errors.len() == 1 {
                    prefixed("Fehler vom Server: ", &errors[0])
                } else {
                    String::from_str("Fehler vom Server")
                }
            },
            FrontendError::PlanNotFound(id) => {
                let mut r = String::from_str("Plan ");
                push_int(&mut r, *id as i64);
                r.append(" existiert nicht");
                r
            },
            FrontendError::NotFound => String::from_str("Daten nicht gefunden"),
            FrontendError::NoServerAddress => String::from_str("Adresse des Servers konnte nicht bestimmt werden"),
            FrontendError::InvalidPanelTree => String::from_str("Die Panels des Schachts bilden keinen gültigen Baum"),
            FrontendError::Printer(t) => prefixed("Druckfehler: ", t),
            FrontendError::PrinterDisconnected => String::from_str("Drucker nicht verbunden"),
            FrontendError::PrinterNoSupply => String::from_str("Drucker hat kein Etikett gemeldet"),
            FrontendError::UnsupportedTape => String::from_str("Etikettentyp wird nicht unterstützt (nur Endlosband)"),
            FrontendError::MapFailure { message, debug: _ } => prefixed("Karte konnte nicht angezeigt werden: ", message),
        }
    }

    /// The messages listed in the alert: those of the server's errors when there are several,
    /// none otherwise.
    pub fn alert_items(&self) -> (r: Vec<String>)
        ensures
            views(r@) == match *self {
                FrontendError::Graphql(errors) => if errors@.len() > 1 {
                    views(errors@)
                } else {
                    Seq::<Seq<char>>::empty()
                },
                _ => Seq::<Seq<char>>::empty(),
            },
    {
        let mut r: Vec<String> = Vec::new();
        match self {
            FrontendError::Graphql(errors) => {
                if errors.len() > 1 {
                    let mut i: usize = 0;
                    while i < errors.len()
                        invariant
                            i <= errors.len(),
                            views(r@) == views(errors@.subrange(0, i as int)),
                        decreases errors.len() - i,
                    {
                        let ghost before = views(r@);
                        r.push(errors[i].clone());
                        assert(views(r@) =~= before.push(errors@[i as int]@));
                        assert(views(errors@.subrange(0, i + 1)) =~= views(errors@.subrange(0, i as int)).push(errors@[i as int]@));
                        i += 1;
                    }
                    assert(errors@.subrange(0, errors@.len() as int) =~= errors@);
                }
            },
            _ => {},
        }
        assert(views(r@) =~= match *self {
            FrontendError::Graphql(errors) => if errors@.len() > 1 {
                views(errors@)
            } else {
                Seq::<Seq<char>>::empty()
            },
            _ => Seq::<Seq<char>>::empty(),
        });
        r
    }

    /// The message of the error.
    pub fn message(&self) -> (r: String)
        ensures
            r@ == message_text(*self),
    {
        match self {
            FrontendError::ErrorQueryingAnonymousConnect(t) => prefixed("Error connecting to anonymous GraphQL endpoint: ", t),
            FrontendError::ErrorQueryingAnonymousTransfer(t) => prefixed("Error querying anonymous GraphQL endpoint: ", t),
            FrontendError::ErrorQueryingAuthenticatedConnect(t) => prefixed("Error connecting to authenticated GraphQL endpoint: ", t),
            FrontendError::ErrorQueryingAuthenticatedTransfer(t) => prefixed("Error querying authenticated GraphQL endpoint: ", t),
            FrontendError::InvalidHeader(t) => prefixed("Invalid http header: ", t),
            FrontendError::Graphql(errors) => {
                let mut parts: Vec<&str> = Vec::new();
                let mut i: usize = 0;
                while i < errors.len()
                    invariant
                        i <= errors.len(),
                        str_texts(parts@) == views(errors@.subrange(0, i as int)),
                    decreases errors.len() - i,
                {
                    let ghost before = str_texts(parts@);
                    parts.push(errors[i].as_str());
                    assert(str_texts(parts@) =~= before.push(errors@[i as int]@));
                    assert(views(errors@.subrange(0, i + 1)) =~= views(errors@.subrange(0, i as int)).push(errors@[i as int]@));
                    i += 1;
                }
                assert(errors@.subrange(0, errors@.len() as int) =~= errors@);
                let mut r = String::new();
                proof {
                    reveal_strlit("");
                }
                push_joined(&mut r, "", "; ", parts.as_slice());
                assert(r@ =~= join(views(errors@), "; "@));
                r
            },
            FrontendError::PlanNotFound(id) => {
                let mut r = String::from_str("Plan not found: ");
                push_int(&mut r, *id as i64);
                r
            },
            FrontendError::NotFound => String::from_str("Expected data not found"),
            FrontendError::NoServerAddress => String::from_str("Cannot determine the address of the server"),
            FrontendError::InvalidPanelTree => String::from_str("The panels of the Schacht don't form a tree"),
            FrontendError::Printer(t) => prefixed("Printer error: ", t),
            FrontendError::PrinterDisconnected => String::from_str("Printer not connected"),
            FrontendError::PrinterNoSupply => String::from_str("Printer did not report its supply"),
            FrontendError::UnsupportedTape => String::from_str("Unsupported tape, only continuous tape is supported"),
            FrontendError::MapFailure { message: _, debug } => prefixed("Map error: ", debug),
        }
    }
}

/// The result of a GraphQL response with `data` and `errors`: the server's errors, if it sent
/// any, as `FrontendError::Graphql` with their messages; otherwise the data; a response with
/// neither is `FrontendError::NotFound`.
pub fn response_result<Q>(data: Option<Q>, errors: Option<Vec<String>>) -> (r: Result<Q, FrontendError>)
    ensures
        r == match errors {
            Some(e) => Err(FrontendError::Graphql(e)),
            None => match data {
                Some(d) => Ok(d),
                None => Err(FrontendError::NotFound),
            },
        },
{
    match errors {
        Some(e) => Err(FrontendError::Graphql(e)),
        None => match data {
            Some(d) => Ok(d),
            None => Err(FrontendError::NotFound),
        },
    }
}

} // verus!
