use cable_editor::errors::{response_result, FrontendError};

#[test]
fn alert_titles() {
    assert_eq!(FrontendError::PlanNotFound(12).alert_title(), "Plan 12 existiert nicht");
    assert_eq!(FrontendError::InvalidPanelTree.alert_title(), "Die Panels des Schachts bilden keinen gültigen Baum");
    assert_eq!(FrontendError::Printer("offline".to_string()).alert_title(), "Druckfehler: offline");
    assert_eq!(
        FrontendError::MapFailure { message: "no WebGL".to_string(), debug: "JsValue(Error)".to_string() }.alert_title(),
        "Karte konnte nicht angezeigt werden: no WebGL"
    );
}

#[test]
fn server_errors_one_or_several() {
    let one = FrontendError::Graphql(vec!["denied".to_string()]);
    assert_eq!(one.alert_title(), "Fehler vom Server: denied");
    assert!(one.alert_items().is_empty());
    let two = FrontendError::Graphql(vec!["a".to_string(), "b".to_string()]);
    assert_eq!(two.alert_title(), "Fehler vom Server");
    assert_eq!(two.alert_items(), vec!["a".to_string(), "b".to_string()]);
    assert_eq!(two.message(), "a; b");
    assert!(FrontendError::NotFound.alert_items().is_empty());
}

#[test]
fn messages() {
    assert_eq!(FrontendError::PlanNotFound(3).message(), "Plan not found: 3");
    assert_eq!(FrontendError::InvalidHeader("bad".to_string()).message(), "Invalid http header: bad");
    assert_eq!(
        FrontendError::MapFailure { message: "m".to_string(), debug: "d".to_string() }.message(),
        "Map error: d"
    );
    assert_eq!(FrontendError::UnsupportedTape.message(), "Unsupported tape, only continuous tape is supported");
}

#[test]
fn every_error_has_its_title_and_message() {
    let t = |s: &str| s.to_string();
    let cases = vec![
        (
            FrontendError::ErrorQueryingAnonymousConnect(t("refused")),
            "Fehler beim anyonymen Verbindungsaufbau: refused",
            "Error connecting to anonymous GraphQL endpoint: refused",
        ),
        (
            FrontendError::ErrorQueryingAnonymousTransfer(t("bad json")),
            "Fehler bei einer anonymen Abfrage: bad json",
            "Error querying anonymous GraphQL endpoint: bad json",
        ),
        (
            FrontendError::ErrorQueryingAuthenticatedConnect(t("refused")),
            "Fehler beim authentisierten Verbindungsaufbau: refused",
            "Error connecting to authenticated GraphQL endpoint: refused",
        ),
        (
            FrontendError::ErrorQueryingAuthenticatedTransfer(t("bad json")),
            "Fehler bei einer authentisierten Abfrage: bad json",
            "Error querying authenticated GraphQL endpoint: bad json",
        ),
        (FrontendError::InvalidHeader(t("bad")), "Ungültiger Header: bad", "Invalid http header: bad"),
        (FrontendError::Graphql(vec![]), "Fehler vom Server", ""),
        (FrontendError::NotFound, "Daten nicht gefunden", "Expected data not found"),
        (
            FrontendError::NoServerAddress,
            "Adresse des Servers konnte nicht bestimmt werden",
            "Cannot determine the address of the server",
        ),
        (
            FrontendError::InvalidPanelTree,
            "Die Panels des Schachts bilden keinen gültigen Baum",
            "The panels of the Schacht don't form a tree",
        ),
        (FrontendError::Printer(t("jam")), "Druckfehler: jam", "Printer error: jam"),
        (FrontendError::PrinterDisconnected, "Drucker nicht verbunden", "Printer not connected"),
        (FrontendError::PrinterNoSupply, "Drucker hat kein Etikett gemeldet", "Printer did not report its supply"),
        (
            FrontendError::UnsupportedTape,
            "Etikettentyp wird nicht unterstützt (nur Endlosband)",
            "Unsupported tape, only continuous tape is supported",
        ),
    ];
    for (error, title, message) in cases {
        assert_eq!(error.alert_title(), title);
        assert_eq!(error.message(), message);
    }
}

#[test]
fn response_decides_result() {
    let errors = vec!["denied".to_string()];
    match response_result(Some(3), Some(errors)) {
        Err(FrontendError::Graphql(e)) => assert_eq!(e, vec!["denied".to_string()]),
        other => panic!("unexpected {other:?}"),
    }
    assert!(matches!(response_result(Some(3), None), Ok(3)));
    assert!(matches!(response_result::<i32>(None, None), Err(FrontendError::NotFound)));
    assert!(matches!(response_result::<i32>(None, Some(vec![])), Err(FrontendError::Graphql(e)) if e.is_empty()));
}
