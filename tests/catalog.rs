use lexhub_record::catalog::{Camera, Protocol};
use lexhub_record::documents::{is_active, list_query, query_by_id};

#[test]
fn protocol_getters_default_to_empty() {
    let p = Protocol::default();
    assert_eq!(p.get_name(), "");
    assert_eq!(p.get_type(), "");
    assert_eq!(p.get_path(), "");
    assert_eq!(p.get_port(), 0);
    assert_eq!(p.get_width(), 0);
    assert_eq!(p.get_height(), 0);
    let q = Protocol {
        name: Some("main".to_string()),
        protocol_type: Some("rtsp".to_string()),
        path: Some("/live".to_string()),
        port: Some(554),
        width: Some(1920),
        height: Some(1080),
    };
    assert_eq!(q.get_name(), "main");
    assert_eq!(q.get_type(), "rtsp");
    assert_eq!(q.get_path(), "/live");
    assert_eq!((q.get_port(), q.get_width(), q.get_height()), (554, 1920, 1080));
}

#[test]
fn camera_getters() {
    let mut c = Camera::default();
    assert_eq!(c.get_id(), "");
    assert!(!c.is_record());
    assert!(!c.is_ptz_relative());
    assert_eq!(c.get_authenticate(), None);
    assert!(c.get_protocols().is_empty());
    assert_eq!(c.get_active_protocol().get_name(), "");
    c.id = Some("cam-1".to_string());
    c.orgId = Some("org".to_string());
    c.status = Some("active".to_string());
    c.record = Some(true);
    c.authenticate = Some("digest".to_string());
    c.url = Some("rtsp://h".to_string());
    c.activeProtocol = Some(Protocol { port: Some(80), ..Protocol::default() });
    c.protocols = Some(vec![Protocol { port: Some(1), ..Protocol::default() }]);
    assert_eq!(c.get_id(), "cam-1");
    assert_eq!(c.get_organization_id(), "cam-1");
    assert_eq!(c.get_status(), "active");
    assert!(c.is_record());
    assert_eq!(c.get_authenticate(), Some("digest"));
    assert_eq!(c.get_url(), "rtsp://h");
    assert_eq!(c.get_active_protocol().get_port(), 80);
    assert_eq!(c.get_protocols()[0].get_port(), 1);
}

#[test]
fn active_documents() {
    assert!(is_active(br#"{"status":"active"}"#));
    assert!(!is_active(br#"{"status":"idle"}"#));
    assert!(!is_active(b"not json"));
    assert_eq!(query_by_id(Some(br#"{"status":"active","id":1}"#.to_vec())), vec![br#"{"status":"active","id":1}"#.to_vec()]);
    assert_eq!(query_by_id(Some(br#"{"status":"idle"}"#.to_vec())), vec![Vec::<u8>::new()]);
    assert_eq!(query_by_id(None), vec![Vec::<u8>::new()]);
}

#[test]
fn listing_filters_documents() {
    let docs = vec![
        br#"{"status":"active","n":1}"#.to_vec(),
        b"{broken".to_vec(),
        br#"{"status":"idle","n":2}"#.to_vec(),
    ];
    assert_eq!(list_query(docs.clone(), "cameras"), vec![docs[0].clone()]);
    assert_eq!(list_query(docs.clone(), "hub"), vec![docs[0].clone(), docs[2].clone()]);
}
