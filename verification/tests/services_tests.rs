use ironclad_agent::services::{ServiceDefinition, ServiceError, ServiceManager, ServiceStatus};

fn test_service() -> ServiceDefinition {
    ServiceDefinition {
        id: "code-review".into(),
        name: "Code Review".into(),
        description: "Automated code review".into(),
        capabilities_required: vec!["coding".into()],
        max_concurrent: 3,
        estimated_duration_seconds: 300,
    }
}

#[test]
fn register_and_list() {
    let mut mgr = ServiceManager::new();
    mgr.register_service(test_service()).unwrap();
    assert_eq!(mgr.catalog_size(), 1);
    assert!(mgr.get_service("code-review").is_some());
    assert_eq!(mgr.list_services().len(), 1);
}

#[test]
fn services_reject_empty_id() {
    let mut mgr = ServiceManager::new();
    let mut svc = test_service();
    svc.id = String::new();
    assert!(matches!(mgr.register_service(svc), Err(ServiceError::EmptyId)));
}

#[test]
fn services_full_lifecycle() {
    let mut mgr = ServiceManager::new();
    mgr.register_service(test_service()).unwrap();

    let quote = mgr
        .create_quote("code-review", "client-1", "{}".to_string())
        .unwrap();
    assert_eq!(quote.status, ServiceStatus::Quoted);

    mgr.record_payment(&quote.id, "0xabc123").unwrap();
    assert_eq!(
        mgr.get_request(&quote.id).unwrap().status,
        ServiceStatus::PaymentVerified
    );

    mgr.start_fulfillment(&quote.id).unwrap();
    assert_eq!(
        mgr.get_request(&quote.id).unwrap().status,
        ServiceStatus::InProgress
    );

    mgr.complete_fulfillment(&quote.id).unwrap();
    let req = mgr.get_request(&quote.id).unwrap();
    assert_eq!(req.status, ServiceStatus::Completed);
    assert!(req.completed_at.is_some());
}

#[test]
fn invalid_state_transitions() {
    let mut mgr = ServiceManager::new();
    mgr.register_service(test_service()).unwrap();
    let quote = mgr
        .create_quote("code-review", "client", "{}".to_string())
        .unwrap();

    assert!(mgr.start_fulfillment(&quote.id).is_err());
    assert!(mgr.complete_fulfillment(&quote.id).is_err());
}

#[test]
fn total_revenue() {
    let mut mgr = ServiceManager::new();
    mgr.register_service(test_service()).unwrap();

    for i in 0..3 {
        let q = mgr
            .create_quote("code-review", &format!("client-{i}"), "{}".to_string())
            .unwrap();
        mgr.record_payment(&q.id, &format!("tx-{i}")).unwrap();
        mgr.start_fulfillment(&q.id).unwrap();
        if i < 2 {
            mgr.complete_fulfillment(&q.id).unwrap();
        }
    }

    let price = 5.0;
    let revenue: f64 = mgr.completed_service_ids().iter().map(|_| price).sum();
    assert!((revenue - 10.0).abs() < f64::EPSILON);
}

#[test]
fn requests_by_status_filter() {
    let mut mgr = ServiceManager::new();
    mgr.register_service(test_service()).unwrap();

    mgr.create_quote("code-review", "a", "{}".to_string()).unwrap();
    mgr.create_quote("code-review", "b", "{}".to_string()).unwrap();

    assert_eq!(mgr.requests_by_status(ServiceStatus::Quoted).len(), 2);
    assert_eq!(mgr.requests_by_status(ServiceStatus::Completed).len(), 0);
}

#[test]
fn fail_fulfillment() {
    let mut mgr = ServiceManager::new();
    mgr.register_service(test_service()).unwrap();
    let q = mgr.create_quote("code-review", "c", "{}".to_string()).unwrap();
    mgr.record_payment(&q.id, "tx").unwrap();
    mgr.start_fulfillment(&q.id).unwrap();
    mgr.fail_fulfillment(&q.id).unwrap();
    assert_eq!(
        mgr.get_request(&q.id).unwrap().status,
        ServiceStatus::Failed
    );
}

#[test]
fn quotes_are_numbered() {
    let mut mgr = ServiceManager::default();
    mgr.register_service(test_service()).unwrap();
    let a = mgr.create_quote("code-review", "a", "{}".to_string()).unwrap();
    let b = mgr.create_quote("code-review", "b", "{\"k\":1}".to_string()).unwrap();
    assert_eq!(a.id, "req_1");
    assert_eq!(b.id, "req_2");
    assert_eq!(b.parameters, "{\"k\":1}");
    assert_eq!(mgr.request_count(), 2);
}

#[test]
fn service_errors_and_messages() {
    let mut mgr = ServiceManager::new();
    let err = mgr.create_quote("missing", "a", "{}".to_string()).unwrap_err();
    assert_eq!(err.to_display_string(), "service 'missing' not found");
    let err = mgr.record_payment("req_9", "tx").unwrap_err();
    assert!(matches!(err, ServiceError::RequestNotFound(ref id) if id == "req_9"));
    mgr.register_service(test_service()).unwrap();
    let q = mgr.create_quote("code-review", "a", "{}".to_string()).unwrap();
    mgr.record_payment(&q.id, "tx").unwrap();
    let err = mgr.record_payment(&q.id, "tx").unwrap_err();
    assert_eq!(err.to_display_string(), "request 'req_1' is not in quoted state");
    assert_eq!(ServiceError::NegativePrice.to_display_string(), "price cannot be negative");
}

#[test]
fn service_register_replaces_same_id() {
    let mut mgr = ServiceManager::new();
    mgr.register_service(test_service()).unwrap();
    let mut svc = test_service();
    svc.name = "Renamed".into();
    mgr.register_service(svc).unwrap();
    assert_eq!(mgr.catalog_size(), 1);
    assert_eq!(mgr.get_service("code-review").unwrap().name, "Renamed");
}

#[test]
fn completed_with_unlisted_service_not_counted() {
    let mut mgr = ServiceManager::new();
    mgr.register_service(test_service()).unwrap();
    let q = mgr.create_quote("code-review", "a", "{}".to_string()).unwrap();
    mgr.record_payment(&q.id, "tx").unwrap();
    mgr.start_fulfillment(&q.id).unwrap();
    mgr.complete_fulfillment_at(&q.id, 99).unwrap();
    assert_eq!(mgr.get_request(&q.id).unwrap().completed_at, Some(99));
    assert_eq!(mgr.completed_service_ids(), vec!["code-review".to_string()]);
}
