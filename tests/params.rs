use query_cache::{
    AccelerationRequest, Args, DatasetFilter, DatasetQueryParams, Format, SampleQueryParams,
    SampleTableMethod,
};

#[test]
fn dataset_listing_defaults_to_json_without_status() {
    let params = DatasetQueryParams::default();
    assert!(!params.status);
    assert_eq!(params.format, Format::Json);
}

#[test]
fn publisher_defaults() {
    let args = Args::default();
    assert_eq!(args.parquet_file, "test.parquet");
    assert_eq!(args.flight_endpoint, "http://localhost:50051");
    assert_eq!(args.path, "test");
    assert_eq!(args.tls_root_certificate_file, None);
}

#[test]
fn tls_upgrades_the_default_local_endpoint() {
    let mut args = Args::default();
    assert_eq!(args.connection_endpoint(), "http://localhost:50051");
    args.tls_root_certificate_file = Some("root.pem".to_string());
    assert_eq!(args.connection_endpoint(), "https://localhost:50051");
    args.flight_endpoint = "http://flight.example:50051".to_string();
    assert_eq!(args.connection_endpoint(), "http://flight.example:50051");
}

#[test]
fn request_types_hold_their_options() {
    let filter = DatasetFilter { source: Some("postgres:aidemo_messages".to_string()) };
    assert_eq!(filter.source.as_deref(), Some("postgres:aidemo_messages"));
    let request = AccelerationRequest { refresh_sql: None };
    assert!(request.refresh_sql.is_none());
    let sample = SampleQueryParams { sample_type: Some(SampleTableMethod::TopNSample) };
    assert_eq!(sample.sample_type, Some(SampleTableMethod::TopNSample));
}

#[test]
fn dataset_filter_keeps_only_its_source() {
    let filter = DatasetFilter { source: Some("postgres:syncs".to_string()) };
    assert!(filter.matches("postgres:syncs"));
    assert!(!filter.matches("postgres:aidemo_messages"));
    assert!(!filter.matches("postgres:sync"));
    let all = DatasetFilter { source: None };
    assert!(all.matches("postgres:syncs"));
    assert!(all.matches(""));
}
