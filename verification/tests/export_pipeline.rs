use datadog_exporter::exporter::{
    request_or_failure, DatadogExporter, ExportResult, CONTENT_TYPE_HEADER, REQUEST_METHOD,
};
use datadog_exporter::pipeline::{
    DatadogPipelineBuilder, DEFAULT_AGENT_ENDPOINT, DEFAULT_SERVICE_NAME,
};
use datadog_exporter::span::{Span, SpanKind, Status, StatusCode};
use datadog_exporter::tags::TagMap;
use datadog_exporter::version::ApiVersion;

fn span_of(trace_id: u128, span_id: u64) -> Span {
    Span {
        trace_id,
        span_id,
        parent_span_id: None,
        name: "op".to_string(),
        start_time: 0,
        duration: 1,
        status: Status { code: StatusCode::Unset, message: None },
        attributes: TagMap::new(),
        kind: SpanKind::Client,
    }
}

#[test]
fn builder_starts_from_the_defaults() {
    let b = DatadogPipelineBuilder::new(7u8);
    assert_eq!(DEFAULT_SERVICE_NAME, "OpenTelemetry");
    assert_eq!(DEFAULT_AGENT_ENDPOINT, "http://127.0.0.1:8126");
    assert_eq!(b.service_name, "OpenTelemetry");
    assert_eq!(b.agent_endpoint, "http://127.0.0.1:8126");
    assert!(b.trace_config.is_none());
    assert_eq!(b.version, ApiVersion::Version05);
    assert_eq!(b.client, 7);
}

#[test]
fn builder_sets_one_setting_at_a_time() {
    let b = DatadogPipelineBuilder::new("client")
        .with_service_name("my_app".to_string())
        .with_version(ApiVersion::Version03)
        .with_agent_endpoint("http://localhost:9000".to_string())
        .with_trace_config(opentelemetry::sdk::trace::config().with_max_events_per_span(3));
    assert_eq!(b.service_name, "my_app");
    assert_eq!(b.agent_endpoint, "http://localhost:9000");
    assert_eq!(b.version, ApiVersion::Version03);
    assert_eq!(b.client, "client");
    assert_eq!(b.trace_config.as_ref().map(|c| c.max_events_per_span), Some(3));
}

#[test]
fn exporter_gets_the_endpoint_with_the_path_of_the_version() {
    let (exporter, config) = DatadogPipelineBuilder::new(1u32)
        .with_service_name("svc".to_string())
        .build_exporter()
        .unwrap();
    assert!(config.is_none());
    assert_eq!(exporter.request_url.to_string(), "http://127.0.0.1:8126/v0.5/traces");
    assert_eq!(exporter.service_name, "svc");
    assert_eq!(exporter.version, ApiVersion::Version05);
    assert_eq!(exporter.client, 1);
    let (old, _) = DatadogPipelineBuilder::new(())
        .with_version(ApiVersion::Version03)
        .with_agent_endpoint("http://agent:8126".to_string())
        .build_exporter()
        .unwrap();
    assert_eq!(old.request_url.to_string(), "http://agent:8126/v0.3/traces");
}

#[test]
fn exporter_keeps_the_trace_configuration_for_the_sdk() {
    let (_, config) = DatadogPipelineBuilder::new(())
        .with_trace_config(opentelemetry::sdk::trace::config().with_max_links_per_span(5))
        .build_exporter()
        .unwrap();
    assert_eq!(config.map(|c| c.max_links_per_span), Some(5));
}

#[test]
fn endpoint_that_is_no_address_is_refused() {
    let r = DatadogPipelineBuilder::new(())
        .with_agent_endpoint("http://bad host".to_string())
        .build_exporter();
    assert!(r.is_err());
    let empty = DatadogPipelineBuilder::new(())
        .with_agent_endpoint("http://\\".to_string())
        .build_exporter();
    assert!(empty.is_err());
}

#[test]
fn request_is_a_post_of_the_payload_with_the_content_type() {
    let url: http::Uri = "http://127.0.0.1:8126/v0.5/traces".parse().unwrap();
    let exporter = DatadogExporter::new("svc".to_string(), url, ApiVersion::Version05, ());
    let batch = vec![span_of(1, 1), span_of(1, 2)];
    let request = exporter.export_request(&batch).unwrap();
    assert_eq!(request.method(), http::Method::POST);
    assert_eq!(request.uri().to_string(), "http://127.0.0.1:8126/v0.5/traces");
    assert_eq!(request.headers().len(), 1);
    assert_eq!(
        request.headers().get(http::header::CONTENT_TYPE).unwrap(),
        "application/msgpack; version=0.5"
    );
    assert_eq!(request.body(), &ApiVersion::Version05.encode("svc", &batch).unwrap());
    let url03: http::Uri = "http://127.0.0.1:8126/v0.3/traces".parse().unwrap();
    let verbose = DatadogExporter::new("svc".to_string(), url03, ApiVersion::Version03, ());
    let request03 = verbose.export_request(&batch).unwrap();
    assert_eq!(
        request03.headers().get(http::header::CONTENT_TYPE).unwrap(),
        "application/msgpack"
    );
    assert_eq!(request03.body(), &ApiVersion::Version03.encode("svc", &batch).unwrap());
}

#[test]
fn request_that_could_not_be_built_fails_the_export_for_good() {
    let bad = http::Request::builder().header("bad header name", "x").body(Vec::new());
    assert!(bad.is_err());
    assert_eq!(request_or_failure(bad).unwrap_err(), ExportResult::FailedNotRetryable);
    let good = http::Request::builder().body(vec![1u8, 2, 3]);
    assert_eq!(request_or_failure(good).unwrap().body(), &vec![1u8, 2, 3]);
}

#[test]
fn export_ends_in_success_or_fails_for_good() {
    assert_eq!(
        DatadogExporter::<()>::export_result(Some(ExportResult::Success)),
        ExportResult::Success
    );
    assert_eq!(
        DatadogExporter::<()>::export_result(Some(ExportResult::FailedRetryable)),
        ExportResult::FailedNotRetryable
    );
    assert_eq!(
        DatadogExporter::<()>::export_result(Some(ExportResult::FailedNotRetryable)),
        ExportResult::FailedNotRetryable
    );
    assert_eq!(
        DatadogExporter::<()>::export_result(None),
        ExportResult::FailedNotRetryable
    );
}

#[test]
fn request_names_its_method_and_its_header() {
    assert_eq!(REQUEST_METHOD, "POST");
    assert_eq!(CONTENT_TYPE_HEADER, "content-type");
    assert_eq!(http::header::CONTENT_TYPE.as_str(), CONTENT_TYPE_HEADER);
    assert_eq!(http::Method::POST.as_str(), REQUEST_METHOD);
}
