//! The settings of an export pipeline, and the exporter that they give.

use vstd::prelude::*;
use vstd::string::StringExecFns;
use crate::exporter::DatadogExporter;
use crate::transport::{parse_uri, parsed_uri};
use crate::version::ApiVersion;

verus! {

/// `opentelemetry::sdk::trace::Config`, the trace configuration of the SDK.
/// The pipeline keeps it and hands it on; nothing is read from it.
#[verifier::external_type_specification]
#[verifier::external_body]
pub struct ExTraceConfig(opentelemetry::sdk::trace::Config);

/// Where an agent listens unless the pipeline is told otherwise.
pub const DEFAULT_AGENT_ENDPOINT: &'static str = "http://127.0.0.1:8126";

/// The service under which traces are grouped unless the pipeline is told
/// otherwise.
pub const DEFAULT_SERVICE_NAME: &'static str = "OpenTelemetry";

/// The settings of a pipeline that exports through the client `C`.
#[derive(Debug)]
pub struct DatadogPipelineBuilder<C> {
    pub service_name: String,
    pub agent_endpoint: String,
    /// Handed on to the tracing SDK as it is.
    pub trace_config: Option<opentelemetry::sdk::trace::Config>,
    pub version: ApiVersion,
    pub client: C,
}

impl<C> DatadogPipelineBuilder<C> {
    /// The address of the agent's intake: the endpoint, then the path of the
    /// version.
    pub open spec fn request_url_text(self) -> Seq<char> {
        self.agent_endpoint@ + self.version.path_of()
    }

    /// The default settings with `client`: the default service, the default
    /// endpoint, the compact format, no trace configuration.
    pub fn new(client: C) -> (r: Self)
        ensures
            r.service_name@ == DEFAULT_SERVICE_NAME@,
            r.agent_endpoint@ == DEFAULT_AGENT_ENDPOINT@,
            r.trace_config is None,
            r.version == ApiVersion::Version05,
            r.client == client,
    {
        DatadogPipelineBuilder {
            service_name: DEFAULT_SERVICE_NAME.to_owned(),
            agent_endpoint: DEFAULT_AGENT_ENDPOINT.to_owned(),
            trace_config: None,
            version: ApiVersion::Version05,
            client,
        }
    }

    /// The exporter that the settings describe, and the trace configuration
    /// for the SDK; or the error of the parser where the address of the
    /// intake is none.
    pub fn build_exporter(self) -> (r: Result<
        (DatadogExporter<C>, Option<opentelemetry::sdk::trace::Config>),
        http::uri::InvalidUri,
    >)
        ensures
            match r {
                Ok((exporter, config)) => {
                    &&& parsed_uri(self.request_url_text()) == Some(exporter.request_url)
                    &&& exporter.service_name == self.service_name
                    &&& exporter.version == self.version
                    &&& exporter.client == self.client
                    &&& config == self.trace_config
                },
                Err(_) => parsed_uri(self.request_url_text()) is None,
            },
    {
        let version = self.version;
        let endpoint = self.agent_endpoint.concat(version.path());
        match parse_uri(endpoint.as_str()) {
            Ok(url) => Ok((DatadogExporter::new(self.service_name, url, version, self.client), self.trace_config)),
            Err(e) => Err(e),
        }
    }

    /// Sets the service under which traces are grouped.
    pub fn with_service_name(self, name: String) -> (r: Self)
        ensures
            r.service_name == name,
            r.agent_endpoint == self.agent_endpoint,
            r.trace_config == self.trace_config,
            r.version == self.version,
            r.client == self.client,
    {
        let mut r = self;
        r.service_name = name;
        r
    }

    /// Sets the endpoint at which the agent listens.
    pub fn with_agent_endpoint(self, endpoint: String) -> (r: Self)
        ensures
            r.service_name == self.service_name,
            r.agent_endpoint == endpoint,
            r.trace_config == self.trace_config,
            r.version == self.version,
            r.client == self.client,
    {
        let mut r = self;
        r.agent_endpoint = endpoint;
        r
    }

    /// Sets the trace configuration for the SDK.
    pub fn with_trace_config(self, config: opentelemetry::sdk::trace::Config) -> (r: Self)
        ensures
            r.service_name == self.service_name,
            r.agent_endpoint == self.agent_endpoint,
            r.trace_config == Some(config),
            r.version == self.version,
            r.client == self.client,
    {
        let mut r = self;
        r.trace_config = Some(config);
        r
    }

    /// Sets the version of the agent's intake.
    pub fn with_version(self, version: ApiVersion) -> (r: Self)
        ensures
            r.service_name == self.service_name,
            r.agent_endpoint == self.agent_endpoint,
            r.trace_config == self.trace_config,
            r.version == version,
            r.client == self.client,
    {
        let mut r = self;
        r.version = version;
        r
    }
}

} // verus!
