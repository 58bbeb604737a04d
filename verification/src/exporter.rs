//! The exporter: it turns a batch into the request for the agent, and says
//! how the export ended once the request was sent.

use vstd::prelude::*;
use crate::span::Span;
use crate::transport::{build_request, built_request, header_char, header_value_valid};
use crate::version::ApiVersion;

verus! {

/// How an export ended.
#[derive(Debug, Clone, Copy, PartialEq, Eq, Structural)]
pub enum ExportResult {
    /// The batch was exported.
    Success,
    /// The export failed, and the caller must not try again.
    FailedNotRetryable,
    /// The export failed for the moment. A client may say so; the exporter
    /// itself never does.
    FailedRetryable,
}

/// The method of the request that carries a payload to the agent.
pub const REQUEST_METHOD: &'static str = "POST";

/// The name of the header that labels the format of a payload.
pub const CONTENT_TYPE_HEADER: &'static str = "content-type";

/// Exports spans to a Datadog agent through the client `C`.
#[derive(Debug)]
pub struct DatadogExporter<C> {
    pub client: C,
    pub request_url: http::Uri,
    pub service_name: String,
    pub version: ApiVersion,
}

/// The content types of both versions are values that a header takes.
pub proof fn lemma_content_type_valid(version: ApiVersion)
    ensures
        header_value_valid(version.content_type_of()),
{
    reveal_strlit("application/msgpack");
    reveal_strlit("application/msgpack; version=0.5");
    let s = version.content_type_of();
    assert forall|i: int| 0 <= i < s.len() implies header_char(#[trigger] s[i]) by {
        if i < 8 {
        } else if i < 16 {
        } else if i < 24 {
        } else {
        }
    }
}

/// What the export of a batch comes to once the request was built, or
/// could not be built.
pub fn request_or_failure(built: Result<http::Request<Vec<u8>>, http::Error>) -> (r: Result<
    http::Request<Vec<u8>>,
    ExportResult,
>)
    ensures
        match built {
            Ok(request) => r == Ok::<http::Request<Vec<u8>>, ExportResult>(request),
            Err(_) => r == Err::<http::Request<Vec<u8>>, ExportResult>(ExportResult::FailedNotRetryable),
        },
{
    match built {
        Ok(request) => Ok(request),
        Err(_) => Err(ExportResult::FailedNotRetryable),
    }
}

impl<C> DatadogExporter<C> {
    /// An exporter for the service `service_name` that sends payloads of
    /// `version` to `request_url` through `client`.
    pub fn new(service_name: String, request_url: http::Uri, version: ApiVersion, client: C) -> (r: Self)
        ensures
            r.service_name == service_name,
            r.request_url == request_url,
            r.version == version,
            r.client == client,
    {
        DatadogExporter { client, request_url, service_name, version }
    }

    /// The request that carries `batch` to the agent: a POST to the
    /// exporter's address, labelled with the content type of its version,
    /// with the payload of the batch as its body. Where the format cannot
    /// carry the batch, the export has failed for good.
    pub fn export_request(&self, batch: &Vec<Span>) -> (r: Result<http::Request<Vec<u8>>, ExportResult>)
        ensures
            r is Ok <==> self.version.fits(batch.deep_view(), self.service_name@),
            r matches Ok(request) ==> request == built_request(
                REQUEST_METHOD@,
                self.request_url,
                CONTENT_TYPE_HEADER@,
                self.version.content_type_of(),
                self.version.payload(batch.deep_view(), self.service_name@),
            ),
            r matches Err(e) ==> e == ExportResult::FailedNotRetryable,
    {
        let data = match self.version.encode(self.service_name.as_str(), batch) {
            Ok(data) => data,
            Err(_) => {
                return Err(ExportResult::FailedNotRetryable);
            },
        };
        proof {
            lemma_content_type_valid(self.version);
        }
        request_or_failure(
            build_request(
                REQUEST_METHOD,
                &self.request_url,
                CONTENT_TYPE_HEADER,
                self.version.content_type(),
                data,
            ),
        )
    }

    /// How the export ended once the request was sent: a success where the
    /// client said so, and a failure for good in every other case, whether
    /// the client reported a failure of any kind or could not say.
    pub fn export_result(sent: Option<ExportResult>) -> (r: ExportResult)
        ensures
            r == (if sent == Some(ExportResult::Success) {
                ExportResult::Success
            } else {
                ExportResult::FailedNotRetryable
            }),
            r != ExportResult::FailedRetryable,
    {
        match sent {
            Some(ExportResult::Success) => ExportResult::Success,
            _ => ExportResult::FailedNotRetryable,
        }
    }
}

} // verus!
