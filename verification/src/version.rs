//! The two payload formats that an agent takes in, each with its path and
//! its content type.

use vstd::prelude::*;
use crate::error::EncodeError;
use crate::span::{Span, SpanView};
use crate::v03::{verbose_batch_fits, verbose_payload};
use crate::grouping::{groups, trace_ids};
use crate::v05::{batch_strings, compact_batch_fits, compact_payload, compact_traces, string_table,
    table_value};

verus! {

/// The version of the agent's trace intake, which decides the payload
/// format.
#[derive(Debug, Clone, Copy, PartialEq, Eq, Structural)]
pub enum ApiVersion {
    /// Version 0.3: the verbose format.
    Version03,
    /// Version 0.5: the compact format with a string table.
    Version05,
}

impl ApiVersion {
    /// The path of the intake below the agent's endpoint.
    pub open spec fn path_of(self) -> Seq<char> {
        match self {
            ApiVersion::Version03 => "/v0.3/traces"@,
            ApiVersion::Version05 => "/v0.5/traces"@,
        }
    }

    /// The content type that labels a payload of this version.
    pub open spec fn content_type_of(self) -> Seq<char> {
        match self {
            ApiVersion::Version03 => "application/msgpack"@,
            ApiVersion::Version05 => "application/msgpack; version=0.5"@,
        }
    }

    /// Whether the format of this version can carry the batch.
    pub open spec fn fits(self, spans: Seq<SpanView>, service: Seq<char>) -> bool {
        match self {
            ApiVersion::Version03 => verbose_batch_fits(spans, service),
            ApiVersion::Version05 => compact_batch_fits(spans, service),
        }
    }

    /// The payload of the batch in the format of this version.
    pub open spec fn payload(self, spans: Seq<SpanView>, service: Seq<char>) -> Seq<u8> {
        match self {
            ApiVersion::Version03 => verbose_payload(spans, service),
            ApiVersion::Version05 => compact_payload(spans, service),
        }
    }

    /// The two versions have different paths and different content types.
    pub proof fn lemma_versions_differ(self, other: ApiVersion)
        requires
            self != other,
        ensures
            self.path_of() != other.path_of(),
            self.content_type_of() != other.content_type_of(),
    {
        reveal_strlit("/v0.3/traces");
        reveal_strlit("/v0.5/traces");
        reveal_strlit("application/msgpack");
        reveal_strlit("application/msgpack; version=0.5");
        assert("/v0.3/traces"@[4] != "/v0.5/traces"@[4]);
        assert("application/msgpack"@.len() != "application/msgpack; version=0.5"@.len());
    }

    /// A batch without spans has a payload in either format: no traces in
    /// the verbose one, an empty table and no traces in the compact one.
    pub proof fn lemma_empty_batch(self, service: Seq<char>)
        ensures
            self.fits(Seq::empty(), service),
            self.payload(Seq::empty(), service) == match self {
                ApiVersion::Version03 => seq![0x90u8],
                ApiVersion::Version05 => seq![0x92u8, 0x90u8, 0x90u8],
            },
    {
        let spans = Seq::<SpanView>::empty();
        let ids = trace_ids(spans);
        assert(ids =~= Seq::empty());
        assert(groups(ids) =~= Seq::empty());
        assert(batch_strings(spans, service) =~= Seq::empty());
        assert(string_table(spans, service) =~= Seq::empty());
        assert(verbose_payload(spans, service) =~= seq![0x90u8]);
        assert(table_value(Seq::empty()) =~= seq![0x90u8]);
        assert(compact_traces(Seq::empty(), spans, service) =~= seq![0x90u8]);
        assert(compact_payload(spans, service) =~= seq![0x92u8, 0x90u8, 0x90u8]);
    }

    /// The path of the intake below the agent's endpoint.
    pub fn path(self) -> (r: &'static str)
        ensures
            r@ == self.path_of(),
    {
        match self {
            ApiVersion::Version03 => "/v0.3/traces",
            ApiVersion::Version05 => "/v0.5/traces",
        }
    }

    /// The content type that labels a payload of this version.
    pub fn content_type(self) -> (r: &'static str)
        ensures
            r@ == self.content_type_of(),
    {
        match self {
            ApiVersion::Version03 => "application/msgpack",
            ApiVersion::Version05 => "application/msgpack; version=0.5",
        }
    }

    /// The payload of a batch exported for the service `service_name`, or
    /// an error where the format cannot carry the batch. There is no
    /// payload for a part of a batch.
    pub fn encode(self, service_name: &str, spans: &Vec<Span>) -> (r: Result<Vec<u8>, EncodeError>)
        ensures
            r is Ok <==> self.fits(spans.deep_view(), service_name@),
            r matches Ok(bytes) ==> bytes@ == self.payload(spans.deep_view(), service_name@),
            r matches Err(e) ==> e == EncodeError::LengthOverflow,
    {
        match self {
            ApiVersion::Version03 => crate::v03::encode(service_name, spans),
            ApiVersion::Version05 => crate::v05::encode(service_name, spans),
        }
    }
}

impl Default for ApiVersion {
    /// The compact format.
    fn default() -> (r: Self)
        ensures
            r == ApiVersion::Version05,
    {
        ApiVersion::Version05
    }
}

} // verus!
