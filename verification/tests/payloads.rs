use datadog_exporter::intern::StringInterner;
use datadog_exporter::mapping::map_span;
use datadog_exporter::span::{AttributeValue, Span, SpanKind, Status, StatusCode};
use datadog_exporter::tags::TagMap;
use datadog_exporter::version::ApiVersion;
use datadog_exporter::{v03, v05};

fn span_of(trace_id: u128, span_id: u64, name: &str) -> Span {
    Span {
        trace_id,
        span_id,
        parent_span_id: None,
        name: name.to_string(),
        start_time: 5,
        duration: 1_500_000,
        status: Status { code: StatusCode::Success, message: None },
        attributes: TagMap::new(),
        kind: SpanKind::Internal,
    }
}

fn put_str(out: &mut Vec<u8>, s: &str) {
    assert!(s.len() < 32);
    out.push(0xa0 + s.len() as u8);
    out.extend_from_slice(s.as_bytes());
}

fn put_u32(out: &mut Vec<u8>, v: u32) {
    out.push(0xce);
    out.extend_from_slice(&v.to_be_bytes());
}

fn put_u64(out: &mut Vec<u8>, v: u64) {
    out.push(0xcf);
    out.extend_from_slice(&v.to_be_bytes());
}

fn put_i64(out: &mut Vec<u8>, v: i64) {
    out.push(0xd3);
    out.extend_from_slice(&v.to_be_bytes());
}

fn put_i32(out: &mut Vec<u8>, v: i32) {
    out.push(0xd2);
    out.extend_from_slice(&v.to_be_bytes());
}

/// A reader of the values that the payloads are made of.
struct Reader<'a> {
    bytes: &'a [u8],
    at: usize,
}

impl<'a> Reader<'a> {
    fn new(bytes: &'a [u8]) -> Self {
        Reader { bytes, at: 0 }
    }

    fn byte(&mut self) -> u8 {
        let b = self.bytes[self.at];
        self.at += 1;
        b
    }

    fn be(&mut self, n: usize) -> u64 {
        let mut v: u64 = 0;
        for _ in 0..n {
            v = (v << 8) | self.byte() as u64;
        }
        v
    }

    fn count(&mut self, fix: u8, tag16: u8) -> usize {
        let b = self.byte();
        if b >= fix && b < fix + 16 {
            (b - fix) as usize
        } else if b == tag16 {
            self.be(2) as usize
        } else {
            assert_eq!(b, tag16 + 1);
            self.be(4) as usize
        }
    }

    fn array(&mut self) -> usize {
        self.count(0x90, 0xdc)
    }

    fn map(&mut self) -> usize {
        self.count(0x80, 0xde)
    }

    fn string(&mut self) -> String {
        let b = self.byte();
        let len = if (0xa0..0xc0).contains(&b) {
            (b - 0xa0) as usize
        } else if b == 0xd9 {
            self.be(1) as usize
        } else if b == 0xda {
            self.be(2) as usize
        } else {
            assert_eq!(b, 0xdb);
            self.be(4) as usize
        };
        let s = std::str::from_utf8(&self.bytes[self.at..self.at + len]).unwrap().to_string();
        self.at += len;
        s
    }

    fn tagged(&mut self, tag: u8, n: usize) -> u64 {
        assert_eq!(self.byte(), tag);
        self.be(n)
    }

    fn index(&mut self) -> usize {
        self.tagged(0xce, 4) as usize
    }

    fn done(&self) -> bool {
        self.at == self.bytes.len()
    }
}

struct Record {
    service: String,
    name: String,
    resource: String,
    service_index: usize,
    trace_id: u64,
    span_id: u64,
    parent_id: u64,
    start: i64,
    duration: i64,
    error: i32,
    meta: Vec<(String, String)>,
    metrics: Vec<(String, f64)>,
    span_type: String,
}

fn read_compact(bytes: &[u8]) -> (Vec<String>, Vec<Vec<Record>>) {
    let mut r = Reader::new(bytes);
    assert_eq!(r.array(), 2);
    let n = r.array();
    let mut table = Vec::new();
    for _ in 0..n {
        table.push(r.string());
    }
    let mut traces = Vec::new();
    for _ in 0..r.array() {
        let mut trace = Vec::new();
        for _ in 0..r.array() {
            assert_eq!(r.array(), 12);
            let service_index = r.index();
            let name = table[r.index()].clone();
            let resource = table[r.index()].clone();
            let trace_id = r.tagged(0xcf, 8);
            let span_id = r.tagged(0xcf, 8);
            let parent_id = r.tagged(0xcf, 8);
            let start = r.tagged(0xd3, 8) as i64;
            let duration = r.tagged(0xd3, 8) as i64;
            let error = r.tagged(0xd2, 4) as u32 as i32;
            let mut meta = Vec::new();
            for _ in 0..r.map() {
                let k = table[r.index()].clone();
                let v = table[r.index()].clone();
                meta.push((k, v));
            }
            let mut metrics = Vec::new();
            for _ in 0..r.map() {
                let k = table[r.index()].clone();
                let v = f64::from_bits(r.tagged(0xcb, 8));
                metrics.push((k, v));
            }
            let span_type = table[r.index()].clone();
            trace.push(Record {
                service: table[service_index].clone(),
                name,
                resource,
                service_index,
                trace_id,
                span_id,
                parent_id,
                start,
                duration,
                error,
                meta,
                metrics,
                span_type,
            });
        }
        traces.push(trace);
    }
    assert!(r.done());
    (table, traces)
}

#[test]
fn empty_batch_has_an_empty_payload_in_both_formats() {
    let none: Vec<Span> = Vec::new();
    assert_eq!(ApiVersion::Version03.encode("svc", &none), Ok(vec![0x90]));
    assert_eq!(ApiVersion::Version05.encode("svc", &none), Ok(vec![0x92, 0x90, 0x90]));
    let (table, traces) = read_compact(&v05::encode("svc", &none).unwrap());
    assert!(table.is_empty());
    assert!(traces.is_empty());
}

#[test]
fn compact_payload_of_one_plain_span_byte_by_byte() {
    let spans = vec![span_of(0x0102_0304_0506_0708_090A_0B0C_0D0E_0F10, 0x42, "r")];
    let mut expected = vec![0x92, 0x94];
    put_str(&mut expected, "s");
    put_str(&mut expected, "opentelemetry-datadog");
    put_str(&mut expected, "r");
    put_str(&mut expected, "");
    expected.extend_from_slice(&[0x91, 0x91, 0x9c]);
    put_u32(&mut expected, 0);
    put_u32(&mut expected, 1);
    put_u32(&mut expected, 2);
    put_u64(&mut expected, 0x090A_0B0C_0D0E_0F10);
    put_u64(&mut expected, 0x42);
    put_u64(&mut expected, 0);
    put_i64(&mut expected, 5);
    put_i64(&mut expected, 1_500_000);
    put_i32(&mut expected, 0);
    expected.push(0x80);
    expected.push(0x80);
    put_u32(&mut expected, 3);
    assert_eq!(v05::encode("s", &spans), Ok(expected));
}

#[test]
fn verbose_payload_of_one_plain_span_byte_by_byte() {
    let spans = vec![span_of(0x0102_0304_0506_0708_090A_0B0C_0D0E_0F10, 0x42, "GET /users")];
    let mut expected = vec![0x91, 0x91, 0x8b];
    put_str(&mut expected, "service");
    put_str(&mut expected, "svc");
    put_str(&mut expected, "name");
    put_str(&mut expected, "opentelemetry-datadog");
    put_str(&mut expected, "resource");
    put_str(&mut expected, "GET /users");
    put_str(&mut expected, "trace_id");
    put_u64(&mut expected, 0x090A_0B0C_0D0E_0F10);
    put_str(&mut expected, "span_id");
    put_u64(&mut expected, 0x42);
    put_str(&mut expected, "parent_id");
    put_u64(&mut expected, 0);
    put_str(&mut expected, "start");
    put_i64(&mut expected, 5);
    put_str(&mut expected, "duration");
    put_i64(&mut expected, 1_500_000);
    put_str(&mut expected, "error");
    put_i32(&mut expected, 0);
    put_str(&mut expected, "meta");
    expected.push(0x80);
    put_str(&mut expected, "metrics");
    expected.push(0x80);
    assert_eq!(v03::encode("svc", &spans), Ok(expected));
}

#[test]
fn verbose_span_with_type_and_maps_byte_by_byte() {
    let mut span = span_of(1, 2, "op");
    span.parent_span_id = Some(9);
    span.duration = -5;
    span.status = Status { code: StatusCode::Error, message: Some("bad".to_string()) };
    span.attributes.insert("span.type".to_string(), AttributeValue::Str("web".to_string()));
    span.attributes.insert("n".to_string(), AttributeValue::Int(2));
    span.attributes.insert("f".to_string(), AttributeValue::Bool(false));
    let mut expected = vec![0x8c];
    put_str(&mut expected, "type");
    put_str(&mut expected, "web");
    put_str(&mut expected, "service");
    put_str(&mut expected, "svc");
    put_str(&mut expected, "name");
    put_str(&mut expected, "opentelemetry-datadog");
    put_str(&mut expected, "resource");
    put_str(&mut expected, "op");
    put_str(&mut expected, "trace_id");
    put_u64(&mut expected, 1);
    put_str(&mut expected, "span_id");
    put_u64(&mut expected, 2);
    put_str(&mut expected, "parent_id");
    put_u64(&mut expected, 9);
    put_str(&mut expected, "start");
    put_i64(&mut expected, 5);
    put_str(&mut expected, "duration");
    put_i64(&mut expected, 0);
    put_str(&mut expected, "error");
    put_i32(&mut expected, 1);
    put_str(&mut expected, "meta");
    expected.push(0x83);
    put_str(&mut expected, "error.msg");
    put_str(&mut expected, "bad");
    put_str(&mut expected, "f");
    put_str(&mut expected, "false");
    put_str(&mut expected, "span.type");
    put_str(&mut expected, "web");
    put_str(&mut expected, "metrics");
    expected.push(0x81);
    put_str(&mut expected, "n");
    expected.push(0xcb);
    expected.extend_from_slice(&2f64.to_be_bytes());
    let mut buf = vec![0xff];
    assert_eq!(v03::encode_span(&mut buf, &map_span(&span, "svc")), Ok(()));
    assert_eq!(buf[0], 0xff);
    assert_eq!(&buf[1..], &expected[..]);
}

#[test]
fn verbose_payload_has_one_array_for_each_trace() {
    let spans = vec![span_of(1, 1, "a"), span_of(2, 2, "b"), span_of(1, 3, "c")];
    let bytes = v03::encode("svc", &spans).unwrap();
    let mut single = Vec::new();
    for s in spans.iter() {
        let mut one = Vec::new();
        assert_eq!(v03::encode_span(&mut one, &map_span(s, "svc")), Ok(()));
        single.push(one);
    }
    let mut expected = vec![0x92, 0x92];
    expected.extend_from_slice(&single[0]);
    expected.extend_from_slice(&single[2]);
    expected.push(0x91);
    expected.extend_from_slice(&single[1]);
    assert_eq!(bytes, expected);
}

#[test]
fn scenario_two_spans_share_the_service_string() {
    let spans = vec![span_of(1, 1, "first"), span_of(2, 2, "second")];
    let bytes = v05::encode("my-service", &spans).unwrap();
    let (table, traces) = read_compact(&bytes);
    assert_eq!(table.iter().filter(|s| s.as_str() == "my-service").count(), 1);
    assert_eq!(traces.len(), 2);
    assert_eq!(traces[0].len(), 1);
    assert_eq!(traces[1].len(), 1);
    assert_eq!(traces[0][0].service_index, traces[1][0].service_index);
    assert_eq!(table[traces[0][0].service_index], "my-service");
    assert_eq!(
        table,
        vec!["my-service", "opentelemetry-datadog", "first", "", "second"]
    );
}

#[test]
fn compact_payload_reads_back_to_the_mapped_spans() {
    let mut a = span_of(10, 1, "GET /users");
    a.attributes.insert("http.method".to_string(), AttributeValue::Str("GET".to_string()));
    a.attributes.insert("http.status_code".to_string(), AttributeValue::Int(200));
    a.attributes.insert("span.type".to_string(), AttributeValue::Str("web".to_string()));
    let mut b = span_of(11, 2, "query");
    b.parent_span_id = Some(1);
    b.status = Status { code: StatusCode::Error, message: Some("timeout".to_string()) };
    b.attributes.insert("db.rows".to_string(), AttributeValue::Double(12.5f64.to_bits()));
    b.attributes.insert("cached".to_string(), AttributeValue::Bool(true));
    let mut c = span_of(10, 3, "GET /users");
    c.duration = -7;
    let spans = vec![a, b, c];
    let bytes = ApiVersion::Version05.encode("shop", &spans).unwrap();
    let (table, traces) = read_compact(&bytes);
    let mut sorted = table.clone();
    sorted.sort();
    sorted.dedup();
    assert_eq!(sorted.len(), table.len());
    let order = [vec![0usize, 2], vec![1]];
    assert_eq!(traces.len(), order.len());
    for (g, group) in order.iter().enumerate() {
        assert_eq!(traces[g].len(), group.len());
        for (k, i) in group.iter().enumerate() {
            let m = map_span(&spans[*i], "shop");
            let r = &traces[g][k];
            assert_eq!(r.service, "shop");
            assert_eq!(r.name, "opentelemetry-datadog");
            assert_eq!(r.resource, spans[*i].name);
            assert_eq!(r.trace_id, m.trace_id);
            assert_eq!(r.span_id, m.span_id);
            assert_eq!(r.parent_id, m.parent_id);
            assert_eq!(r.start, m.start);
            assert_eq!(r.duration, m.duration);
            assert_eq!(r.error, m.error);
            assert_eq!(r.span_type, m.span_type.clone().unwrap_or_default());
            assert_eq!(r.meta.len(), m.meta.len());
            for (j, (key, value)) in r.meta.iter().enumerate() {
                let (k0, v0) = m.meta.get_index(j).unwrap();
                assert_eq!((key, value), (k0, v0));
            }
            assert_eq!(r.metrics.len(), m.metrics.len());
            for (j, (key, value)) in r.metrics.iter().enumerate() {
                let (k0, v0) = m.metrics.get_index(j).unwrap();
                assert_eq!(key, k0);
                assert_eq!(value.to_bits(), *v0);
            }
        }
    }
    assert_eq!(traces[0][1].duration, 0);
    assert_eq!(traces[1][0].error, 1);
    assert_eq!(traces[0][0].metrics, vec![("http.status_code".to_string(), 200.0)]);
    assert_eq!(
        traces[1][0].meta,
        vec![
            ("cached".to_string(), "true".to_string()),
            ("error.msg".to_string(), "timeout".to_string())
        ]
    );
}

#[test]
fn compact_span_notes_its_strings_in_the_order_of_writing() {
    let mut span = span_of(1, 2, "res");
    span.attributes.insert("k".to_string(), AttributeValue::Str("v".to_string()));
    span.attributes.insert("n".to_string(), AttributeValue::Int(1));
    let mut interner = StringInterner::new();
    assert_eq!(interner.intern("v"), Ok(0));
    let mut buf = Vec::new();
    assert_eq!(v05::encode_span(&mut buf, &mut interner, &map_span(&span, "svc")), Ok(()));
    assert_eq!(
        interner.drain(),
        vec!["v", "svc", "opentelemetry-datadog", "res", "k", "n", ""]
    );
    let mut expected = vec![0x9c];
    put_u32(&mut expected, 1);
    put_u32(&mut expected, 2);
    put_u32(&mut expected, 3);
    put_u64(&mut expected, 1);
    put_u64(&mut expected, 2);
    put_u64(&mut expected, 0);
    put_i64(&mut expected, 5);
    put_i64(&mut expected, 1_500_000);
    put_i32(&mut expected, 0);
    expected.push(0x81);
    put_u32(&mut expected, 4);
    put_u32(&mut expected, 0);
    expected.push(0x81);
    put_u32(&mut expected, 5);
    expected.push(0xcb);
    expected.extend_from_slice(&1f64.to_be_bytes());
    put_u32(&mut expected, 6);
    assert_eq!(buf, expected);
}

#[test]
fn encoding_twice_gives_the_same_bytes() {
    let mut span = span_of(3, 4, "op");
    for k in ["b", "a", "d", "c"] {
        span.attributes.insert(k.to_string(), AttributeValue::Str(k.to_uppercase()));
    }
    let spans = vec![span];
    for version in [ApiVersion::Version03, ApiVersion::Version05] {
        assert_eq!(version.encode("svc", &spans), version.encode("svc", &spans));
    }
}

#[test]
fn versions_have_their_paths_and_content_types() {
    assert_eq!(ApiVersion::Version03.path(), "/v0.3/traces");
    assert_eq!(ApiVersion::Version05.path(), "/v0.5/traces");
    assert_eq!(ApiVersion::Version03.content_type(), "application/msgpack");
    assert_eq!(ApiVersion::Version05.content_type(), "application/msgpack; version=0.5");
    assert_ne!(ApiVersion::Version03.content_type(), ApiVersion::Version05.content_type());
    assert_eq!(ApiVersion::default(), ApiVersion::Version05);
}
