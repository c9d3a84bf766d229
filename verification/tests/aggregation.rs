use nginx_stats::bucket::{HourPhase, ParseNginxLogHour};
use nginx_stats::method::Method;
use nginx_stats::metrics::{Metrics, Sample};
use nginx_stats::node::{RequestNode, ServerStatistic};
use nginx_stats::path::{
    classify, join_path, normalize_path, segment_kind, split_path, strip_minutes, SegmentKind,
};
use nginx_stats::request::{
    deserialize_request_path, normalize_record, request_path_of, LogRecord, NormalizedRequest,
};
use nginx_stats::store::{parse_nginx_log, ParseNginxLog};

fn record(time: &str, status: u16, bytes: u32, ms: u64, request: &str) -> LogRecord {
    LogRecord {
        time_iso8601: time.to_string(),
        host: "example.org".to_string(),
        remote_addr: vec![49, 50, 55],
        status,
        bytes_sent: bytes,
        request_time_ms: ms,
        request: request.to_string(),
    }
}

fn request(hour: &str, method: Method, path: &str, bytes: u32, ms: u64, status: u16) -> NormalizedRequest {
    NormalizedRequest {
        hour_timestamp: hour.to_string(),
        method,
        normalized_path: path.to_string(),
        bytes_sent: bytes,
        duration_ms: ms,
        status_code: status,
    }
}

fn row(
    hour: &str,
    method: Option<&str>,
    path: &str,
    count: u64,
    bytes: u64,
    total: u64,
    min: u64,
    max: u64,
    errors: u64,
) -> ServerStatistic {
    ServerStatistic {
        access_timestamp: hour.to_string(),
        http_method: method.map(|m| m.to_string()),
        path: path.to_string(),
        count,
        bytes_sent: bytes,
        total_duration: total,
        min_duration: min,
        max_duration: max,
        errors,
    }
}

fn sorted(mut rows: Vec<ServerStatistic>) -> Vec<ServerStatistic> {
    rows.sort_by(|a, b| {
        (&a.access_timestamp, &a.path, &a.http_method).cmp(&(
            &b.access_timestamp,
            &b.path,
            &b.http_method,
        ))
    });
    rows
}

const T1: &str = "2021-03-04T05:06:07+00:00";
const H1: &str = "2021-03-04 05:00";

#[test]
fn metrics_start_empty() {
    let m = Metrics::default();
    assert_eq!(m.count, 0);
    assert_eq!(m.bytes, 0);
    assert_eq!(m.duration_sum, 0);
    assert_eq!(m.min_duration, None);
    assert_eq!(m.max_duration, None);
    assert_eq!(m.errors, 0);
    assert!(!m.observed());
}

#[test]
fn increment_counts_one_request() {
    let mut m = Metrics::default();
    m.increment(&Sample { bytes_sent: 100, duration_ms: 12, status_code: 200 });
    m.increment(&Sample { bytes_sent: 50, duration_ms: 7, status_code: 200 });
    m.increment(&Sample { bytes_sent: 1, duration_ms: 30, status_code: 302 });
    assert_eq!(
        m,
        Metrics {
            count: 3,
            bytes: 151,
            duration_sum: 49,
            min_duration: Some(7),
            max_duration: Some(30),
            errors: 0,
        }
    );
    assert!(m.observed());
}

#[test]
fn status_500_is_an_error_and_404_is_not() {
    let mut m = Metrics::default();
    m.increment(&Sample { bytes_sent: 0, duration_ms: 1, status_code: 404 });
    assert_eq!(m.errors, 0);
    m.increment(&Sample { bytes_sent: 0, duration_ms: 1, status_code: 499 });
    assert_eq!(m.errors, 0);
    m.increment(&Sample { bytes_sent: 0, duration_ms: 1, status_code: 500 });
    assert_eq!(m.errors, 1);
    m.increment(&Sample { bytes_sent: 0, duration_ms: 1, status_code: 503 });
    assert_eq!(m.errors, 2);
    assert_eq!(m.count, 4);
}

#[test]
fn default_with_request_is_one_increment() {
    let s = Sample { bytes_sent: 9, duration_ms: 4, status_code: 500 };
    let m = Metrics::default_with_request(&s);
    assert_eq!(
        m,
        Metrics {
            count: 1,
            bytes: 9,
            duration_sum: 4,
            min_duration: Some(4),
            max_duration: Some(4),
            errors: 1,
        }
    );
}

#[test]
fn merge_treats_absent_bounds_as_identity() {
    let some = Metrics {
        count: 2,
        bytes: 10,
        duration_sum: 8,
        min_duration: Some(3),
        max_duration: Some(5),
        errors: 1,
    };
    let mut left = Metrics::default();
    left.increment_with_metric(&some);
    assert_eq!(left, some);
    let mut right = some;
    right.increment_with_metric(&Metrics::default());
    assert_eq!(right, some);
}

#[test]
fn merge_sums_and_widens() {
    let mut a = Metrics {
        count: 2,
        bytes: 10,
        duration_sum: 8,
        min_duration: Some(3),
        max_duration: Some(5),
        errors: 1,
    };
    let b = Metrics {
        count: 3,
        bytes: 5,
        duration_sum: 20,
        min_duration: Some(1),
        max_duration: Some(4),
        errors: 0,
    };
    a.increment_with_metric(&b);
    assert_eq!(
        a,
        Metrics {
            count: 5,
            bytes: 15,
            duration_sum: 28,
            min_duration: Some(1),
            max_duration: Some(5),
            errors: 1,
        }
    );
}

#[test]
fn merge_is_associative_on_halves() {
    let samples = [
        Sample { bytes_sent: 1, duration_ms: 9, status_code: 200 },
        Sample { bytes_sent: 2, duration_ms: 3, status_code: 500 },
        Sample { bytes_sent: 3, duration_ms: 11, status_code: 404 },
        Sample { bytes_sent: 4, duration_ms: 6, status_code: 502 },
    ];
    let mut whole = Metrics::default();
    for s in samples.iter() {
        whole.increment(s);
    }
    let mut first = Metrics::default();
    first.increment(&samples[0]);
    first.increment(&samples[1]);
    let mut second = Metrics::default();
    second.increment(&samples[2]);
    second.increment(&samples[3]);
    let mut joined = first;
    joined.increment_with_metric(&second);
    assert_eq!(joined, whole);
    let mut other_way = second;
    other_way.increment_with_metric(&first);
    assert_eq!(other_way, whole);
    assert_eq!(whole.count, 4);
    assert_eq!(whole.bytes, 10);
    assert_eq!(whole.duration_sum, 29);
    assert_eq!(whole.min_duration, Some(3));
    assert_eq!(whole.max_duration, Some(11));
    assert_eq!(whole.errors, 2);
}

#[test]
fn sums_stay_at_the_largest_value() {
    let mut m = Metrics {
        count: u64::MAX,
        bytes: u64::MAX - 1,
        duration_sum: u64::MAX - 5,
        min_duration: Some(1),
        max_duration: Some(1),
        errors: u64::MAX,
    };
    m.increment(&Sample { bytes_sent: 7, duration_ms: 5, status_code: 500 });
    assert_eq!(m.count, u64::MAX);
    assert_eq!(m.bytes, u64::MAX);
    assert_eq!(m.duration_sum, u64::MAX);
    assert_eq!(m.errors, u64::MAX);
    assert_eq!(m.max_duration, Some(5));
}

#[test]
fn method_tokens_are_told_apart() {
    assert_eq!(Method::from_token("GET"), Method::Get);
    assert_eq!(Method::from_token("HEAD"), Method::Head);
    assert_eq!(Method::from_token("POST"), Method::Post);
    assert_eq!(Method::from_token("PUT"), Method::Put);
    assert_eq!(Method::from_token("DELETE"), Method::Delete);
    assert_eq!(Method::from_token("CONNECT"), Method::Connect);
    assert_eq!(Method::from_token("OPTIONS"), Method::Options);
    assert_eq!(Method::from_token("TRACE"), Method::Trace);
    assert_eq!(Method::from_token("PATCH"), Method::Patch);
    assert_eq!(Method::from_token("get"), Method::Unparsed);
    assert_eq!(Method::from_token("PROPFIND"), Method::Unparsed);
    assert_eq!(Method::from_token(""), Method::Unparsed);
    assert_eq!(Method::from_token("G T"), Method::Unparsed);
}

#[test]
fn method_names_and_indices_agree() {
    for i in 0..10 {
        assert_eq!(Method::at(i).index(), i);
    }
    assert_eq!(Method::Get.name(), "GET");
    assert_eq!(Method::Patch.name(), "PATCH");
    assert_eq!(Method::from_token(Method::Delete.name()), Method::Delete);
}

#[test]
fn segments_are_classified_by_priority() {
    assert_eq!(segment_kind("42"), SegmentKind::Int);
    assert_eq!(segment_kind("550e8400-e29b-41d4-a716-446655440000"), SegmentKind::Uuid);
    assert_eq!(segment_kind("550E8400-E29B-41D4-A716-446655440000"), SegmentKind::Uuid);
    assert_eq!(segment_kind("abc123"), SegmentKind::ContainsDigit);
    assert_eq!(segment_kind("users"), SegmentKind::Plain);
    assert_eq!(segment_kind(""), SegmentKind::Plain);
    assert_eq!(segment_kind("99999999999"), SegmentKind::ContainsDigit);
    assert_eq!(segment_kind("550e8400-e29b-41d4-a716-44665544000"), SegmentKind::ContainsDigit);
    assert_eq!(classify(true, Some(true), Some(true)), SegmentKind::Int);
    assert_eq!(classify(false, Some(true), Some(true)), SegmentKind::Uuid);
    assert_eq!(classify(false, Some(false), Some(true)), SegmentKind::ContainsDigit);
    assert_eq!(classify(false, None, None), SegmentKind::Plain);
}

#[test]
fn paths_become_templates() {
    assert_eq!(normalize_path("/api/users/42"), "/api/users/<INT>");
    assert_eq!(normalize_path("/api/users/77"), "/api/users/<INT>");
    assert_eq!(
        normalize_path("/x/550e8400-e29b-41d4-a716-446655440000/y"),
        "/x/<UUID>/y"
    );
    assert_eq!(normalize_path("/files/abc123"), "/files/<CONTAINS_DIGIT>");
    assert_eq!(normalize_path("/plain/path"), "/plain/path");
}

#[test]
fn trailing_separator_is_dropped() {
    assert_eq!(normalize_path("/api/users/"), "/api/users");
    assert_eq!(normalize_path("/"), "");
    assert_eq!(normalize_path("/a//b"), "/a//b");
    assert_eq!(normalize_path("/a//"), "/a/");
}

#[test]
fn split_and_join_are_inverse() {
    let parts = split_path("/a/b//c/");
    assert_eq!(parts, vec!["", "a", "b", "", "c", ""]);
    assert_eq!(join_path(&parts), "/a/b//c/");
    assert_eq!(split_path(""), vec![""]);
    assert_eq!(split_path("abc"), vec!["abc"]);
    assert_eq!(join_path(&Vec::new()), "");
}

#[test]
fn timestamps_are_cut_to_the_hour() {
    assert_eq!(strip_minutes(T1), H1);
    assert_eq!(strip_minutes("2021-03-04T23:59:59"), "2021-03-04 23:00");
    assert_eq!(strip_minutes("2021-03-04T05"), "2021-03-04T05");
    assert_eq!(strip_minutes("2021-03-04T05:"), "2021-03-04 05:00");
    assert_eq!(strip_minutes(""), "");
    assert_eq!(strip_minutes("garbage"), "garbage");
}

#[test]
fn request_lines_are_read() {
    let r = deserialize_request_path("GET /api/users/42?page=2 HTTP/1.1");
    assert_eq!(r.http_method, Method::Get);
    assert_eq!(r.path, "/api/users/<INT>");
    let r = deserialize_request_path("POST /upload#top HTTP/1.1");
    assert_eq!(r.http_method, Method::Post);
    assert_eq!(r.path, "/upload");
    let r = deserialize_request_path("DELETE /a/b/ HTTP/1.1");
    assert_eq!(r.http_method, Method::Delete);
    assert_eq!(r.path, "/a/b");
}

#[test]
fn unrecognized_request_lines_give_the_sentinel() {
    for line in ["PROPFIND /x HTTP/1.1", "get /x HTTP/1.1", "", "GET", "GET x", "\\x16\\x03\\x01"] {
        let r = deserialize_request_path(line);
        assert_eq!(r.http_method, Method::Unparsed);
        assert_eq!(r.path, "");
    }
}

#[test]
fn groups_decide_method_and_path() {
    let none = request_path_of(&None);
    assert_eq!(none.http_method, Method::Unparsed);
    assert_eq!(none.path, "");
    let short = request_path_of(&Some(vec![Some("GET /x".to_string()), Some("GET".to_string())]));
    assert_eq!(short.http_method, Method::Unparsed);
    assert_eq!(short.path, "");
    let missing = request_path_of(&Some(vec![None, Some("GET".to_string()), None]));
    assert_eq!(missing.http_method, Method::Unparsed);
    let odd = request_path_of(&Some(vec![None, Some("FOO".to_string()), Some("/x/1".to_string())]));
    assert_eq!(odd.http_method, Method::Unparsed);
    assert_eq!(odd.path, "");
    let good = request_path_of(&Some(vec![
        Some("PUT /x/1".to_string()),
        Some("PUT".to_string()),
        Some("/x/1".to_string()),
    ]));
    assert_eq!(good.http_method, Method::Put);
    assert_eq!(good.path, "/x/<INT>");
}

#[test]
fn records_are_normalized() {
    let r = normalize_record(&record(T1, 503, 2048, 125, "PATCH /items/7/ HTTP/2.0"));
    assert_eq!(r.hour_timestamp, H1);
    assert_eq!(r.method, Method::Patch);
    assert_eq!(r.normalized_path, "/items/<INT>");
    assert_eq!(r.bytes_sent, 2048);
    assert_eq!(r.duration_ms, 125);
    assert_eq!(r.status_code, 503);
}

#[test]
fn leaf_counts_total_and_method() {
    let mut leaf = RequestNode::default_with_request(request(H1, Method::Get, "/a/b", 10, 5, 200));
    assert_eq!(leaf.path, "/a/b");
    assert_eq!(leaf.total.count, 1);
    assert!(leaf.children.is_empty());
    leaf.increment(&request(H1, Method::Post, "/a/b", 20, 9, 500));
    leaf.increment(&request(H1, Method::Get, "/a/b", 30, 1, 200));
    assert_eq!(
        leaf.total,
        Metrics {
            count: 3,
            bytes: 60,
            duration_sum: 15,
            min_duration: Some(1),
            max_duration: Some(9),
            errors: 1,
        }
    );
    assert_eq!(
        leaf.per_method.get(Method::Get),
        Some(Metrics {
            count: 2,
            bytes: 40,
            duration_sum: 6,
            min_duration: Some(1),
            max_duration: Some(5),
            errors: 0,
        })
    );
    assert_eq!(leaf.per_method.get(Method::Post).map(|m| m.count), Some(1));
    assert_eq!(leaf.per_method.get(Method::Put), None);
}

#[test]
fn root_starts_at_the_separator() {
    let root = RequestNode::default();
    assert_eq!(root.path, "/");
    assert_eq!(root.total, Metrics::default());
    assert!(root.children.is_empty());
    let mut rows = Vec::new();
    root.flatten(H1, &mut rows);
    assert!(rows.is_empty());
}

#[test]
fn top_level_resource_merges_into_root_only() {
    let mut root = RequestNode::default();
    let leaf = RequestNode::default_with_request(request(H1, Method::Get, "/foo", 10, 5, 200));
    root.insert(&leaf);
    assert!(root.children.is_empty());
    assert_eq!(root.total.count, 1);
    assert_eq!(root.per_method.get(Method::Get).map(|m| m.count), Some(1));
    let mut rows = Vec::new();
    root.flatten(H1, &mut rows);
    assert_eq!(
        rows,
        vec![
            row(H1, None, "/", 1, 10, 5, 5, 5, 0),
            row(H1, Some("GET"), "/", 1, 10, 5, 5, 5, 0),
        ]
    );
}

#[test]
fn same_template_merges_along_the_chain() {
    let rows = sorted(parse_nginx_log(&vec![
        record(T1, 200, 100, 10, "GET /api/users/42 HTTP/1.1"),
        record("2021-03-04T05:59:00+00:00", 500, 200, 30, "GET /api/users/77 HTTP/1.1"),
    ]));
    assert_eq!(
        rows,
        vec![
            row(H1, None, "/", 2, 300, 40, 10, 30, 1),
            row(H1, None, "/api", 2, 300, 40, 10, 30, 1),
            row(H1, None, "/api/users", 2, 300, 40, 10, 30, 1),
            row(H1, None, "/api/users/<INT>", 2, 300, 40, 10, 30, 1),
            row(H1, Some("GET"), "/api/users/<INT>", 2, 300, 40, 10, 30, 1),
        ]
    );
}

#[test]
fn intermediate_nodes_have_no_method_entries() {
    let mut store = ParseNginxLog::default();
    store.insert(request(H1, Method::Get, "/api/users/<INT>", 100, 10, 200));
    store.insert(request(H1, Method::Get, "/api/users/<INT>", 200, 30, 200));
    assert_eq!(store.hours.len(), 1);
    match &store.hours[0].phase {
        HourPhase::Accumulating(leaves) => {
            assert_eq!(leaves.len(), 1);
            assert_eq!(leaves[0].total.count, 2);
        }
        _ => panic!("bucket left the accumulation phase"),
    }
    store.build_hierarchies();
    match &store.hours[0].phase {
        HourPhase::Hierarchy(root) => {
            assert_eq!(root.total.count, 2);
            assert_eq!(root.per_method.get(Method::Get), None);
            assert_eq!(root.children.len(), 1);
            let api = &root.children[0];
            assert_eq!(api.path, "/api");
            assert_eq!(api.total.count, 2);
            assert_eq!(api.per_method.get(Method::Get), None);
            let users = &api.children[0];
            assert_eq!(users.path, "/api/users");
            assert_eq!(users.segment, "users");
            assert_eq!(users.total.count, 2);
            for i in 0..10 {
                assert_eq!(users.per_method.get(Method::at(i)), None);
            }
            let deepest = &users.children[0];
            assert_eq!(deepest.path, "/api/users/<INT>");
            assert_eq!(deepest.per_method.get(Method::Get).map(|m| m.count), Some(2));
            assert!(deepest.children.is_empty());
        }
        _ => panic!("bucket holds no tree"),
    }
}

#[test]
fn siblings_share_ancestors() {
    let rows = sorted(parse_nginx_log(&vec![
        record(T1, 200, 1024, 4, "GET /a/b HTTP/1.1"),
        record(T1, 200, 1024, 8, "POST /a/c HTTP/1.1"),
        record(T1, 502, 0, 2, "GET /a/b HTTP/1.1"),
    ]));
    assert_eq!(
        rows,
        vec![
            row(H1, None, "/", 3, 2048, 14, 2, 8, 1),
            row(H1, None, "/a", 3, 2048, 14, 2, 8, 1),
            row(H1, None, "/a/b", 2, 1024, 6, 2, 4, 1),
            row(H1, Some("GET"), "/a/b", 2, 1024, 6, 2, 4, 1),
            row(H1, None, "/a/c", 1, 1024, 8, 8, 8, 0),
            row(H1, Some("POST"), "/a/c", 1, 1024, 8, 8, 8, 0),
        ]
    );
}

#[test]
fn hours_are_kept_apart() {
    let rows = sorted(parse_nginx_log(&vec![
        record("2021-03-04T05:06:07+00:00", 200, 1, 1, "GET /a HTTP/1.1"),
        record("2021-03-04T06:06:07+00:00", 200, 2, 2, "GET /a HTTP/1.1"),
    ]));
    assert_eq!(
        rows,
        vec![
            row("2021-03-04 05:00", None, "/", 1, 1, 1, 1, 1, 0),
            row("2021-03-04 05:00", Some("GET"), "/", 1, 1, 1, 1, 1, 0),
            row("2021-03-04 06:00", None, "/", 1, 2, 2, 2, 2, 0),
            row("2021-03-04 06:00", Some("GET"), "/", 1, 2, 2, 2, 2, 0),
        ]
    );
}

#[test]
fn unrecognized_method_gives_no_rows() {
    let rows = parse_nginx_log(&vec![
        record(T1, 200, 100, 10, "PROPFIND /api/users/42 HTTP/1.1"),
        record(T1, 500, 5, 1, "garbage"),
    ]);
    assert!(rows.is_empty());
    let rows = sorted(parse_nginx_log(&vec![
        record(T1, 200, 100, 10, "BREW /pot HTTP/1.1"),
        record(T1, 200, 7, 3, "GET /pot/x HTTP/1.1"),
    ]));
    assert_eq!(
        rows,
        vec![
            row(H1, None, "/", 1, 7, 3, 3, 3, 0),
            row(H1, None, "/pot", 1, 7, 3, 3, 3, 0),
            row(H1, None, "/pot/x", 1, 7, 3, 3, 3, 0),
            row(H1, Some("GET"), "/pot/x", 1, 7, 3, 3, 3, 0),
        ]
    );
}

#[test]
fn root_only_path_gives_no_rows() {
    let rows = parse_nginx_log(&vec![record(T1, 200, 100, 10, "GET / HTTP/1.1")]);
    assert!(rows.is_empty());
}

#[test]
fn too_deep_paths_give_no_rows() {
    let deep = "/a/b/c/d/e/f/g/h/i/j/k/l/m/n/o";
    assert_eq!(split_path(deep).len(), 16);
    let line = format!("GET {} HTTP/1.1", deep);
    let rows = parse_nginx_log(&vec![record(T1, 200, 100, 10, &line)]);
    assert!(rows.is_empty());
    let mut root = RequestNode::default();
    root.insert(&RequestNode::default_with_request(request(H1, Method::Get, deep, 1, 1, 200)));
    assert_eq!(root.total, Metrics::default());
    assert!(root.children.is_empty());
}

#[test]
fn deepest_allowed_path_is_kept() {
    let path = "/a/b/c/d/e/f/g/h/i/j/k/l/m/n";
    assert_eq!(split_path(path).len(), 15);
    let line = format!("GET {} HTTP/1.1", path);
    let rows = parse_nginx_log(&vec![record(T1, 200, 100, 10, &line)]);
    assert_eq!(rows.len(), 16);
    assert_eq!(rows[0], row(H1, None, "/", 1, 100, 10, 10, 10, 0));
    assert_eq!(rows[14], row(H1, None, path, 1, 100, 10, 10, 10, 0));
    assert_eq!(rows[15], row(H1, Some("GET"), path, 1, 100, 10, 10, 10, 0));
}

#[test]
fn rerun_gives_the_same_rows() {
    let log = vec![
        record(T1, 200, 100, 10, "GET /api/users/42 HTTP/1.1"),
        record(T1, 404, 10, 1, "HEAD /api/items/abc9 HTTP/1.1"),
        record("2021-03-04T07:00:00+00:00", 500, 0, 99, "PUT /x HTTP/1.1"),
    ];
    let first = sorted(parse_nginx_log(&log));
    let second = sorted(parse_nginx_log(&log));
    assert_eq!(first, second);
    assert_eq!(first.len(), 10);
}

#[test]
fn bucket_phases_follow_one_another() {
    let mut bucket = ParseNginxLogHour::new(H1.to_string());
    bucket.insert(request(H1, Method::Get, "/a/b", 10, 5, 200));
    bucket.flatten();
    assert!(matches!(bucket.phase, HourPhase::Accumulating(_)));
    bucket.build_hierarchy();
    assert!(matches!(bucket.phase, HourPhase::Hierarchy(_)));
    bucket.insert(request(H1, Method::Get, "/a/c", 10, 5, 200));
    bucket.build_hierarchy();
    bucket.flatten();
    match &bucket.phase {
        HourPhase::Flattened(rows) => assert_eq!(rows.len(), 4),
        _ => panic!("bucket holds no rows"),
    }
    let rows = bucket.take_rows();
    assert_eq!(rows[0], row(H1, None, "/", 1, 10, 5, 5, 5, 0));
    assert_eq!(rows[1], row(H1, None, "/a", 1, 10, 5, 5, 5, 0));
    assert_eq!(rows[2], row(H1, None, "/a/b", 1, 10, 5, 5, 5, 0));
    assert_eq!(rows[3], row(H1, Some("GET"), "/a/b", 1, 10, 5, 5, 5, 0));
    assert!(bucket.take_rows().is_empty());
}

#[test]
fn store_hands_out_all_rows_once() {
    let mut store = ParseNginxLog::default();
    store.insert(request("h1", Method::Get, "/a", 1, 1, 200));
    store.insert(request("h2", Method::Get, "/a", 1, 1, 200));
    store.insert(request("h1", Method::Put, "/a", 1, 1, 200));
    assert_eq!(store.find_hour(&"h2".to_string()), 1);
    assert_eq!(store.find_hour(&"h3".to_string()), 2);
    store.build_hierarchies();
    let rows = store.flatten();
    assert_eq!(rows.len(), 5);
    assert_eq!(rows[0], row("h1", None, "/", 2, 2, 2, 1, 1, 0));
    assert_eq!(rows[1], row("h1", Some("GET"), "/", 1, 1, 1, 1, 1, 0));
    assert_eq!(rows[2], row("h1", Some("PUT"), "/", 1, 1, 1, 1, 1, 0));
    assert_eq!(rows[3], row("h2", None, "/", 1, 1, 1, 1, 1, 0));
    assert!(store.flatten().is_empty());
}

#[test]
fn ingest_groups_by_hour_and_path() {
    let store = nginx_stats::store::ingest(&vec![
        record(T1, 200, 1, 1, "GET /a/1 HTTP/1.1"),
        record(T1, 200, 1, 1, "GET /a/2 HTTP/1.1"),
        record("2021-03-04T06:00:00", 200, 1, 1, "GET /b HTTP/1.1"),
        record(T1, 200, 1, 1, "nonsense"),
    ]);
    assert!(store.is_well_formed());
    assert_eq!(store.hours.len(), 2);
    assert_eq!(store.hours[0].hour, H1);
    assert_eq!(store.hours[1].hour, "2021-03-04 06:00");
    assert!(store.hours[0].is_well_formed());
    match &store.hours[0].phase {
        HourPhase::Accumulating(leaves) => {
            assert_eq!(leaves.len(), 2);
            assert_eq!(leaves[0].path, "/a/<INT>");
            assert_eq!(leaves[0].total.count, 2);
            assert!(leaves[0].is_well_formed());
            assert_eq!(leaves[1].path, "");
            assert_eq!(leaves[1].per_method.get(Method::Unparsed).map(|m| m.count), Some(1));
        }
        _ => panic!("bucket left the accumulation phase"),
    }
}

#[test]
fn broken_tables_are_told() {
    let mut root = RequestNode::default();
    assert!(root.is_well_formed());
    root.insert(&RequestNode::default_with_request(request(H1, Method::Get, "/a/b", 1, 1, 200)));
    assert!(root.is_well_formed());
    root.children[0].children[0].per_method.slots.pop();
    assert!(!root.is_well_formed());
}

#[test]
fn unsigned_integers_have_an_optional_sign() {
    assert_eq!(segment_kind("+5"), SegmentKind::Int);
    assert_eq!(segment_kind("0042"), SegmentKind::Int);
    assert_eq!(segment_kind("4294967295"), SegmentKind::Int);
    assert_eq!(segment_kind("4294967296"), SegmentKind::ContainsDigit);
    assert_eq!(segment_kind("-5"), SegmentKind::ContainsDigit);
    assert_eq!(segment_kind("+"), SegmentKind::Plain);
    assert_eq!(segment_kind("1_000"), SegmentKind::ContainsDigit);
    assert_eq!(segment_kind("\u{664}\u{662}"), SegmentKind::Plain);
}

#[test]
fn twins_are_told() {
    let mut root = RequestNode::default();
    root.insert(&RequestNode::default_with_request(request(H1, Method::Get, "/a/b", 1, 1, 200)));
    root.insert(&RequestNode::default_with_request(request(H1, Method::Get, "/a/c", 1, 1, 200)));
    assert_eq!(root.children.len(), 1);
    assert_eq!(root.children[0].children.len(), 2);
    assert_eq!(root.find_child(&"a".to_string()), 0);
    assert_eq!(root.find_child(&"b".to_string()), 1);
    assert_eq!(root.children[0].find_child(&"c".to_string()), 1);
    assert!(root.is_well_formed());
    root.children[0].children[1].segment = "b".to_string();
    assert!(!root.is_well_formed());

    let mut bucket = ParseNginxLogHour::new(H1.to_string());
    bucket.insert(request(H1, Method::Get, "/a", 1, 1, 200));
    bucket.insert(request(H1, Method::Get, "/b", 1, 1, 200));
    assert!(bucket.is_well_formed());
    if let HourPhase::Accumulating(leaves) = &mut bucket.phase {
        leaves[1].path = "/a".to_string();
    }
    assert!(!bucket.is_well_formed());

    let mut store = ParseNginxLog::default();
    store.insert(request("h1", Method::Get, "/a", 1, 1, 200));
    store.insert(request("h2", Method::Get, "/a", 1, 1, 200));
    assert!(store.is_well_formed());
    store.hours[1].hour = "h1".to_string();
    assert!(!store.is_well_formed());
}

#[test]
fn row_is_made_of_a_summary() {
    let m = Metrics {
        count: 3,
        bytes: 4096,
        duration_sum: 60,
        min_duration: Some(10),
        max_duration: Some(30),
        errors: 2,
    };
    let made = nginx_stats::node::make_row(H1, Some("PUT".to_string()), &"/x".to_string(), &m);
    assert_eq!(made, row(H1, Some("PUT"), "/x", 3, 4096, 60, 10, 30, 2));
}

#[test]
fn tables_merge_entry_by_entry() {
    let mut a = nginx_stats::node::MethodTable::new();
    let mut b = nginx_stats::node::MethodTable::new();
    a.record(Method::Get, &Sample { bytes_sent: 1, duration_ms: 2, status_code: 200 });
    b.record(Method::Get, &Sample { bytes_sent: 3, duration_ms: 1, status_code: 500 });
    b.record(Method::Post, &Sample { bytes_sent: 5, duration_ms: 9, status_code: 200 });
    a.merge(&b);
    assert_eq!(
        a.get(Method::Get),
        Some(Metrics {
            count: 2,
            bytes: 4,
            duration_sum: 3,
            min_duration: Some(1),
            max_duration: Some(2),
            errors: 1,
        })
    );
    assert_eq!(a.get(Method::Post).map(|m| m.bytes), Some(5));
    assert_eq!(a.get(Method::Delete), None);
    assert!(a.is_well_formed());
}

#[test]
fn top_level_request_is_not_counted_at_its_own_node() {
    let rows = sorted(parse_nginx_log(&vec![
        record(T1, 200, 10, 1, "GET /foo HTTP/1.1"),
        record(T1, 200, 20, 3, "POST /foo/bar HTTP/1.1"),
    ]));
    assert_eq!(
        rows,
        vec![
            row(H1, None, "/", 2, 30, 4, 1, 3, 0),
            row(H1, Some("GET"), "/", 1, 10, 1, 1, 1, 0),
            row(H1, None, "/foo", 1, 20, 3, 3, 3, 0),
            row(H1, None, "/foo/bar", 1, 20, 3, 3, 3, 0),
            row(H1, Some("POST"), "/foo/bar", 1, 20, 3, 3, 3, 0),
        ]
    );
}

#[test]
fn empty_log_gives_no_rows() {
    assert!(parse_nginx_log(&Vec::new()).is_empty());
    let mut store = ParseNginxLog::default();
    assert!(store.is_well_formed());
    store.build_hierarchies();
    assert!(store.flatten().is_empty());
}
