use omnistor::cluster::Cluster;
use omnistor::console::{Console, UI_HTML};

fn console() -> Console {
    Console::with_demo_data()
}

fn get(c: &mut Console, path: &str) -> (u16, String) {
    let r = c.handle("GET", path, "");
    (r.status, r.body)
}

fn post(c: &mut Console, path: &str, body: &str) -> (u16, String) {
    let r = c.handle("POST", path, body);
    (r.status, r.body)
}

#[test]
fn serves_ui_and_summary() {
    let mut c = console();
    let (status, body) = get(&mut c, "/");
    assert_eq!(status, 200);
    assert!(body.contains("OmniStor"));
    let (status, body) = get(&mut c, "/api/cluster");
    assert_eq!(status, 200);
    assert!(body.contains("\"tenants\":2"));
    assert!(body.contains("\"pools\":4"));
}

#[test]
fn tenant_crud_via_api() {
    let mut c = console();
    let (status, body) = post(
        &mut c,
        "/api/tenants",
        r#"{"name": "initech", "capacity_bytes": 1048576, "object_count": 100}"#,
    );
    assert_eq!(status, 201, "{body}");
    assert!(body.contains("initech"));
    let (status, _) = post(&mut c, "/api/tenants", r#"{"name": "initech"}"#);
    assert_eq!(status, 400);
    let (status, body) = get(&mut c, "/api/tenants/3");
    assert_eq!(status, 200);
    assert!(body.contains("initech-kek"));
    let r = c.handle("DELETE", "/api/tenants/3", "");
    assert_eq!(r.status, 200);
    let (status, _) = get(&mut c, "/api/tenants/3");
    assert_eq!(status, 404);
}

#[test]
fn write_simulation_reports_quota_rejects() {
    let mut c = console();
    post(
        &mut c,
        "/api/tenants",
        r#"{"name": "tiny", "capacity_bytes": 8192, "object_count": 100}"#,
    );
    let (status, body) = post(
        &mut c,
        "/api/tenants/3/objects",
        r#"{"count": 10, "size_bytes": 1024}"#,
    );
    assert_eq!(status, 200);
    assert!(body.contains("\"ok\":8"), "{body}");
    assert!(body.contains("\"quota_exceeded\":2"), "{body}");
}

#[test]
fn write_simulation_reports_throttling_and_tick_recovers() {
    let mut c = console();
    let (_, body) = post(
        &mut c,
        "/api/tenants",
        r#"{"name": "slow", "metadata_iops": 10, "data_iops": 10000, "data_bw_bytes": 1000000000}"#,
    );
    assert!(body.contains("slow"));
    let (_, body) = post(
        &mut c,
        "/api/tenants/3/objects",
        r#"{"count": 100, "size_bytes": 1}"#,
    );
    assert!(body.contains("\"throttled\""));
    assert!(
        !body.contains("\"throttled\":0"),
        "expected throttling: {body}"
    );
    post(&mut c, "/api/tick?n=10", "");
    let (_, body) = post(
        &mut c,
        "/api/tenants/3/objects",
        r#"{"count": 5, "size_bytes": 1}"#,
    );
    assert!(body.contains("\"ok\":5"), "{body}");
}

#[test]
fn scope_quota_enforced() {
    let mut c = console();
    post(
        &mut c,
        "/api/tenants/1/quota",
        r#"{"scope": "photos", "capacity_bytes": 1024}"#,
    );
    let (_, body) = post(
        &mut c,
        "/api/tenants/1/objects",
        r#"{"count": 3, "size_bytes": 512, "scope": "photos", "prefix": "p"}"#,
    );
    assert!(body.contains("\"ok\":2"), "{body}");
    assert!(body.contains("\"quota_exceeded\":1"), "{body}");
}

#[test]
fn pool_create_and_list() {
    let mut c = console();
    let (status, _) = post(
        &mut c,
        "/api/pools",
        r#"{"id": 9, "media": "hdd", "capacity": 100000}"#,
    );
    assert_eq!(status, 200);
    let (_, body) = get(&mut c, "/api/pools");
    assert!(body.contains("\"id\":9"));
    let (status, _) = post(&mut c, "/api/pools", r#"{"media": "hdd"}"#);
    assert_eq!(status, 400);
}

#[test]
fn unknown_route_is_404() {
    let mut c = console();
    let (status, _) = get(&mut c, "/api/nope");
    assert_eq!(status, 404);
}

#[test]
fn the_demo_cluster_in_full() {
    let mut c = console();
    assert_eq!(
        get(&mut c, "/api/pools").1,
        "[{\"id\":1,\"media\":\"tlc-nvme\",\"capacity\":500000,\"used\":120000,\
         \"load_headroom_permille\":700,\"dedicated_to\":null},\
         {\"id\":2,\"media\":\"tlc-nvme\",\"capacity\":500000,\"used\":60064,\
         \"load_headroom_permille\":700,\"dedicated_to\":null},\
         {\"id\":3,\"media\":\"qlc-nvme\",\"capacity\":2000000,\"used\":400000,\
         \"load_headroom_permille\":700,\"dedicated_to\":null},\
         {\"id\":4,\"media\":\"hdd\",\"capacity\":8000000,\"used\":2400000,\
         \"load_headroom_permille\":700,\"dedicated_to\":null}]"
    );
    // 64 objects of 4096, 4113, .. bytes.
    assert_eq!(
        get(&mut c, "/api/tenants").1,
        "[{\"id\":1,\"name\":\"acme\",\"placement\":\"shared\",\"used_bytes\":296416,\"objects\":64},\
         {\"id\":2,\"name\":\"globex\",\"placement\":\"shared\",\"used_bytes\":0,\"objects\":0}]"
    );
    let summary = get(&mut c, "/api/cluster").1;
    assert!(
        summary.starts_with(
            "{\"tenants\":2,\"pools\":4,\"capacity_extents\":11000000,\"used_extents\":2980064,\
             \"tlc_free_extents\":999872,\"tlc_metadata_used\":64,\"tlc_data_used\":64,\
             \"active_buckets\":"
        ),
        "{summary}"
    );
}

#[test]
fn the_page_has_its_type() {
    let mut c = console();
    for path in ["/", "", "/index.html", "//index.html/?x=1"] {
        let r = c.handle("GET", path, "");
        assert_eq!(
            (r.status, r.content_type, r.body.as_str()),
            (200, "text/html; charset=utf-8", UI_HTML)
        );
    }
    assert_eq!(
        c.handle("GET", "/api/cluster", "").content_type,
        "application/json"
    );
}

#[test]
fn tenant_details_in_full() {
    let mut c = console();
    assert_eq!(
        get(&mut c, "/api/tenants/1"),
        (
            200,
            "{\"id\":1,\"name\":\"acme\",\"used_bytes\":296416,\"objects\":64,\
             \"key\":{\"key_id\":\"acme-kek\",\"generation\":1}}"
                .to_string()
        )
    );
    assert_eq!(
        get(&mut c, "/api/tenants/x"),
        (400, "{\"error\":\"bad tenant id\"}".to_string())
    );
    assert_eq!(
        get(&mut c, "/api/tenants/44"),
        (404, "{\"error\":\"unknown tenant 44\"}".to_string())
    );
    assert_eq!(
        get(&mut c, "/api/tenants/4294967296"),
        (400, "{\"error\":\"bad tenant id\"}".to_string())
    );
    assert_eq!(get(&mut c, "/api/tenants/+1").0, 200);
}

#[test]
fn a_tenant_bound_to_a_pool() {
    let mut c = console();
    assert_eq!(
        post(
            &mut c,
            "/api/tenants",
            r#"{"name": "bank", "dedicated_pool": 9}"#
        ),
        (201, "{\"id\":3,\"name\":\"bank\"}".to_string())
    );
    assert!(get(&mut c, "/api/tenants")
        .1
        .contains("\"placement\":\"dedicated:9\""));
    let (status, body) = post(&mut c, "/api/tenants/3/objects", "{\"count\": 2}");
    assert_eq!(status, 200);
    assert!(
        body.starts_with(
            "{\"requested\":2,\"ok\":0,\"throttled\":0,\"quota_exceeded\":0,\"no_space\":2,\
             \"first_error\":\"no space on TlcNvme\",\"active_buckets\":"
        ),
        "{body}"
    );
    post(
        &mut c,
        "/api/pools",
        r#"{"id": 9, "media": "tlc", "capacity": 10, "dedicated_to": 3}"#,
    );
    assert!(get(&mut c, "/api/pools").1.contains(
        "{\"id\":9,\"media\":\"tlc-nvme\",\"capacity\":10,\"used\":0,\
         \"load_headroom_permille\":1000,\"dedicated_to\":3}"
    ));
    let (_, body) = post(&mut c, "/api/tenants/3/objects", "{\"count\": 2}");
    assert!(body.contains("\"ok\":2"), "{body}");
    assert!(body.contains("\"first_error\":null"), "{body}");
}

#[test]
fn what_a_request_lacks_is_said() {
    let mut c = console();
    let wanting = [
        ("/api/pools", "{}", "need id, media(tlc|qlc|hdd), capacity"),
        (
            "/api/pools",
            r#"{"id": 1, "media": "external-s3", "capacity": 5}"#,
            "need id, media(tlc|qlc|hdd), capacity",
        ),
        ("/api/tenants", r#"{"name": ""}"#, "need name"),
        ("/api/tenants", "", "need name"),
        ("/api/tenants/1/quota", "{}", "need scope"),
        ("/api/tenants/one/quota", "{}", "bad tenant id"),
        ("/api/tenants/-1/objects", "{}", "bad tenant id"),
    ];
    for (path, body, message) in wanting {
        assert_eq!(
            post(&mut c, path, body),
            (400, format!("{{\"error\":\"{message}\"}}"))
        );
    }
    let r = c.handle("DELETE", "/api/tenants/z", "");
    assert_eq!((r.status, r.body), (400, "{\"error\":\"bad tenant id\"}".to_string()));
}

#[test]
fn unknown_tenants_are_answered_so() {
    let mut c = console();
    let unknown = (404, "{\"error\":\"unknown tenant 9\"}".to_string());
    assert_eq!(post(&mut c, "/api/tenants/9/objects", "{}"), unknown);
    assert_eq!(
        post(&mut c, "/api/tenants/9/quota", "{\"scope\": \"s\"}"),
        unknown
    );
    let r = c.handle("DELETE", "/api/tenants/9", "");
    assert_eq!((r.status, r.body), unknown);
    // A batch of none asks for nothing.
    assert_eq!(
        post(&mut c, "/api/tenants/9/objects", "{\"count\": 0}").0,
        200
    );
}

#[test]
fn routes_are_told_by_method_and_path() {
    let mut c = console();
    assert_eq!(
        get(&mut c, "/api/nope?x=1"),
        (404, "{\"error\":\"no route: GET /api/nope\"}".to_string())
    );
    let r = c.handle("PUT", "/api/cluster", "");
    assert_eq!(
        (r.status, r.body),
        (404, "{\"error\":\"no route: PUT /api/cluster\"}".to_string())
    );
    assert_eq!(get(&mut c, "//api//cluster/").0, 200);
    assert_eq!(get(&mut c, "/api/tick").0, 404);
    assert_eq!(get(&mut c, "/api/tenants/1/objects").0, 404);
}

#[test]
fn ticks_are_read_from_the_query() {
    let mut c = console();
    let queries = [
        ("", 1),
        ("?n=5", 5),
        ("?m=2&n=7&n=8", 7),
        ("?n=x", 1),
        ("?n=", 1),
        ("?n=10001", 10_000),
        ("?n=0", 0),
        ("?n=99999999999", 1),
    ];
    for (query, n) in queries {
        assert_eq!(
            post(&mut c, &format!("/api/tick{query}"), ""),
            (200, format!("{{\"ticked\":{n}}}"))
        );
    }
}

#[test]
fn deleting_says_what_was_deleted() {
    let mut c = console();
    let r = c.handle("DELETE", "/api/tenants/2", "");
    assert_eq!((r.status, r.body), (200, "{\"deleted\":2}".to_string()));
    assert!(get(&mut c, "/api/cluster").1.contains("\"tenants\":1"));
    assert_eq!(
        post(&mut c, "/api/tenants/1/quota", "{\"scope\": \"a b\"}"),
        (200, "{\"scope\":\"a b\"}".to_string())
    );
}

#[test]
fn counts_of_a_batch_add_up() {
    let mut c = console();
    post(
        &mut c,
        "/api/tenants",
        r#"{"name": "both", "capacity_bytes": 3, "metadata_iops": 4}"#,
    );
    // Eight tokens: three writes go through, five meet the quota, the rest are throttled.
    let (_, body) = post(
        &mut c,
        "/api/tenants/3/objects",
        r#"{"count": 20, "size_bytes": 1}"#,
    );
    assert!(
        body.starts_with(
            "{\"requested\":20,\"ok\":3,\"throttled\":12,\"quota_exceeded\":5,\"no_space\":0,\
             \"first_error\":\"quota exceeded: tenant:capacity\","
        ),
        "{body}"
    );
}

#[test]
fn an_empty_console() {
    let mut empty = Console::new(Cluster::new(4, 4));
    assert_eq!(
        empty.handle("GET", "/api/cluster", "").body,
        "{\"tenants\":0,\"pools\":0,\"capacity_extents\":0,\"used_extents\":0,\
         \"tlc_free_extents\":4,\"tlc_metadata_used\":0,\"tlc_data_used\":0,\"active_buckets\":0}"
    );
    assert_eq!(empty.handle("GET", "/api/pools", "").body, "[]");
    assert_eq!(empty.handle("GET", "/api/tenants", "").body, "[]");
}

#[test]
fn requests_whose_numbers_do_not_fit_are_not_handled() {
    let mut c = console();
    for id in [11, 12] {
        let body = format!("{{\"id\": {id}, \"media\": \"hdd\", \"capacity\": 18446744073709551615}}");
        assert!(c.try_handle("POST", "/api/pools", &body).is_some());
    }
    assert!(c.try_handle("GET", "/api/cluster", "").is_none());
    assert!(c.try_handle("GET", "/api/pools", "").is_some());
    assert!(c
        .try_handle(
            "POST",
            "/api/tenants",
            r#"{"name": "fast", "metadata_iops": 18446744073709551615}"#
        )
        .is_some());
    assert!(c.try_handle("POST", "/api/tick", "").is_none());
    assert_eq!(c.try_handle("POST", "/api/tick?n=0", "").unwrap().status, 200);
}

#[test]
fn a_batch_breaks_off_where_a_number_does_not_fit() {
    let mut c = console();
    post(
        &mut c,
        "/api/tenants",
        r#"{"name": "wide", "data_bw_bytes": 4611686018427387904}"#,
    );
    let half = r#"{"size_bytes": 9223372036854775808}"#;
    assert!(post(&mut c, "/api/tenants/3/objects", half)
        .1
        .contains("\"ok\":1"));
    assert!(c.try_handle("POST", "/api/tick?n=2", "").is_some());
    let quarters = r#"{"count": 3, "size_bytes": 4611686018427387904}"#;
    assert!(c
        .try_handle("POST", "/api/tenants/3/objects", quarters)
        .is_none());
    // The first of them was written.
    assert!(get(&mut c, "/api/tenants/3").1.contains("\"objects\":2"));
    let (_, body) = post(
        &mut c,
        "/api/tenants/1/objects",
        r#"{"size_bytes": 18446744073709551615}"#,
    );
    assert!(body.contains("\"throttled\":1"), "{body}");
}

#[test]
fn looking_changes_nothing() {
    let mut c = console();
    let paths = [
        "/api/cluster",
        "/api/pools",
        "/api/tenants",
        "/api/tenants/1",
        "/api/tenants/99",
        "/api/tick?n=3",
        "/api/tenants/1/objects",
    ];
    let before: Vec<(u16, String)> = paths.iter().map(|p| get(&mut c, p)).collect();
    let after: Vec<(u16, String)> = paths.iter().map(|p| get(&mut c, p)).collect();
    assert_eq!(before, after);
}

#[test]
fn refusals_change_nothing() {
    let mut c = console();
    let before = (get(&mut c, "/api/tenants"), get(&mut c, "/api/pools"));
    for (path, body) in [
        ("/api/tenants", r#"{"name": "acme", "capacity_bytes": 1}"#),
        ("/api/tenants", "{}"),
        ("/api/pools", r#"{"id": 1, "capacity": 5}"#),
        ("/api/tenants/7/quota", r#"{"scope": "s"}"#),
        ("/api/tenants/7/objects", r#"{"count": 2}"#),
    ] {
        assert!(post(&mut c, path, body).0 >= 400);
    }
    assert_eq!(c.handle("DELETE", "/api/tenants/7", "").status, 404);
    assert_eq!(
        (get(&mut c, "/api/tenants"), get(&mut c, "/api/pools")),
        before
    );
}
