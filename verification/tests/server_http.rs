use latency_ladder::pipeline::Stage;
use latency_ladder::server::bench::{Container, Report, StageCost, TopOfBook};
use latency_ladder::server::http::{
    budget_json, container_in, days_json, handle, health_json, param, respond, route, sample_in,
    to_json, verdict_json, Next, Route, StageText,
};
use latency_ladder::server::verify::{Quote, Sample, Verdict};

fn routed(line: &str) -> String {
    match route(line) {
        Route::Preflight => "preflight".to_string(),
        Route::Health => "health".to_string(),
        Route::Run(q) => format!("run {q}"),
        Route::Budget => "budget".to_string(),
        Route::Days => "days".to_string(),
        Route::Verify(q) => format!("verify {q}"),
        Route::Page => "page".to_string(),
        Route::Missing => "missing".to_string(),
    }
}

fn reply(line: &str, warm: bool) -> (u16, String) {
    match handle(line, warm) {
        Next::Answer(r) => (r.status, r.body),
        Next::Health => (0, "health".to_string()),
        Next::Run(q) => (0, format!("run {q}")),
        Next::Budget => (0, "budget".to_string()),
        Next::Days => (0, "days".to_string()),
        Next::Verify(q) => (0, format!("verify {q}")),
        Next::Page => (0, "page".to_string()),
    }
}

#[test]
fn every_endpoint_is_reached_by_its_path() {
    assert_eq!(routed("GET /health HTTP/1.1\r\n"), "health");
    assert_eq!(routed("GET /run?dup=0.5&gap=0.1 HTTP/1.1\r\n"), "run dup=0.5&gap=0.1");
    assert_eq!(routed("GET /run HTTP/1.1"), "run ");
    assert_eq!(routed("GET /budget HTTP/1.1"), "budget");
    assert_eq!(routed("GET /days HTTP/1.1"), "days");
    assert_eq!(routed("GET /verify?day=2017-11-16 HTTP/1.1"), "verify day=2017-11-16");
    assert_eq!(routed("GET / HTTP/1.1"), "page");
    assert_eq!(routed("GET /index.html HTTP/1.1"), "page");
    assert_eq!(routed("GET /healthy HTTP/1.1"), "missing");
    assert_eq!(routed("OPTIONS /run HTTP/1.1"), "preflight");
    assert_eq!(routed("POST /health HTTP/1.1"), "health");
}

/// A line with no target asks for the root, and an empty line is no exception.
#[test]
fn short_lines_ask_for_the_root() {
    assert_eq!(routed("GET\r\n"), "page");
    assert_eq!(routed("\r\n"), "page");
    assert_eq!(routed(""), "page");
    assert_eq!(routed("  \t GET \u{3000}/days\u{a0}HTTP/1.1"), "days");
    assert_eq!(routed("GET /run?a=1?b=2 HTTP/1.1"), "run a=1?b=2");
    assert_eq!(routed("GET ?x HTTP/1.1"), "missing");
}

#[test]
fn a_cold_host_refuses_measurements_only() {
    assert_eq!(
        reply("GET /run HTTP/1.1", false),
        (
            503,
            "{\"error\":\"warming\",\"detail\":\"the host is still faulting pages and settling \
             caches; a measurement taken now would report the host waking up\"}"
                .to_string()
        )
    );
    assert_eq!(
        reply("GET /budget HTTP/1.1", false),
        (503, "{\"error\":\"warming\"}".to_string())
    );
    assert_eq!(reply("GET /verify?day=x HTTP/1.1", false), (0, "verify day=x".to_string()));
    assert_eq!(reply("GET /health HTTP/1.1", false), (0, "health".to_string()));
    assert_eq!(reply("GET /run?load=1 HTTP/1.1", true), (0, "run load=1".to_string()));
    assert_eq!(reply("GET /budget HTTP/1.1", true), (0, "budget".to_string()));
    assert_eq!(reply("OPTIONS * HTTP/1.1", true), (204, String::new()));
    assert_eq!(reply("GET /nowhere HTTP/1.1", true), (404, "not found".to_string()));
}

#[test]
fn the_first_setting_of_a_key_counts() {
    assert_eq!(param("a=1&b=2&a=3", "a"), Some("1".to_string()));
    assert_eq!(param("a=1&b=2&a=3", "b"), Some("2".to_string()));
    assert_eq!(param("a=1", "c"), None);
    assert_eq!(param("", "a"), None);
    assert_eq!(param("a", "a"), None, "a key without a value sets nothing");
    assert_eq!(param("a&a=2", "a"), Some("2".to_string()));
    assert_eq!(param("a=x=y", "a"), Some("x=y".to_string()));
    assert_eq!(param("=5", ""), Some("5".to_string()));
    assert_eq!(param("day=\u{e9}&x=1", "day"), Some("\u{e9}".to_string()));
}

#[test]
fn the_container_is_sorted_unless_asked_otherwise() {
    assert_eq!(container_in("container=btree"), Container::BTree);
    assert_eq!(container_in("container=sorted"), Container::Sorted);
    assert_eq!(container_in("container=arena"), Container::Sorted);
    assert_eq!(container_in(""), Container::Sorted);
}

fn two_days() -> Vec<Sample> {
    vec![
        Sample {
            date: "2017-11-16".to_string(),
            bytes: vec![0; 3],
        },
        Sample {
            date: "2018-10-09".to_string(),
            bytes: vec![0; 12],
        },
    ]
}

#[test]
fn days_are_listed_and_found() {
    let days = two_days();
    assert_eq!(
        days_json(&days),
        "[{\"date\":\"2017-11-16\",\"bytes\":3},{\"date\":\"2018-10-09\",\"bytes\":12}]"
    );
    assert_eq!(days_json(&[]), "[]");
    assert_eq!(sample_in(&days, "day=2018-10-09").ok().unwrap().bytes.len(), 12);
    let missing = sample_in(&days, "day=1999-01-01").err().unwrap();
    assert_eq!(missing.status, 404);
    assert_eq!(missing.content_type, "application/json");
    assert_eq!(
        missing.body,
        "{\"error\":\"unknown day\",\"detail\":\"see /days for the sessions compiled into this \
         build\"}"
    );
    assert!(sample_in(&days, "").is_err());
}

#[test]
fn replies_carry_their_length_in_bytes() {
    assert_eq!(
        respond(200, "text/plain", "caf\u{e9}"),
        "HTTP/1.1 200 OK\r\nContent-Type: text/plain\r\nContent-Length: 5\r\n\
         Access-Control-Allow-Origin: *\r\nAccess-Control-Allow-Methods: GET, OPTIONS\r\n\
         Cache-Control: no-store\r\nConnection: close\r\n\r\ncaf\u{e9}"
    );
    assert!(respond(204, "text/plain", "").starts_with("HTTP/1.1 204 No Content\r\n"));
    assert!(respond(503, "text/plain", "").starts_with("HTTP/1.1 503 Service Unavailable\r\n"));
    assert!(respond(404, "text/plain", "").starts_with("HTTP/1.1 404 Not Found\r\n"));
}

#[test]
fn health_is_four_facts() {
    assert_eq!(
        health_json(true, 1234, 0, "aarch64"),
        "{\"warm\":true,\"warmup_ms\":1234,\"runs_served\":0,\"arch\":\"aarch64\"}"
    );
}

#[test]
fn a_verdict_is_written_out_whole() {
    let v = Verdict {
        date: "2017-11-16".to_string(),
        format: "pcapng",
        bytes: 1,
        packets: 2,
        messages: 3,
        errors: 4,
        unknown: 5,
        symbols: 6,
        price_updates: 7,
        trades: 8,
        gaps: 9,
        duplicates: 10,
        crossed: 11,
        low: "0.01".to_string(),
        high: "99.99".to_string(),
        types: vec![
            ("0x38 Price Level Update (buy)".to_string(), 2),
            ("0x49 x".to_string(), 1),
        ],
        quotes: vec![Quote {
            symbol: "AAPL".to_string(),
            bid: "1.00".to_string(),
            bid_size: 100,
            ask: "1.01".to_string(),
            ask_size: 200,
        }],
        nanos: 340_282_366_920_938_463_463_374_607_431_768_211_455,
    };
    assert_eq!(
        verdict_json(&v),
        "{\"date\":\"2017-11-16\",\"format\":\"pcapng\",\"bytes\":1,\"packets\":2,\"messages\":3,\
         \"errors\":4,\"unknown\":5,\"symbols\":6,\"price_updates\":7,\"trades\":8,\"gaps\":9,\
         \"duplicates\":10,\"crossed\":11,\"low\":\"0.01\",\"high\":\"99.99\",\
         \"nanos\":340282366920938463463374607431768211455,\
         \"types\":[{\"name\":\"0x38 Price Level Update (buy)\",\"count\":2},\
         {\"name\":\"0x49 x\",\"count\":1}],\
         \"quotes\":[{\"symbol\":\"AAPL\",\"bid\":\"1.00\",\"bid_size\":100,\"ask\":\"1.01\",\
         \"ask_size\":200}]}"
    );
}

#[test]
fn a_report_is_written_out_whole() {
    let r = Report {
        container: "sorted SoA (R1)",
        packets: 1,
        messages: 2,
        book_updates: 3,
        orders: 4,
        ns_per_packet: "110.40".to_string(),
        spread: "3.25".to_string(),
        duplicates_suppressed: 5,
        gaps_detected: 6,
        gaps_injected: 7,
        crossed_when_stable: 8,
        service_p50: 9,
        service_p99: 10,
        corrected_p50: 11,
        corrected_p99: 12,
        behind_schedule: 13,
        top: vec![
            TopOfBook {
                symbol: "AAPL".to_string(),
                bid: Some(("1.00".to_string(), 5)),
                ask: None,
                bid_levels: 1,
                ask_levels: 0,
            },
            TopOfBook {
                symbol: "SPY".to_string(),
                bid: None,
                ask: Some(("2.00".to_string(), 6)),
                bid_levels: 0,
                ask_levels: 2,
            },
        ],
    };
    assert_eq!(
        to_json(&r, "x86_64"),
        "{\"container\":\"sorted SoA (R1)\",\"packets\":1,\"messages\":2,\"book_updates\":3,\
         \"orders\":4,\"ns_per_packet\":110.40,\"spread\":3.25,\"duplicates_suppressed\":5,\
         \"gaps_detected\":6,\"gaps_injected\":7,\"crossed_when_stable\":8,\"service_p50\":9,\
         \"service_p99\":10,\"corrected_p50\":11,\"corrected_p99\":12,\"behind_schedule\":13,\
         \"arch\":\"x86_64\",\"top\":[{\"symbol\":\"AAPL\",\"bid\":{\"price\":\"1.00\",\
         \"size\":5},\"ask\":null,\"bid_levels\":1,\"ask_levels\":0},{\"symbol\":\"SPY\",\
         \"bid\":null,\"ask\":{\"price\":\"2.00\",\"size\":6},\"bid_levels\":0,\
         \"ask_levels\":2}]}"
    );
}

#[test]
fn a_budget_counts_what_it_could_not_resolve() {
    let cost = |stage: Stage, unresolved: bool| StageCost {
        stage,
        cumulative: 100,
        this_stage: 10,
        spread: 20,
        unresolved,
    };
    let text = || StageText {
        cumulative: "1.00".to_string(),
        this_stage: "0.10".to_string(),
        spread: "0.20".to_string(),
    };
    assert_eq!(
        budget_json(
            "arm",
            &[cost(Stage::Receive, false), cost(Stage::Parse, true)],
            &[text(), text()]
        ),
        "{\"arch\":\"arm\",\"unresolved\":1,\"of\":2,\"stages\":[\
         {\"name\":\"receive (eth/vlan/ip/udp)\",\"cumulative\":1.00,\"this_stage\":0.10,\
         \"spread\":0.20,\"unresolved\":false},\
         {\"name\":\"parse (DEEP)\",\"cumulative\":1.00,\"this_stage\":0.10,\"spread\":0.20,\
         \"unresolved\":true}]}"
    );
}
