use redlib_ops::inbound::substitute;
use redlib_ops::telemetry::{current_route, normalize_inbound, normalize_upstream};
use route_recognizer::{Params, Router};

fn params(pairs: &[(&str, &str)]) -> Params {
    let mut params = Params::new();
    for (name, value) in pairs {
        params.insert(name.to_string(), value.to_string());
    }
    params
}

#[test]
fn normalizes_upstream_paths() {
    assert_eq!(normalize_upstream("/r/rust/comments/abc123/title.json?raw_json=1"), "/r/:sub/comments/:id");
    assert_eq!(normalize_upstream("/comments/abc123.json?sort=top"), "/comments/:id");
    assert_eq!(normalize_upstream("/r/rust/about.json?raw_json=1"), "/r/:sub/about");
    assert_eq!(normalize_upstream("/r/rust/hot.json?raw_json=1"), "/r/:sub/hot");
    assert_eq!(normalize_upstream("/user/spez/about.json"), "/user/:name/about");
    assert_eq!(normalize_upstream("/user/spez/submitted.json?raw_json=1"), "/user/:name/submitted");
    assert_eq!(normalize_upstream("/r/rust/search.json?q=x"), "/r/:sub/search");
    assert_eq!(normalize_upstream("/search.json?q=x"), "/search");
}

#[test]
fn every_rule_of_the_table() {
    assert_eq!(normalize_upstream(""), "/");
    assert_eq!(normalize_upstream("/"), "/");
    assert_eq!(normalize_upstream("/?raw_json=1"), "/");
    assert_eq!(normalize_upstream("/r/rust/wiki/index"), "/r/:sub/wiki/:page");
    assert_eq!(normalize_upstream("/r/rust/wiki"), "/r/:sub/wiki/:page");
    assert_eq!(normalize_upstream("/r/rust/about/rules"), "/r/:sub/about");
    assert_eq!(normalize_upstream("/r/rust/comments"), "/r/:sub/comments/:id");
    assert_eq!(normalize_upstream("/r/rust"), "/r/:sub");
    assert_eq!(normalize_upstream("/r/rust.json"), "/r/:sub");
    assert_eq!(normalize_upstream("/r/rust/top/week"), "/r/rust/top/week");
    assert_eq!(normalize_upstream("/r"), "/r");
    assert_eq!(normalize_upstream("/comments"), "/comments/:id");
    assert_eq!(normalize_upstream("/user/spez"), "/user/:name");
    assert_eq!(normalize_upstream("/user/spez/m/multi"), "/user/spez/m/multi");
    assert_eq!(normalize_upstream("/subreddits/search.json?q=x"), "/subreddits/search");
    assert_eq!(normalize_upstream("/subreddits/popular"), "/subreddits/popular");
    assert_eq!(normalize_upstream("//api//v1/me/"), "/api/v1/me");
    assert_eq!(normalize_upstream("/r/日本/ホット.json"), "/r/:sub/ホット");
}

#[test]
fn the_query_makes_no_difference() {
    for path in ["/r/rust/hot", "/comments/abc", "/api/info", "/"] {
        let with_query = format!("{path}?a=/b/c.json?d");
        assert_eq!(normalize_upstream(&with_query), normalize_upstream(path));
    }
}

#[test]
fn names_of_subreddits_and_users_do_not_show() {
    for tail in ["", "/hot", "/search", "/about", "/about/rules", "/comments/x/y", "/wiki/a/b"] {
        let one = normalize_upstream(&format!("/r/rust{tail}"));
        assert_eq!(normalize_upstream(&format!("/r/python{tail}")), one);
        assert!(!one.contains("rust"));
    }
    for tail in ["", "/about", "/submitted"] {
        let one = normalize_upstream(&format!("/user/spez{tail}"));
        assert_eq!(normalize_upstream(&format!("/user/kn0thing{tail}")), one);
    }
}

#[test]
fn a_json_suffix_of_the_query_is_ignored_with_it() {
    assert_eq!(normalize_upstream("/api/info?a.json.json"), normalize_upstream("/api/info?a.json"));
    assert_eq!(normalize_upstream("/api/info?x?y"), normalize_upstream("/api/info?x"));
}

#[test]
fn only_one_json_suffix_is_dropped() {
    assert_eq!(normalize_upstream("/api/info.json"), normalize_upstream("/api/info"));
    assert_eq!(normalize_upstream("/api/info.json.json"), "/api/info.json");
    assert_eq!(normalize_upstream("/api/info.json/"), "/api/info.json");
}

#[test]
fn a_template_is_its_own_template() {
    for path in ["/r/rust/comments/a/b", "/r/rust/hot", "/user/spez/about", "/x/y", "/", "/r/a", "/user/b"] {
        let template = normalize_upstream(path);
        assert_eq!(normalize_upstream(&template), template);
        assert!(template.starts_with('/'));
    }
}

#[test]
fn captured_values_are_substituted_back_out() {
    let captured = params(&[("sub", "rust"), ("id", "abc123")]);
    assert_eq!(normalize_inbound("/r/rust/comments/abc123", &captured), "/r/:sub/comments/:id");
    assert_eq!(normalize_inbound("/settings", &params(&[])), "/settings");
    assert_eq!(normalize_inbound("/r/rust", &params(&[("sub", "")])), "/r/rust");
    assert_eq!(normalize_inbound("/r/rust", &params(&[("sub", "python")])), "/r/rust");
}

#[test]
fn a_literal_segment_is_not_taken_for_a_captured_value() {
    assert_eq!(normalize_inbound("/r/r", &params(&[("sub", "r")])), "/r/:sub");
    assert_eq!(normalize_inbound("/user/user", &params(&[("name", "user")])), "/user/:name");
    assert_eq!(normalize_inbound("/user/e", &params(&[("name", "e")])), "/user/:name");
}

#[test]
fn a_value_is_not_found_inside_a_segment() {
    let captured = params(&[("sub", "news"), ("sort", "new")]);
    assert_eq!(normalize_inbound("/r/news/new", &captured), "/r/:sub/:sort");
    assert_eq!(normalize_inbound("/r/rust", &params(&[("x", "us")])), "/r/rust");
    assert_eq!(normalize_inbound("aaaa!", &params(&[("x", "aa")])), "aaaa!");
}

#[test]
fn places_are_looked_up_in_the_path_itself() {
    // Neither the name nor the colon of one value is rewritten by another.
    let captured = params(&[("a", "q"), ("b", ":a"), ("q", "a")]);
    assert_eq!(normalize_inbound("/q/a", &captured), "/:a/:q");
}

#[test]
fn a_value_does_not_take_a_piece_of_a_longer_one() {
    let captured = params(&[("a", "b"), ("z", "a.b")]);
    assert_eq!(normalize_inbound("/b/a.b", &captured), "/:a/:z");
    let nested = params(&[("id", "x"), ("path", "hls/x/y.m3u8")]);
    assert_eq!(normalize_inbound("/hls/x/hls/x/y.m3u8", &nested), "/hls/:id/:path");
}

#[test]
fn separators_and_the_ends_of_the_path_delimit_a_value() {
    assert_eq!(normalize_inbound("/a.b/c", &params(&[("x", "a"), ("y", "b")])), "/:x.:y/c");
    assert_eq!(normalize_inbound("rust", &params(&[("sub", "rust")])), ":sub");
    assert_eq!(normalize_inbound("/r/rust/", &params(&[("sub", "rust")])), "/r/:sub/");
    assert_eq!(normalize_inbound("/r/日本", &params(&[("sub", "日本")])), "/r/:sub");
}

#[test]
fn of_two_places_a_value_takes_the_last() {
    // The path alone does not tell `/r/:sub/comments/:id` from this.
    let captured = params(&[("sub", "comments"), ("id", "abc")]);
    assert_eq!(normalize_inbound("/r/comments/comments/abc", &captured), "/r/comments/:sub/:id");
}

#[test]
fn values_take_their_places_in_the_order_given() {
    let pairs = vec![("a".to_string(), "x".to_string()), ("b".to_string(), "x".to_string())];
    assert_eq!(substitute("/x/x", &pairs), "/:b/:a");
    assert_eq!(substitute("/x", &pairs), "/:a");
}

#[test]
fn the_pattern_of_the_matched_route_is_rebuilt() {
    let patterns = [
        "/r/:sub",
        "/r/:sub/:sort",
        "/r/:sub/comments/:id",
        "/r/:sub/comments/:id/:title",
        "/r/:sub/wiki/:page",
        "/user/:name",
        "/user/:name/:listing",
        "/vid/:id/:size",
        "/emoji/:id/:file",
        "/feed/:name.rss",
        "/:short",
        "/settings",
    ];
    let mut router = Router::new();
    for pattern in patterns {
        router.add(pattern, pattern);
    }
    for path in [
        "/r/r",
        "/r/news/new",
        "/r/rust/hot",
        "/r/a/comments/b/c",
        "/r/w/wiki/index",
        "/user/e",
        "/user/user",
        "/user/spez/submitted",
        "/vid/d/vi",
        "/emoji/t5_x/smile.png",
        "/feed/f.rss",
        "/abc",
        "/settings",
    ] {
        let found = router.recognize(path).unwrap();
        assert_eq!(&normalize_inbound(path, found.params()), *found.handler(), "{path}");
    }
}

#[test]
fn traffic_outside_a_request_goes_under_a_dash() {
    assert_eq!(current_route(None), "-");
    assert_eq!(current_route(Some("/r/:sub".to_string())), "/r/:sub");
}
