use quantum_torrent::preview::{
    content_range, content_type, content_type_from, new_token, parse_range, plan_range, preview_url, route_request,
    token_from_draws,
    unsatisfied_range, PreviewServer, RangePlan, Route,
};

#[test]
fn range_headers() {
    assert_eq!(parse_range("bytes=0-"), Some((0, None)));
    assert_eq!(parse_range("bytes=10-20"), Some((10, Some(20))));
    assert_eq!(parse_range("  bytes=5-9 "), Some((5, Some(9))));
    assert_eq!(parse_range("bytes= 3 - 4"), Some((3, Some(4))));
    assert_eq!(parse_range("bytes=+7-"), Some((7, None)));
    assert_eq!(parse_range("bytes=20-10"), None);
    assert_eq!(parse_range("bytes=0-1,5-6"), None);
    assert_eq!(parse_range("items=0-5"), None);
    assert_eq!(parse_range("bytes=-5"), None);
    assert_eq!(parse_range("bytes=5"), None);
    assert_eq!(parse_range("bytes=99999999999999999999-"), None);
}

#[test]
fn range_answers() {
    assert_eq!(plan_range(None, 100), RangePlan::Whole { length: 100 });
    assert_eq!(plan_range(Some((0, None)), 100), RangePlan::Partial { start: 0, end: 99, length: 100 });
    assert_eq!(plan_range(Some((10, Some(500))), 100), RangePlan::Partial { start: 10, end: 99, length: 90 });
    assert_eq!(plan_range(Some((10, Some(19))), 100), RangePlan::Partial { start: 10, end: 19, length: 10 });
    assert_eq!(plan_range(Some((100, None)), 100), RangePlan::Unsatisfiable);
    assert_eq!(plan_range(Some((0, None)), 0), RangePlan::Unsatisfiable);
    assert_eq!(content_range(10, 19, 100), "bytes 10-19/100");
    assert_eq!(unsatisfied_range(100), "bytes */100");
}

#[test]
fn request_routing() {
    assert_eq!(route_request(true, "/tok/3/1/a.mp4", "tok"), Route::File { id: 3, file_index: 1 });
    assert_eq!(route_request(true, "//tok/3/1", "tok"), Route::File { id: 3, file_index: 1 });
    assert_eq!(route_request(true, "/bad/3/1/a.mp4", "tok"), Route::Forbidden);
    assert_eq!(route_request(true, "/bad/x/1/a.mp4", "tok"), Route::Forbidden);
    assert_eq!(route_request(false, "/tok/3/1/a.mp4", "tok"), Route::MethodNotAllowed);
    assert_eq!(route_request(true, "/tok/3", "tok"), Route::NotFound);
    assert_eq!(route_request(true, "/tok/3/", "tok"), Route::NotFound);
    assert_eq!(route_request(true, "/tok/x/1/f", "tok"), Route::NotFound);
}

#[test]
fn player_urls() {
    let server = PreviewServer { port: 8080, token: "tok".to_string() };
    assert_eq!(preview_url(&server, 3, 1, "a b.mp4"), "http://127.0.0.1:8080/tok/3/1/a%20b.mp4");
}

#[test]
fn tokens_are_fresh_lowercase_alphanumerics() {
    let a = new_token();
    let b = new_token();
    assert_eq!(a.chars().count(), 32);
    assert!(a.chars().all(|c| c.is_ascii_lowercase() || c.is_ascii_digit()));
    assert_ne!(a, b);
}

#[test]
fn content_types_follow_the_extension() {
    assert_eq!(content_type("/tok/1/0/movie.mp4"), "video/mp4");
    assert_eq!(content_type("tok/1/0/song.mp3"), "audio/mpeg");
    assert_eq!(content_type("/tok/1/0/blob.qqqzz"), "application/octet-stream");
    assert_eq!(content_type_from(None), "application/octet-stream");
    assert_eq!(content_type_from(Some("text/plain".to_string())), "text/plain");
}

#[test]
fn token_spells_its_draws() {
    let zeros = vec![0usize; 32];
    assert_eq!(token_from_draws(&zeros), "a".repeat(32));
    let mut draws: Vec<usize> = (0..32).collect();
    draws[31] = 35;
    assert_eq!(token_from_draws(&draws), "abcdefghijklmnopqrstuvwxyz012349");
}
