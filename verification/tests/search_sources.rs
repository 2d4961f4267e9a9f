use quantum_torrent::search::{
    enabled_plugins, gather, is_plugin_file_name, merge_plugins, parse_json, parse_rss, plugins_dir, prepare_search, rank_results,
    read_response, request_error, request_url, JsonMapping, PluginKind, SearchPlugin, SearchResult,
    MAX_RESULTS_PER_PLUGIN,
};

fn json_plugin(mapping: Option<JsonMapping>) -> SearchPlugin {
    SearchPlugin {
        id: "example-json".to_string(),
        name: "Example".to_string(),
        url: "https://example.org/api/search?q={query}&limit=50".to_string(),
        browse_url: None,
        kind: PluginKind::Json,
        json: mapping,
        site: None,
        builtin: false,
        enabled: true,
    }
}

fn mapping(template: Option<&str>) -> JsonMapping {
    JsonMapping {
        results: "data/items".to_string(),
        name: "title".to_string(),
        size: Some("length_bytes".to_string()),
        seeders: Some("seeds".to_string()),
        link: "info_hash".to_string(),
        link_template: template.map(|t| t.to_string()),
    }
}

fn rss_plugin() -> SearchPlugin {
    SearchPlugin {
        id: "example-rss".to_string(),
        name: "Feed".to_string(),
        url: "https://example.org/rss?q={query}".to_string(),
        browse_url: Some("https://example.org/rss".to_string()),
        kind: PluginKind::Rss,
        json: None,
        site: None,
        builtin: false,
        enabled: true,
    }
}

fn plugin(id: &str, name: &str) -> SearchPlugin {
    SearchPlugin { id: id.to_string(), name: name.to_string(), ..json_plugin(None) }
}

fn result(name: &str, seeders: Option<u64>, size: Option<u64>) -> SearchResult {
    SearchResult { name: name.to_string(), source: "s".to_string(), size, seeders, link: "l".to_string() }
}

#[test]
fn json_mapping_reads_fields_and_numeric_strings() {
    let body = r#"{"data":{"items":[
        {"title":"Ubuntu","length_bytes":"1024","seeds":7,"info_hash":"ABC"},
        {"title":"Debian","length_bytes":2048,"seeds":"12","info_hash":"DEF"}
    ]}}"#;
    let p = json_plugin(Some(mapping(Some("magnet:?xt=urn:btih:{value}"))));
    let r = parse_json(&p, body).unwrap();
    assert_eq!(r.len(), 2);
    assert_eq!(r[0].name, "Ubuntu");
    assert_eq!(r[0].size, Some(1024));
    assert_eq!(r[0].seeders, Some(7));
    assert_eq!(r[0].link, "magnet:?xt=urn:btih:ABC");
    assert_eq!(r[0].source, "Example");
    assert_eq!(r[1].size, Some(2048));
    assert_eq!(r[1].seeders, Some(12));
}

#[test]
fn json_items_without_title_or_link_are_skipped() {
    let body = r#"{"data":{"items":[{"title":"A"},{"info_hash":"X"},{"title":["T",1],"info_hash":5}]}}"#;
    let p = json_plugin(Some(mapping(None)));
    let r = parse_json(&p, body).unwrap();
    assert_eq!(r.len(), 1);
    assert_eq!(r[0].name, "T");
    assert_eq!(r[0].link, "5");
    assert_eq!(r[0].size, None);
    assert_eq!(r[0].seeders, None);
}

#[test]
fn json_negative_and_fractional_counts_are_absent() {
    let body = r#"{"data":{"items":[{"title":"A","info_hash":"h","seeds":-3,"length_bytes":1.5}]}}"#;
    let p = json_plugin(Some(mapping(None)));
    let r = parse_json(&p, body).unwrap();
    assert_eq!(r[0].seeders, None);
    assert_eq!(r[0].size, None);
}

#[test]
fn json_errors() {
    let none = json_plugin(None);
    assert_eq!(parse_json(&none, "{}").unwrap_err(), "Example: plugin is kind=json but has no json mapping");
    let p = json_plugin(Some(mapping(None)));
    let bad = parse_json(&p, "not json").unwrap_err();
    assert!(bad.starts_with("Example: invalid JSON ("), "{bad}");
    assert!(bad.ends_with(')'));
    assert_eq!(parse_json(&p, r#"{"data":{"items":{}}}"#).unwrap_err(), "Example: no results at 'data/items'");
    assert_eq!(parse_json(&p, r#"{"data":[]}"#).unwrap_err(), "Example: no results at 'data/items'");
}

#[test]
fn json_results_path_skips_empty_segments() {
    let mut m = mapping(None);
    m.results = "/data//items/".to_string();
    let p = json_plugin(Some(m));
    let r = parse_json(&p, r#"{"data":{"items":[{"title":"A","info_hash":"h"}]}}"#).unwrap();
    assert_eq!(r.len(), 1);
}

#[test]
fn rss_prefers_the_enclosure() {
    let body = r#"<rss><channel>
        <item><title> First </title><link>https://details/1</link>
            <enclosure url="magnet:?xt=urn:btih:1" length="4096"/><seeders> 9 </seeders></item>
        <item><title>Second</title><link>https://files/2.torrent</link><size>77</size></item>
        <item><title>No link</title></item>
        <item><link>https://x</link></item>
    </channel></rss>"#;
    let r = parse_rss(&rss_plugin(), body).unwrap();
    assert_eq!(r.len(), 2);
    assert_eq!(r[0].name, "First");
    assert_eq!(r[0].link, "magnet:?xt=urn:btih:1");
    assert_eq!(r[0].size, Some(4096));
    assert_eq!(r[0].seeders, Some(9));
    assert_eq!(r[1].link, "https://files/2.torrent");
    assert_eq!(r[1].size, Some(77));
    assert_eq!(r[1].seeders, None);
    assert_eq!(r[1].source, "Feed");
}

#[test]
fn atom_entries_link_by_href() {
    let body = r#"<feed xmlns="http://www.w3.org/2005/Atom"><entry><title>Atom one</title><link href="https://a/1.torrent"/></entry></feed>"#;
    let r = parse_rss(&rss_plugin(), body).unwrap();
    assert_eq!(r.len(), 1);
    assert_eq!(r[0].link, "https://a/1.torrent");
}

#[test]
fn rss_error_names_the_source() {
    let e = parse_rss(&rss_plugin(), "<rss><channel>").unwrap_err();
    assert!(e.starts_with("Feed: invalid XML ("), "{e}");
}

#[test]
fn results_rank_by_seeders_then_size() {
    let ranked = rank_results(vec![
        result("a", Some(1), Some(10)),
        result("b", None, Some(99)),
        result("c", Some(5), Some(1)),
        result("d", Some(5), Some(3)),
        result("e", Some(1), Some(10)),
    ]);
    let names: Vec<&str> = ranked.iter().map(|r| r.name.as_str()).collect();
    assert_eq!(names, vec!["d", "c", "a", "e", "b"]);
}

#[test]
fn each_source_is_capped() {
    let items: Vec<String> =
        (0..75).map(|i| format!(r#"{{"title":"t{i}","info_hash":"h{i}"}}"#)).collect();
    let body = format!(r#"{{"data":{{"items":[{}]}}}}"#, items.join(","));
    let p = json_plugin(Some(mapping(None)));
    assert_eq!(parse_json(&p, &body).unwrap().len(), 75);
    let r = read_response(&p, &body).unwrap();
    assert_eq!(r.len(), MAX_RESULTS_PER_PLUGIN);
    assert_eq!(r[59].name, "t59");
}

#[test]
fn read_response_follows_the_kind() {
    let r = read_response(&rss_plugin(), "<rss><channel><item><title>x</title><link>y</link></item></channel></rss>").unwrap();
    assert_eq!(r.len(), 1);
    assert!(read_response(&json_plugin(None), "{}").is_err());
}

#[test]
fn request_urls() {
    let p = json_plugin(None);
    assert_eq!(request_url(&p, "a b").as_deref(), Some("https://example.org/api/search?q=a+b&limit=50"));
    assert_eq!(request_url(&p, ""), None);
    let r = rss_plugin();
    assert_eq!(request_url(&r, "").as_deref(), Some("https://example.org/rss"));
    assert_eq!(request_url(&r, "x&y").as_deref(), Some("https://example.org/rss?q=x%26y"));
}

#[test]
fn user_plugin_replaces_builtin_with_same_id() {
    let builtin = vec![plugin("one", "Zeta"), plugin("two", "alpha")];
    let mut replacement = plugin("one", "Beta");
    replacement.builtin = true;
    let merged = merge_plugins(builtin, vec![replacement], &vec!["two".to_string()]);
    assert_eq!(merged.len(), 2);
    assert_eq!(merged[0].name, "alpha");
    assert!(merged[0].builtin);
    assert!(!merged[0].enabled);
    assert_eq!(merged[1].name, "Beta");
    assert_eq!(merged[1].id, "one");
    assert!(!merged[1].builtin);
    assert!(merged[1].enabled);
    let on = enabled_plugins(merged);
    assert_eq!(on.len(), 1);
    assert_eq!(on[0].id, "one");
}

#[test]
fn search_needs_an_enabled_source() {
    let mut p = plugin("a", "A");
    assert_eq!(prepare_search(&vec![p.clone()], "  ubuntu iso \n").unwrap(), "ubuntu iso");
    p.enabled = false;
    assert_eq!(prepare_search(&vec![p], "x").unwrap_err(), "No search sources are enabled.");
    assert_eq!(prepare_search(&vec![], "x").unwrap_err(), "No search sources are enabled.");
}

#[test]
fn failures_are_reported_per_source() {
    let (results, errors) = gather(vec![
        Ok(vec![result("low", Some(1), None)]),
        Err(request_error(&"Broken".to_string(), "timed out")),
        Ok(vec![result("high", Some(50), None)]),
        Err("Other: 404".to_string()),
    ]);
    let names: Vec<&str> = results.iter().map(|r| r.name.as_str()).collect();
    assert_eq!(names, vec!["high", "low"]);
    assert_eq!(errors, vec!["Broken: timed out".to_string(), "Other: 404".to_string()]);
}

#[test]
fn plugin_folder_inside_config() {
    assert_eq!(plugins_dir("/home/u/.config/qt"), "/home/u/.config/qt/search-plugins");
    assert_eq!(plugins_dir("/home/u/.config/qt/"), "/home/u/.config/qt/search-plugins");
    assert_eq!(plugins_dir(""), "search-plugins");
}

#[test]
fn plugin_files_are_json_files() {
    assert!(is_plugin_file_name("tracker.json"));
    assert!(is_plugin_file_name("..json"));
    assert!(is_plugin_file_name("a.b.json"));
    assert!(!is_plugin_file_name(".json"));
    assert!(!is_plugin_file_name("tracker.JSON"));
    assert!(!is_plugin_file_name("tracker.json.bak"));
    assert!(!is_plugin_file_name("json"));
    assert!(!is_plugin_file_name("tracker."));
}
