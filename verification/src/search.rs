//! Torrent search through declarative plugins: plugin records, the JSON field
//! mapping, the RSS/Atom reading, merging the built-in and user plugin sets,
//! and ranking what comes back. Fetching over HTTP lives outside the library.
use vstd::prelude::*;
use crate::text;
use crate::settings;
use serde_json::{from_str, Value};
use std::collections::VecDeque;
use crate::text::{chars_of, push_char, parse_u64_range, trim_range, find_char_range, string_eq_str};

verus! {

/// How a plugin's response is read.
#[derive(PartialEq, Eq, Structural, Debug, Clone, Copy)]
pub enum PluginKind {
    Json,
    Rss,
}

/// Where the fields of a JSON search response are found.
#[derive(Clone, Debug)]
pub struct JsonMapping {
    /// Slash path to the results array, e.g. `response/docs`.
    pub results: String,
    /// Field holding the title.
    pub name: String,
    /// Field holding the size in bytes.
    pub size: Option<String>,
    /// Field holding the seeder count.
    pub seeders: Option<String>,
    /// Field holding a magnet/`.torrent` URL, or an id to feed `link_template`.
    pub link: String,
    /// Template with `{value}`, for APIs returning an id rather than a URL.
    pub link_template: Option<String>,
}

/// A search source: where to send a query and how to read the response.
#[derive(Clone, Debug)]
pub struct SearchPlugin {
    pub id: String,
    pub name: String,
    pub url: String,
    pub browse_url: Option<String>,
    pub kind: PluginKind,
    pub json: Option<JsonMapping>,
    pub site: Option<String>,
    pub builtin: bool,
    pub enabled: bool,
}

/// One torrent found by a plugin.
#[derive(Clone, Debug)]
pub struct SearchResult {
    pub name: String,
    pub source: String,
    pub size: Option<u64>,
    pub seeders: Option<u64>,
    pub link: String,
}

/// The mathematical content of a [`SearchResult`].
pub ghost struct SearchResultView {
    pub name: Seq<char>,
    pub source: Seq<char>,
    pub size: Option<u64>,
    pub seeders: Option<u64>,
    pub link: Seq<char>,
}

impl View for SearchResult {
    type V = SearchResultView;

    open spec fn view(&self) -> SearchResultView {
        SearchResultView {
            name: self.name@,
            source: self.source@,
            size: self.size,
            seeders: self.seeders,
            link: self.link@,
        }
    }
}

/// The views of a list of results.
pub open spec fn results_view(rs: Seq<SearchResult>) -> Seq<SearchResultView> {
    rs.map_values(|r: SearchResult| r@)
}

/// One value of a parsed JSON document. A document is listed root first,
/// level by level, the elements of an array or the members of an object
/// together and in order.
#[derive(Clone, Debug)]
pub struct JsonNode {
    /// Index of the enclosing array or object; `None` for the root.
    pub parent: Option<usize>,
    /// The member name, when the enclosing value is an object.
    pub key: Option<String>,
    /// The text, when the value is a string.
    pub string: Option<String>,
    /// The value's compact JSON text. It starts with `[` exactly when the
    /// value is an array, and `u64::from_str` reads a number from it exactly
    /// when the value is a non-negative integer fitting in 64 bits (which
    /// serde_json writes as plain decimal digits).
    pub text: String,
}

/// The mathematical content of a [`JsonNode`].
pub ghost struct JsonNodeView {
    pub parent: Option<usize>,
    pub key: Option<Seq<char>>,
    pub string: Option<Seq<char>>,
    pub text: Seq<char>,
}

impl View for JsonNode {
    type V = JsonNodeView;

    open spec fn view(&self) -> JsonNodeView {
        JsonNodeView {
            parent: self.parent,
            key: text::opt_text(self.key),
            string: text::opt_text(self.string),
            text: self.text@,
        }
    }
}

/// The value is an array: its JSON text starts with `[`.
pub open spec fn is_array_node(n: JsonNodeView) -> bool {
    n.text.len() > 0 && n.text[0] == '['
}

/// Whether a JSON value's text is an array's.
fn is_array_text(text: &String) -> (r: bool)
    ensures
        r == (text@.len() > 0 && text@[0] == '['),
{
    let r = crate::text::has_prefix(text.as_str(), "[");
    proof {
        reveal_strlit("[");
        assert("["@.len() == 1 && "["@[0] == '[');
        if text@.len() > 0 {
            assert(text@.take(1)[0] == text@[0]);
            if text@[0] == '[' {
                assert(text@.take(1) =~= "["@);
            }
        }
    }
    r
}

/// The views of a node list.
pub open spec fn json_nodes_view(ns: Seq<JsonNode>) -> Seq<JsonNodeView> {
    ns.map_values(|n: JsonNode| n@)
}

/// What `serde_json::from_str::<serde_json::Value>` makes of `text`: its
/// values in document order, or the parser's error message.
pub uninterp spec fn json_document(text: Seq<char>) -> Result<Seq<JsonNodeView>, Seq<char>>;

/// Parses JSON with `serde_json::from_str` into a `serde_json::Value` and
/// lists its values breadth first from the root (members in the map's order,
/// elements in order), with `as_str` and the compact text (`to_string`) of
/// each. Claims that the outcome is `json_document` of the
/// input, nothing more.
#[verifier::external_body]
fn parse_json_nodes(text: &str) -> (r: Result<Vec<JsonNode>, String>)
    ensures
        match r {
            Ok(ns) => json_document(text@) == Ok::<Seq<JsonNodeView>, Seq<char>>(json_nodes_view(ns@)),
            Err(e) => json_document(text@) == Err::<Seq<JsonNodeView>, Seq<char>>(e@),
        },
{
    let root: Value = from_str(text).map_err(|e| e.to_string())?;
    let mut todo = VecDeque::from([(None, None, &root)]);
    let mut out = vec![];
    while let Some((parent, key, v)) = todo.pop_front() {
        let id = Some(out.len());
        out.push(JsonNode { parent, key, string: v.as_str().map(String::from), text: v.to_string() });
        for (k, c) in v.as_object().into_iter().flatten() { todo.push_back((id, Some(k.clone()), c)) }
        for c in v.as_array().into_iter().flatten() { todo.push_back((id, None, c)) }
    }
    Ok(out)
}

/// An optional index as an integer.
pub open spec fn opt_index(o: Option<usize>) -> Option<int> {
    match o {
        Some(i) => Some(i as int),
        None => None,
    }
}

/// Index of the first member of node `pid` named `key`, at or after `from`.
pub open spec fn member_from(ns: Seq<JsonNodeView>, pid: int, key: Seq<char>, from: int) -> Option<int>
    decreases ns.len() - from,
{
    if from < 0 || from >= ns.len() {
        None
    } else if ns[from].parent == Some(pid as usize) && ns[from].key == Some(key) {
        Some(from)
    } else {
        member_from(ns, pid, key, from + 1)
    }
}

/// The member `key` of node `v`; `None` for a missing key or a value that is
/// not an object (what `serde_json::Value::get` gives).
pub open spec fn json_member(ns: Seq<JsonNodeView>, v: int, key: Seq<char>) -> Option<int> {
    member_from(ns, v, key, 0)
}

/// Index of the first value held by node `pid`, at or after `from`.
pub open spec fn first_child_from(ns: Seq<JsonNodeView>, pid: int, from: int) -> Option<int>
    decreases ns.len() - from,
{
    if from < 0 || from >= ns.len() {
        None
    } else if ns[from].parent == Some(pid as usize) {
        Some(from)
    } else {
        first_child_from(ns, pid, from + 1)
    }
}

proof fn lemma_first_child_from_bound(ns: Seq<JsonNodeView>, pid: int, from: int)
    ensures
        first_child_from(ns, pid, from) matches Some(q) ==> from <= q < ns.len(),
    decreases ns.len() - from,
{
    if 0 <= from < ns.len() {
        lemma_first_child_from_bound(ns, pid, from + 1);
    }
}

/// Looks up member `key` of node `v`, as `serde_json::Value::get` does.
pub fn member(ns: &Vec<JsonNode>, v: usize, key: &str) -> (r: Option<usize>)
    ensures
        r matches Some(q) ==> q < ns@.len(),
        opt_index(r) == json_member(json_nodes_view(ns@), v as int, key@),
{
    let ghost vs = json_nodes_view(ns@);
    let mut i: usize = 0;
    while i < ns.len()
        invariant
            i <= ns@.len(),
            vs == json_nodes_view(ns@),
            json_member(vs, v as int, key@) == member_from(vs, v as int, key@, i as int),
        decreases ns@.len() - i,
    {
        assert(vs[i as int] == ns@[i as int]@);
        let hit = ns[i].parent == Some(v) && match &ns[i].key {
            Some(k) => string_eq_str(k, key),
            None => false,
        };
        if hit {
            return Some(i);
        }
        i = i + 1;
    }
    None
}

/// The first value held by node `pid`.
fn first_child(ns: &Vec<JsonNode>, pid: usize) -> (r: Option<usize>)
    ensures
        r matches Some(q) ==> q < ns@.len(),
        opt_index(r) == first_child_from(json_nodes_view(ns@), pid as int, 0),
{
    let ghost vs = json_nodes_view(ns@);
    let mut i: usize = 0;
    while i < ns.len()
        invariant
            i <= ns@.len(),
            vs == json_nodes_view(ns@),
            first_child_from(vs, pid as int, 0) == first_child_from(vs, pid as int, i as int),
        decreases ns@.len() - i,
    {
        assert(vs[i as int] == ns@[i as int]@);
        if ns[i].parent == Some(pid) {
            return Some(i);
        }
        i = i + 1;
    }
    None
}

/// The value reached from node `v` by following the non-empty
/// `/`-separated keys of `path`.
pub open spec fn dig_spec(ns: Seq<JsonNodeView>, v: int, path: Seq<char>) -> Option<int>
    decreases path.len(),
{
    match text::find_char(path, '/') {
        None => if path.len() == 0 { Some(v) } else { json_member(ns, v, path) },
        Some(k) => {
            proof { text::lemma_find_char(path, '/'); }
            let next = if k <= 0 { Some(v) } else { json_member(ns, v, path.take(k)) };
            match next {
                None => None,
                Some(w) => dig_spec(ns, w, path.skip(k + 1)),
            }
        },
    }
}

} // verus!

verus! {

/// Follows a slash path from the root of a JSON document; empty segments are
/// skipped.
pub fn dig(ns: &Vec<JsonNode>, path: &str) -> (r: Option<usize>)
    ensures
        opt_index(r) == dig_spec(json_nodes_view(ns@), 0, path@),
{
    let ghost vs = json_nodes_view(ns@);
    let cs = chars_of(path);
    let n = cs.len();
    let mut cur: usize = 0;
    let mut pos: usize = 0;
    assert(cs@.skip(0) =~= path@);
    loop
        invariant
            pos <= n == cs@.len(),
            cs@ == path@,
            vs == json_nodes_view(ns@),
            dig_spec(vs, 0, path@) == dig_spec(vs, cur as int, cs@.skip(pos as int)),
        decreases n - pos,
    {
        let ghost rest = cs@.skip(pos as int);
        assert(cs@.subrange(pos as int, n as int) =~= rest);
        match find_char_range(&cs, pos, n, '/') {
            None => {
                if pos == n {
                    return Some(cur);
                }
                let key = text::string_from_range(&cs, pos, n);
                return member(ns, cur, key.as_str());
            },
            Some(k) => {
                proof { text::lemma_find_char(rest, '/'); }
                assert(rest.take(k as int) =~= cs@.subrange(pos as int, (pos + k) as int));
                assert(rest.skip(k + 1) =~= cs@.skip((pos + k + 1) as int));
                if k > 0 {
                    let key = text::string_from_range(&cs, pos, pos + k);
                    match member(ns, cur, key.as_str()) {
                        None => { return None; }
                        Some(w) => { cur = w; }
                    }
                }
                pos = pos + k + 1;
            },
        }
    }
}

/// A size or count read from JSON: a non-negative integer number (read from
/// its text), or a string that `u64::from_str` accepts.
pub open spec fn as_u64_spec(ns: Seq<JsonNodeView>, v: Option<int>) -> Option<u64> {
    match v {
        Some(i) => if 0 <= i < ns.len() {
            match ns[i].string {
                Some(s) => text::parse_u64_spec(s),
                None => text::parse_u64_spec(ns[i].text),
            }
        } else {
            None
        },
        None => None,
    }
}

/// Reads a size or seeder count, accepting numbers and numeric strings.
pub fn as_u64(ns: &Vec<JsonNode>, v: Option<usize>) -> (r: Option<u64>)
    ensures
        r == as_u64_spec(json_nodes_view(ns@), opt_index(v)),
{
    let ghost vs = json_nodes_view(ns@);
    match v {
        Some(i) => if i < ns.len() {
            assert(vs[i as int] == ns@[i as int]@);
            let digits = match &ns[i].string {
                Some(s) => s,
                None => &ns[i].text,
            };
            let cs = chars_of(digits.as_str());
            let n = cs.len();
            assert(cs@.subrange(0, n as int) =~= digits@);
            parse_u64_range(&cs, 0, n)
        } else {
            None
        },
        None => None,
    }
}

/// Text read from JSON: a string as is, the first element of an array when it
/// is a string, and the JSON text of any other value.
pub open spec fn as_string_spec(ns: Seq<JsonNodeView>, v: Option<int>) -> Option<Seq<char>> {
    match v {
        Some(i) => if 0 <= i < ns.len() {
            match ns[i].string {
                Some(s) => Some(s),
                None => if is_array_node(ns[i]) {
                    match first_child_from(ns, i, 0) {
                        Some(c) => ns[c].string,
                        None => None,
                    }
                } else {
                    Some(ns[i].text)
                },
            }
        } else {
            None
        },
        None => None,
    }
}

/// Reads a title or link field.
pub fn as_string(ns: &Vec<JsonNode>, v: Option<usize>) -> (r: Option<String>)
    ensures
        text::opt_text(r) == as_string_spec(json_nodes_view(ns@), opt_index(v)),
{
    let ghost vs = json_nodes_view(ns@);
    match v {
        Some(i) => if i < ns.len() {
            assert(vs[i as int] == ns@[i as int]@);
            match &ns[i].string {
                Some(s) => Some(s.clone()),
                None => if is_array_text(&ns[i].text) {
                    proof { lemma_first_child_from_bound(vs, i as int, 0); }
                    match first_child(ns, i) {
                        Some(c) => {
                            assert(vs[c as int] == ns@[c as int]@);
                            match &ns[c].string {
                                Some(s) => Some(s.clone()),
                                None => None,
                            }
                        },
                        None => None,
                    }
                } else {
                    Some(ns[i].text.clone())
                },
            }
        } else {
            None
        },
        None => None,
    }
}

fn literal_string(cs: &[char]) -> (r: String)
    ensures
        r@ == cs@,
{
    let mut out = String::new();
    let mut i: usize = 0;
    while i < cs.len()
        invariant
            i <= cs@.len(),
            out@ == cs@.take(i as int),
        decreases cs@.len() - i,
    {
        push_char(&mut out, cs[i]);
        i = i + 1;
        assert(out@ =~= cs@.take(i as int));
    }
    assert(cs@.take(i as int) =~= cs@);
    out
}

} // verus!

verus! {

/// `{value}`, the slot of a link template.
pub open spec fn value_slot() -> Seq<char> {
    seq!['{', 'v', 'a', 'l', 'u', 'e', '}']
}

/// The optional numeric field `key` of item `item`.
pub open spec fn mapped_u64(ns: Seq<JsonNodeView>, item: int, key: Option<String>) -> Option<u64> {
    match key {
        Some(k) => as_u64_spec(ns, json_member(ns, item, k@)),
        None => None,
    }
}

/// The result item `item` of a JSON response stands for; `None` when its
/// title or link field is missing.
pub open spec fn json_item_spec(map: &JsonMapping, source: Seq<char>, ns: Seq<JsonNodeView>, item: int) -> Option<SearchResultView> {
    match (as_string_spec(ns, json_member(ns, item, map.name@)), as_string_spec(ns, json_member(ns, item, map.link@))) {
        (Some(name), Some(raw)) => Some(SearchResultView {
            name,
            source,
            size: mapped_u64(ns, item, map.size),
            seeders: mapped_u64(ns, item, map.seeders),
            link: match map.link_template {
                Some(t) => text::replace_all(t@, value_slot(), raw),
                None => raw,
            },
        }),
        _ => None,
    }
}

/// The results of the elements of array node `arr` found before index
/// `upto`, in order, skipping unusable elements.
pub open spec fn json_items_spec(map: &JsonMapping, source: Seq<char>, ns: Seq<JsonNodeView>, arr: int, upto: int) -> Seq<SearchResultView>
    decreases upto,
{
    if upto <= 0 {
        Seq::empty()
    } else {
        json_items_spec(map, source, ns, arr, upto - 1) + if ns[upto - 1].parent == Some(arr as usize) {
            match json_item_spec(map, source, ns, upto - 1) {
                Some(r) => seq![r],
                None => Seq::empty(),
            }
        } else {
            Seq::empty()
        }
    }
}

/// Node `i` exists and is an array.
pub open spec fn is_array_at(ns: Seq<JsonNodeView>, i: int) -> bool {
    0 <= i < ns.len() && is_array_node(ns[i])
}

/// What reading a JSON response gives, from the parsed document (or the
/// parser's message): an error for a plugin without a mapping, for a document
/// that did not parse, and for a results path that does not lead to an array.
pub open spec fn json_results_spec(plugin: &SearchPlugin, doc: Result<Seq<JsonNodeView>, Seq<char>>) -> Result<Seq<SearchResultView>, Seq<char>> {
    match plugin.json {
        None => Err(plugin.name@ + ": plugin is kind=json but has no json mapping"@),
        Some(map) => match doc {
            Err(e) => Err(plugin.name@ + ": invalid JSON ("@ + e + ")"@),
            Ok(ns) => match dig_spec(ns, 0, map.results@) {
                Some(a) => if is_array_at(ns, a) {
                    Ok(json_items_spec(&map, plugin.name@, ns, a, ns.len() as int))
                } else {
                    Err(plugin.name@ + ": no results at '"@ + map.results@ + "'"@)
                },
                None => Err(plugin.name@ + ": no results at '"@ + map.results@ + "'"@),
            },
        },
    }
}

/// What reading a JSON response body gives.
pub open spec fn parse_json_spec(plugin: &SearchPlugin, body: Seq<char>) -> Result<Seq<SearchResultView>, Seq<char>> {
    match plugin.json {
        None => json_results_spec(plugin, Err(Seq::empty())),
        Some(_) => json_results_spec(plugin, json_document(body)),
    }
}

fn optional_u64_field(ns: &Vec<JsonNode>, item: usize, key: &Option<String>) -> (r: Option<u64>)
    ensures
        r == mapped_u64(json_nodes_view(ns@), item as int, *key),
{
    match key {
        Some(k) => {
            let m = member(ns, item, k.as_str());
            as_u64(ns, m)
        },
        None => None,
    }
}

fn json_item(map: &JsonMapping, source: &String, ns: &Vec<JsonNode>, item: usize) -> (r: Option<SearchResult>)
    ensures
        r matches Some(x) ==> json_item_spec(map, source@, json_nodes_view(ns@), item as int) == Some(x@),
        r is None ==> json_item_spec(map, source@, json_nodes_view(ns@), item as int) is None,
{
    let name = match as_string(ns, member(ns, item, map.name.as_str())) {
        Some(n) => n,
        None => { return None; }
    };
    let raw = match as_string(ns, member(ns, item, map.link.as_str())) {
        Some(l) => l,
        None => { return None; }
    };
    let link = match &map.link_template {
        Some(t) => {
            let slot = literal_string(&['{', 'v', 'a', 'l', 'u', 'e', '}']);
            assert(slot@ =~= value_slot());
            text::replace(t.as_str(), slot.as_str(), raw.as_str())
        },
        None => raw,
    };
    Some(SearchResult {
        name,
        source: source.clone(),
        size: optional_u64_field(ns, item, &map.size),
        seeders: optional_u64_field(ns, item, &map.seeders),
        link,
    })
}

fn error_text(name: &String, middle: &str, detail: &str, tail: &str) -> (r: String)
    ensures
        r@ == name@ + middle@ + detail@ + tail@,
{
    let mut out = name.clone();
    out.append(middle);
    out.append(detail);
    out.append(tail);
    out
}

/// Reads a parsed JSON search response through the plugin's field mapping.
/// `doc` is the parsed body, or the parser's message when it is not JSON.
pub fn json_results(plugin: &SearchPlugin, doc: &Result<Vec<JsonNode>, String>) -> (r: Result<Vec<SearchResult>, String>)
    ensures
        match (r, json_results_spec(plugin, match doc {
            Ok(ns) => Ok(json_nodes_view(ns@)),
            Err(e) => Err(e@),
        })) {
            (Ok(v), Ok(s)) => results_view(v@) == s,
            (Err(e), Err(s)) => e@ == s,
            _ => false,
        },
{
    let map = match &plugin.json {
        Some(m) => m,
        None => {
            let mut e = plugin.name.clone();
            e.append(": plugin is kind=json but has no json mapping");
            return Err(e);
        },
    };
    let ns = match doc {
        Ok(ns) => ns,
        Err(e) => {
            return Err(error_text(&plugin.name, ": invalid JSON (", e.as_str(), ")"));
        },
    };
    let ghost vs = json_nodes_view(ns@);
    let arr = match dig(ns, map.results.as_str()) {
        Some(a) => a,
        None => {
            return Err(error_text(&plugin.name, ": no results at '", map.results.as_str(), "'"));
        },
    };
    if !(arr < ns.len() && is_array_text(&ns[arr].text)) {
        return Err(error_text(&plugin.name, ": no results at '", map.results.as_str(), "'"));
    }
    let mut out: Vec<SearchResult> = Vec::new();
    let mut q: usize = 0;
    while q < ns.len()
        invariant
            q <= ns@.len(),
            vs == json_nodes_view(ns@),
            results_view(out@) == json_items_spec(map, plugin.name@, vs, arr as int, q as int),
        decreases ns@.len() - q,
    {
        let ghost before = out@;
        assert(vs[q as int] == ns@[q as int]@);
        if ns[q].parent == Some(arr) {
            match json_item(map, &plugin.name, ns, q) {
                Some(x) => {
                    out.push(x);
                    assert(results_view(out@) =~= results_view(before) + seq![x@]);
                },
                None => {
                    assert(results_view(out@) =~= results_view(before) + Seq::<SearchResultView>::empty());
                },
            }
        } else {
            assert(results_view(out@) =~= results_view(before) + Seq::<SearchResultView>::empty());
        }
        q = q + 1;
    }
    Ok(out)
}

/// Reads a JSON search response body through the plugin's field mapping.
pub fn parse_json(plugin: &SearchPlugin, body: &str) -> (r: Result<Vec<SearchResult>, String>)
    ensures
        match (r, parse_json_spec(plugin, body@)) {
            (Ok(v), Ok(s)) => results_view(v@) == s,
            (Err(e), Err(s)) => e@ == s,
            _ => false,
        },
{
    if plugin.json.is_none() {
        return json_results(plugin, &Err(String::new()));
    }
    let doc = parse_json_nodes(body);
    json_results(plugin, &doc)
}

} // verus!

verus! {

/// One node of a parsed XML document, in document order.
#[derive(Clone, Debug)]
pub struct XmlNode {
    /// The node's identity within its document.
    pub id: u32,
    /// The identity of the enclosing node; `None` for the document root.
    pub parent: Option<u32>,
    pub is_element: bool,
    /// Local tag name; empty for a node that is not an element.
    pub name: String,
    /// Attributes as (local name, value), in document order.
    pub attributes: Vec<(String, String)>,
    /// For an element, its leading text child; for a text node, its text.
    pub text: Option<String>,
}

/// The mathematical content of an [`XmlNode`].
pub ghost struct XmlNodeView {
    pub id: u32,
    pub parent: Option<u32>,
    pub is_element: bool,
    pub name: Seq<char>,
    pub attributes: Seq<(Seq<char>, Seq<char>)>,
    pub text: Option<Seq<char>>,
}

impl View for XmlNode {
    type V = XmlNodeView;

    open spec fn view(&self) -> XmlNodeView {
        XmlNodeView {
            id: self.id,
            parent: self.parent,
            is_element: self.is_element,
            name: self.name@,
            attributes: self.attributes@.map_values(|a: (String, String)| (a.0@, a.1@)),
            text: match self.text {
                Some(t) => Some(t@),
                None => None,
            },
        }
    }
}

/// The views of a node list.
pub open spec fn nodes_view(ns: Seq<XmlNode>) -> Seq<XmlNodeView> {
    ns.map_values(|n: XmlNode| n@)
}

/// What `roxmltree::Document::parse` makes of `text`: its nodes from the root
/// on in document order, or the parser's error message.
pub uninterp spec fn xml_document(text: Seq<char>) -> Result<Seq<XmlNodeView>, Seq<char>>;

/// Parses XML with `roxmltree::Document::parse` and lists the document's
/// nodes (`Document::descendants`, root first) with their ids, parents, local
/// tag names, attributes (`Node::attributes`) and text (`Node::text`).
/// Claims that the outcome is `xml_document` of the input, nothing more.
#[verifier::external_body]
fn parse_xml(text: &str) -> (r: Result<Vec<XmlNode>, String>)
    ensures
        match r {
            Ok(ns) => xml_document(text@) == Ok::<Seq<XmlNodeView>, Seq<char>>(nodes_view(ns@)),
            Err(e) => xml_document(text@) == Err::<Seq<XmlNodeView>, Seq<char>>(e@),
        },
{
    match roxmltree::Document::parse(text) {
        Ok(doc) => Ok(doc.descendants().map(|n| XmlNode {
            id: n.id().get(),
            parent: n.parent().map(|p| p.id().get()),
            is_element: n.is_element(),
            name: n.tag_name().name().to_string(),
            attributes: n.attributes().map(|a| (a.name().to_string(), a.value().to_string())).collect(),
            text: n.text().map(|t| t.to_string()),
        }).collect()),
        Err(e) => Err(e.to_string()),
    }
}

/// Index of the first element child of node `pid` named `tag`, at or after `from`.
pub open spec fn child_from(ns: Seq<XmlNodeView>, pid: u32, tag: Seq<char>, from: int) -> Option<int>
    decreases ns.len() - from,
{
    if from < 0 || from >= ns.len() {
        None
    } else if ns[from].parent == Some(pid) && ns[from].is_element && ns[from].name == tag {
        Some(from)
    } else {
        child_from(ns, pid, tag, from + 1)
    }
}

/// Index of the first element child of node `pid` named `tag`.
pub open spec fn child(ns: Seq<XmlNodeView>, pid: u32, tag: Seq<char>) -> Option<int> {
    child_from(ns, pid, tag, 0)
}

/// Value of the first attribute named `key` at or after position `from`.
pub open spec fn attribute_from(attrs: Seq<(Seq<char>, Seq<char>)>, key: Seq<char>, from: int) -> Option<Seq<char>>
    decreases attrs.len() - from,
{
    if from < 0 || from >= attrs.len() {
        None
    } else if attrs[from].0 == key {
        Some(attrs[from].1)
    } else {
        attribute_from(attrs, key, from + 1)
    }
}

/// Value of the first attribute of `n` named `key`.
pub open spec fn attribute(n: XmlNodeView, key: Seq<char>) -> Option<Seq<char>> {
    attribute_from(n.attributes, key, 0)
}

/// The trimmed, non-empty text of the first `tag` child of node `pid`.
pub open spec fn child_text(ns: Seq<XmlNodeView>, pid: u32, tag: Seq<char>) -> Option<Seq<char>> {
    match child(ns, pid, tag) {
        Some(q) => match ns[q].text {
            Some(t) => if text::trim(t).len() > 0 { Some(text::trim(t)) } else { None },
            None => None,
        },
        None => None,
    }
}

/// Whether the node at `p` is an RSS `<item>` or Atom `<entry>`.
pub open spec fn is_feed_item(n: XmlNodeView) -> bool {
    n.is_element && (n.name == "item"@ || n.name == "entry"@)
}

/// The result an `<item>` or `<entry>` stands for: title from `<title>`; link
/// from `<enclosure url>`, else `<link>` text, else `<link href>`; size from
/// `<enclosure length>`, else `<size>`; seeders from `<seeders>`. `None` when
/// the title or the link is missing.
pub open spec fn rss_item_spec(ns: Seq<XmlNodeView>, p: int, source: Seq<char>) -> Option<SearchResultView> {
    let id = ns[p].id;
    match child_text(ns, id, "title"@) {
        None => None,
        Some(name) => {
            let enc = child(ns, id, "enclosure"@);
            let enc_url = match enc { Some(q) => attribute(ns[q], "url"@), None => None };
            let link = match enc_url {
                Some(u) => Some(u),
                None => match child_text(ns, id, "link"@) {
                    Some(l) => Some(l),
                    None => match child(ns, id, "link"@) {
                        Some(q) => attribute(ns[q], "href"@),
                        None => None,
                    },
                },
            };
            match link {
                None => None,
                Some(link) => {
                    let enc_len = match enc {
                        Some(q) => match attribute(ns[q], "length"@) {
                            Some(l) => text::parse_u64_spec(l),
                            None => None,
                        },
                        None => None,
                    };
                    let size = match enc_len {
                        Some(s) => Some(s),
                        None => match child_text(ns, id, "size"@) {
                            Some(s) => text::parse_u64_spec(s),
                            None => None,
                        },
                    };
                    let seeders = match child(ns, id, "seeders"@) {
                        Some(q) => match ns[q].text {
                            Some(t) => text::parse_u64_spec(text::trim(t)),
                            None => None,
                        },
                        None => None,
                    };
                    Some(SearchResultView { name, source, size, seeders, link })
                },
            }
        },
    }
}

/// The results of the first `k` nodes of a feed, in document order.
pub open spec fn rss_items_spec(ns: Seq<XmlNodeView>, source: Seq<char>, k: int) -> Seq<SearchResultView>
    decreases k,
{
    if k <= 0 || k > ns.len() {
        Seq::empty()
    } else {
        rss_items_spec(ns, source, k - 1) + if is_feed_item(ns[k - 1]) {
            match rss_item_spec(ns, k - 1, source) {
                Some(r) => seq![r],
                None => Seq::empty(),
            }
        } else {
            Seq::empty()
        }
    }
}

fn find_child(ns: &Vec<XmlNode>, pid: u32, tag: &str) -> (r: Option<usize>)
    ensures
        r matches Some(q) ==> child(nodes_view(ns@), pid, tag@) == Some(q as int) && q < ns@.len(),
        r is None ==> child(nodes_view(ns@), pid, tag@) is None,
{
    let ghost v = nodes_view(ns@);
    let mut i: usize = 0;
    while i < ns.len()
        invariant
            i <= ns@.len(),
            v == nodes_view(ns@),
            child(v, pid, tag@) == child_from(v, pid, tag@, i as int),
        decreases ns@.len() - i,
    {
        let n = &ns[i];
        assert(v[i as int] == n@);
        if n.parent == Some(pid) && n.is_element && string_eq_str(&n.name, tag) {
            return Some(i);
        }
        i = i + 1;
    }
    None
}

fn find_attribute(n: &XmlNode, key: &str) -> (r: Option<String>)
    ensures
        r.deep_view() == attribute(n@, key@),
{
    let ghost attrs = n@.attributes;
    let mut i: usize = 0;
    while i < n.attributes.len()
        invariant
            i <= n.attributes@.len(),
            attrs == n@.attributes,
            attribute(n@, key@) == attribute_from(attrs, key@, i as int),
        decreases n.attributes@.len() - i,
    {
        assert(attrs[i as int] == (n.attributes@[i as int].0@, n.attributes@[i as int].1@));
        if string_eq_str(&n.attributes[i].0, key) {
            return Some(n.attributes[i].1.clone());
        }
        i = i + 1;
    }
    None
}

fn trimmed(s: &String) -> (r: Option<String>)
    ensures
        r.deep_view() == (if text::trim(s@).len() > 0 { Some(text::trim(s@)) } else { None }),
{
    let cs = chars_of(s.as_str());
    let n = cs.len();
    assert(cs@.subrange(0, n as int) =~= s@);
    let (a, b) = trim_range(&cs, 0, n);
    if a == b {
        None
    } else {
        Some(text::string_from_range(&cs, a, b))
    }
}

fn parse_u64_of(s: &String, trim_first: bool) -> (r: Option<u64>)
    ensures
        r == text::parse_u64_spec(if trim_first { text::trim(s@) } else { s@ }),
{
    let cs = chars_of(s.as_str());
    let n = cs.len();
    assert(cs@.subrange(0, n as int) =~= s@);
    if trim_first {
        let (a, b) = trim_range(&cs, 0, n);
        parse_u64_range(&cs, a, b)
    } else {
        parse_u64_range(&cs, 0, n)
    }
}

fn child_text_of(ns: &Vec<XmlNode>, pid: u32, tag: &str) -> (r: Option<String>)
    ensures
        r.deep_view() == child_text(nodes_view(ns@), pid, tag@),
{
    match find_child(ns, pid, tag) {
        Some(q) => {
            assert(nodes_view(ns@)[q as int] == ns@[q as int]@);
            match &ns[q].text {
                Some(t) => trimmed(t),
                None => None,
            }
        },
        None => None,
    }
}

fn rss_item(ns: &Vec<XmlNode>, p: usize, source: &String) -> (r: Option<SearchResult>)
    requires
        p < ns@.len(),
    ensures
        r matches Some(x) ==> rss_item_spec(nodes_view(ns@), p as int, source@) == Some(x@),
        r is None ==> rss_item_spec(nodes_view(ns@), p as int, source@) is None,
{
    let ghost v = nodes_view(ns@);
    let id = ns[p].id;
    assert(v[p as int].id == id);
    let name = match child_text_of(ns, id, "title") {
        Some(t) => t,
        None => { return None; }
    };
    let enc = find_child(ns, id, "enclosure");
    let enc_url = match enc {
        Some(q) => find_attribute(&ns[q], "url"),
        None => None,
    };
    let link = match enc_url {
        Some(u) => u,
        None => match child_text_of(ns, id, "link") {
            Some(l) => l,
            None => match find_child(ns, id, "link") {
                Some(q) => match find_attribute(&ns[q], "href") {
                    Some(h) => h,
                    None => { return None; }
                },
                None => { return None; }
            },
        },
    };
    let enc_len = match enc {
        Some(q) => match find_attribute(&ns[q], "length") {
            Some(l) => parse_u64_of(&l, false),
            None => None,
        },
        None => None,
    };
    let size = match enc_len {
        Some(s) => Some(s),
        None => match child_text_of(ns, id, "size") {
            Some(s) => parse_u64_of(&s, false),
            None => None,
        },
    };
    let seeders = match find_child(ns, id, "seeders") {
        Some(q) => match &ns[q].text {
            Some(t) => parse_u64_of(t, true),
            None => None,
        },
        None => None,
    };
    Some(SearchResult { name, source: source.clone(), size, seeders, link })
}

/// `r` are the results of the first `k` nodes of a feed, given by the nodes
/// at `pos`: each one a feed item's result, named by its title and credited
/// to `source`, the nodes in document order, and no item with a title and a
/// link left out.
pub open spec fn feed_results_from(
    ns: Seq<XmlNodeView>,
    source: Seq<char>,
    k: int,
    r: Seq<SearchResultView>,
    pos: Seq<int>,
) -> bool {
    &&& pos.len() == r.len()
    &&& forall|j: int|
        0 <= j < pos.len() ==> {
            &&& 0 <= #[trigger] pos[j] < k
            &&& is_feed_item(ns[pos[j]])
            &&& rss_item_spec(ns, pos[j], source) == Some(r[j])
            &&& r[j].source == source
            &&& child_text(ns, ns[pos[j]].id, "title"@) == Some(r[j].name)
        }
    &&& forall|a: int, b: int| 0 <= a < b < pos.len() ==> #[trigger] pos[a] < #[trigger] pos[b]
    &&& forall|q: int|
        0 <= q < k && is_feed_item(ns[q]) && (#[trigger] rss_item_spec(ns, q, source)).is_some() ==> pos.contains(q)
}

proof fn lemma_item_fields(ns: Seq<XmlNodeView>, p: int, source: Seq<char>)
    ensures
        rss_item_spec(ns, p, source) matches Some(x) ==> (x.source == source && child_text(ns, ns[p].id, "title"@)
            == Some(x.name)),
{
}

proof fn lemma_feed_positions(ns: Seq<XmlNodeView>, source: Seq<char>, k: int) -> (pos: Seq<int>)
    requires
        0 <= k <= ns.len(),
    ensures
        feed_results_from(ns, source, k, rss_items_spec(ns, source, k), pos),
    decreases k,
{
    if k == 0 {
        let pos = Seq::<int>::empty();
        assert(rss_items_spec(ns, source, 0) =~= Seq::<SearchResultView>::empty());
        pos
    } else {
        let prev = lemma_feed_positions(ns, source, k - 1);
        let r0 = rss_items_spec(ns, source, k - 1);
        let r = rss_items_spec(ns, source, k);
        let p = k - 1;
        lemma_item_fields(ns, p, source);
        if is_feed_item(ns[p]) && rss_item_spec(ns, p, source).is_some() {
            let x = rss_item_spec(ns, p, source).unwrap();
            let pos = prev.push(p);
            assert(r =~= r0 + seq![x]);
            assert forall|j: int| 0 <= j < pos.len() implies {
                &&& 0 <= #[trigger] pos[j] < k
                &&& is_feed_item(ns[pos[j]])
                &&& rss_item_spec(ns, pos[j], source) == Some(r[j])
                &&& r[j].source == source
                &&& child_text(ns, ns[pos[j]].id, "title"@) == Some(r[j].name)
            } by {
                if j < prev.len() {
                    assert(pos[j] == prev[j]);
                    assert(r[j] == r0[j]);
                    lemma_item_fields(ns, prev[j], source);
                } else {
                    assert(pos[j] == p);
                    assert(r[j] == x);
                }
            }
            assert forall|a: int, b: int| 0 <= a < b < pos.len() implies #[trigger] pos[a] < #[trigger] pos[b] by {
                assert(pos[a] == prev[a]);
                if b < prev.len() {
                    assert(pos[b] == prev[b]);
                } else {
                    assert(0 <= prev[a] < k - 1);
                }
            }
            assert forall|q: int|
                0 <= q < k && is_feed_item(ns[q]) && (#[trigger] rss_item_spec(ns, q, source)).is_some() implies pos.contains(q) by {
                if q < k - 1 {
                    assert(prev.contains(q));
                    let idx = choose|idx: int| 0 <= idx < prev.len() && prev[idx] == q;
                    assert(pos[idx] == q);
                } else {
                    assert(pos[prev.len() as int] == q);
                }
            }
            pos
        } else {
            assert(r =~= r0) by {
                if is_feed_item(ns[p]) {
                    assert(rss_item_spec(ns, p, source).is_none());
                }
            }
            assert forall|q: int|
                0 <= q < k && is_feed_item(ns[q]) && (#[trigger] rss_item_spec(ns, q, source)).is_some() implies prev.contains(q) by {
                if q == k - 1 {
                    assert(false);
                }
            }
            assert forall|j: int| 0 <= j < prev.len() implies 0 <= #[trigger] prev[j] < k by {}
            prev
        }
    }
}

/// A feed gives one result per `<item>` or `<entry>` that has a title and a
/// link, in document order, each named by its title and credited to the
/// source that was searched.
pub proof fn law_feed_results(ns: Seq<XmlNodeView>, source: Seq<char>)
    ensures
        exists|pos: Seq<int>|
            #[trigger] feed_results_from(ns, source, ns.len() as int, rss_items_spec(ns, source, ns.len() as int), pos),
{
    let pos = lemma_feed_positions(ns, source, ns.len() as int);
    assert(feed_results_from(ns, source, ns.len() as int, rss_items_spec(ns, source, ns.len() as int), pos));
}

/// Turns the nodes of a parsed feed into results: one per `<item>` or
/// `<entry>` that has a title and a link, in document order.
pub fn rss_results(source: &String, ns: &Vec<XmlNode>) -> (r: Vec<SearchResult>)
    ensures
        results_view(r@) == rss_items_spec(nodes_view(ns@), source@, ns@.len() as int),
{
    let ghost v = nodes_view(ns@);
    let mut out: Vec<SearchResult> = Vec::new();
    let mut i: usize = 0;
    while i < ns.len()
        invariant
            i <= ns@.len(),
            v == nodes_view(ns@),
            results_view(out@) == rss_items_spec(v, source@, i as int),
        decreases ns@.len() - i,
    {
        let ghost before = out@;
        assert(v[i as int] == ns@[i as int]@);
        let n = &ns[i];
        if n.is_element && (string_eq_str(&n.name, "item") || string_eq_str(&n.name, "entry")) {
            match rss_item(ns, i, source) {
                Some(x) => {
                    out.push(x);
                    assert(results_view(out@) =~= results_view(before) + seq![x@]);
                },
                None => {
                    assert(results_view(out@) =~= results_view(before) + Seq::<SearchResultView>::empty());
                },
            }
        } else {
            assert(results_view(out@) =~= results_view(before) + Seq::<SearchResultView>::empty());
        }
        i = i + 1;
    }
    out
}

/// What reading an RSS or Atom response gives.
pub open spec fn parse_rss_spec(plugin: &SearchPlugin, body: Seq<char>) -> Result<Seq<SearchResultView>, Seq<char>> {
    match xml_document(body) {
        Err(e) => Err(plugin.name@ + ": invalid XML ("@ + e + ")"@),
        Ok(ns) => Ok(rss_items_spec(ns, plugin.name@, ns.len() as int)),
    }
}

/// Reads an RSS or Atom search response.
pub fn parse_rss(plugin: &SearchPlugin, body: &str) -> (r: Result<Vec<SearchResult>, String>)
    ensures
        match (r, parse_rss_spec(plugin, body@)) {
            (Ok(v), Ok(s)) => results_view(v@) == s,
            (Err(e), Err(s)) => e@ == s,
            _ => false,
        },
{
    match parse_xml(body) {
        Err(e) => Err(error_text(&plugin.name, ": invalid XML (", e.as_str(), ")")),
        Ok(ns) => {
            proof {
                assert(nodes_view(ns@).len() == ns@.len());
            }
            Ok(rss_results(&plugin.name, &ns))
        },
    }
}

} // verus!

verus! {

impl crate::sort::Ranked for SearchPlugin {
    /// Plugins are listed by name, ignoring case.
    open spec fn before(&self, other: &Self) -> bool {
        text::lex_lt(text::lowercase(self.name@), text::lowercase(other.name@))
    }

    proof fn lemma_irreflexive(a: &Self) {
        text::lemma_lex_irreflexive(text::lowercase(a.name@));
    }

    proof fn lemma_transitive(a: &Self, b: &Self, c: &Self) {
        text::lemma_lex_transitive(text::lowercase(a.name@), text::lowercase(b.name@), text::lowercase(c.name@));
    }

    proof fn lemma_split(a: &Self, b: &Self, c: &Self) {
        text::lemma_lex_split(text::lowercase(a.name@), text::lowercase(b.name@), text::lowercase(c.name@));
    }

    fn precedes(&self, other: &Self) -> (r: bool) {
        let a = chars_of(text::to_lowercase(self.name.as_str()).as_str());
        let b = chars_of(text::to_lowercase(other.name.as_str()).as_str());
        text::lex_less(&a, &b)
    }
}

/// The seeder count a result is ranked by (none counts as 0).
pub open spec fn seeders_key(r: &SearchResult) -> u64 {
    match r.seeders { Some(s) => s, None => 0 }
}

/// The size a result is ranked by among equal seeder counts (none counts as 0).
pub open spec fn size_key(r: &SearchResult) -> u64 {
    match r.size { Some(s) => s, None => 0 }
}

impl crate::sort::Ranked for SearchResult {
    /// Most seeders first, then largest first.
    open spec fn before(&self, other: &Self) -> bool {
        seeders_key(self) > seeders_key(other)
            || (seeders_key(self) == seeders_key(other) && size_key(self) > size_key(other))
    }

    proof fn lemma_irreflexive(a: &Self) {
    }

    proof fn lemma_transitive(a: &Self, b: &Self, c: &Self) {
    }

    proof fn lemma_split(a: &Self, b: &Self, c: &Self) {
    }

    fn precedes(&self, other: &Self) -> (r: bool) {
        let sa = match self.seeders { Some(s) => s, None => 0 };
        let sb = match other.seeders { Some(s) => s, None => 0 };
        let za = match self.size { Some(s) => s, None => 0 };
        let zb = match other.size { Some(s) => s, None => 0 };
        sa > sb || (sa == sb && za > zb)
    }
}

/// Orders the combined results of all sources: most seeders first, then
/// largest, ties in the order the sources returned them.
pub fn rank_results(results: Vec<SearchResult>) -> (r: Vec<SearchResult>)
    ensures
        exists|perm: Seq<int>| crate::sort::is_stable_sort_of(r@, results@, perm),
{
    crate::sort::stable_sort(results)
}

/// `p` with its `builtin` flag set to `b`.
pub open spec fn with_builtin(p: SearchPlugin, b: bool) -> SearchPlugin {
    SearchPlugin { builtin: b, ..p }
}

/// `p` with its `enabled` flag set to `e`.
pub open spec fn with_enabled(p: SearchPlugin, e: bool) -> SearchPlugin {
    SearchPlugin { enabled: e, ..p }
}

/// `s` without the plugins whose id is `id`.
pub open spec fn without_id(s: Seq<SearchPlugin>, id: Seq<char>) -> Seq<SearchPlugin>
    decreases s.len(),
{
    if s.len() == 0 {
        s
    } else if s.last().id@ == id {
        without_id(s.drop_last(), id)
    } else {
        without_id(s.drop_last(), id).push(s.last())
    }
}

/// The plugin set after each user plugin, in turn, replaces any plugin with
/// its id and is appended as not built in.
pub open spec fn overlay(acc: Seq<SearchPlugin>, users: Seq<SearchPlugin>) -> Seq<SearchPlugin>
    decreases users.len(),
{
    if users.len() == 0 {
        acc
    } else {
        overlay(without_id(acc, users[0].id@).push(with_builtin(users[0], false)), users.drop_first())
    }
}

/// Every plugin flagged as built in.
pub open spec fn all_builtin(s: Seq<SearchPlugin>) -> Seq<SearchPlugin> {
    s.map_values(|p: SearchPlugin| with_builtin(p, true))
}

/// Every plugin enabled unless its id is in `disabled`.
pub open spec fn apply_disabled(s: Seq<SearchPlugin>, disabled: Seq<Seq<char>>) -> Seq<SearchPlugin> {
    s.map_values(|p: SearchPlugin| with_enabled(p, !disabled.contains(p.id@)))
}

/// After a source is enabled or disabled, every plugin with its id shows
/// that state, whatever the list of disabled ids held before.
pub proof fn law_toggle_reaches_plugins(s: Seq<SearchPlugin>, ids: Seq<Seq<char>>, id: Seq<char>, enabled: bool)
    ensures
        forall|k: int|
            0 <= k < s.len() && s[k].id@ == id ==> (#[trigger] apply_disabled(
                s,
                settings::disabled_ids_after(ids, id, enabled),
            )[k]).enabled == enabled,
{
    let after = settings::disabled_ids_after(ids, id, enabled);
    settings::lemma_drop_id_excludes(ids, id);
    if !enabled {
        let once = settings::drop_id(ids, id);
        assert(after[once.len() as int] == id);
        assert(after.contains(id));
    }
}

/// The views of a list of strings.
pub open spec fn strings_view(v: Seq<String>) -> Seq<Seq<char>> {
    v.map_values(|s: String| s@)
}

fn contains_string(list: &Vec<String>, s: &String) -> (r: bool)
    ensures
        r == strings_view(list@).contains(s@),
{
    let mut i: usize = 0;
    while i < list.len()
        invariant
            i <= list@.len(),
            forall|j: int| 0 <= j < i ==> list@[j]@ != s@,
        decreases list@.len() - i,
    {
        if string_eq_str(s, list[i].as_str()) {
            assert(strings_view(list@)[i as int] == s@);
            return true;
        }
        i = i + 1;
    }
    assert forall|j: int| 0 <= j < strings_view(list@).len() implies strings_view(list@)[j] != s@ by {
        assert(strings_view(list@)[j] == list@[j]@);
    }
    false
}

fn remove_id(v: Vec<SearchPlugin>, id: &String) -> (r: Vec<SearchPlugin>)
    ensures
        r@ == without_id(v@, id@),
{
    let ghost s = v@;
    let mut rest = v;
    let mut out: Vec<SearchPlugin> = Vec::new();
    let mut i: usize = 0;
    let n = rest.len();
    while i < n
        invariant
            n == s.len(),
            i <= n,
            rest@ == s.skip(i as int),
            out@ == without_id(s.take(i as int), id@),
        decreases n - i,
    {
        let p = rest.remove(0);
        assert(p == s[i as int]);
        assert(rest@ =~= s.skip(i + 1));
        assert(s.take(i + 1).drop_last() =~= s.take(i as int));
        if !string_eq_str(&p.id, id.as_str()) {
            out.push(p);
        }
        i = i + 1;
    }
    assert(s.take(n as int) =~= s);
    out
}

/// Combines the built-in plugins with those the user added: every built-in is
/// flagged as such, each user plugin (in the order given) replaces any plugin
/// with the same id, a plugin is enabled unless its id is in `disabled`, and
/// the list is sorted by name ignoring case, ties kept in order.
pub fn merge_plugins(builtin: Vec<SearchPlugin>, user: Vec<SearchPlugin>, disabled: &Vec<String>) -> (r: Vec<SearchPlugin>)
    ensures
        exists|perm: Seq<int>| crate::sort::is_stable_sort_of(
            r@,
            apply_disabled(overlay(all_builtin(builtin@), user@), strings_view(disabled@)),
            perm,
        ),
{
    let ghost b0 = builtin@;
    let ghost u0 = user@;
    let mut acc: Vec<SearchPlugin> = Vec::new();
    let mut rest = builtin;
    let mut i: usize = 0;
    let n = rest.len();
    while i < n
        invariant
            n == b0.len(),
            i <= n,
            rest@ == b0.skip(i as int),
            acc@ == all_builtin(b0.take(i as int)),
        decreases n - i,
    {
        let mut p = rest.remove(0);
        assert(p == b0[i as int]);
        assert(rest@ =~= b0.skip(i + 1));
        p.builtin = true;
        acc.push(p);
        i = i + 1;
        assert(acc@ =~= all_builtin(b0.take(i as int)));
    }
    assert(b0.take(n as int) =~= b0);
    let mut users = user;
    let m = users.len();
    let mut j: usize = 0;
    assert(u0.skip(0) =~= u0);
    while j < m
        invariant
            m == u0.len(),
            j <= m,
            users@ == u0.skip(j as int),
            overlay(acc@, users@) == overlay(all_builtin(b0), u0),
        decreases m - j,
    {
        let mut p = users.remove(0);
        assert(p == u0[j as int]);
        assert(users@ =~= u0.skip(j + 1));
        assert(u0.skip(j as int).drop_first() =~= u0.skip(j + 1));
        let kept = remove_id(acc, &p.id);
        acc = kept;
        p.builtin = false;
        acc.push(p);
        j = j + 1;
    }
    assert(users@ =~= Seq::<SearchPlugin>::empty());
    let ghost merged = acc@;
    let mut flagged: Vec<SearchPlugin> = Vec::new();
    let k = acc.len();
    let mut t: usize = 0;
    while t < k
        invariant
            k == merged.len(),
            t <= k,
            acc@ == merged.skip(t as int),
            flagged@ == apply_disabled(merged.take(t as int), strings_view(disabled@)),
        decreases k - t,
    {
        let mut p = acc.remove(0);
        assert(p == merged[t as int]);
        assert(acc@ =~= merged.skip(t + 1));
        let off = contains_string(disabled, &p.id);
        p.enabled = !off;
        flagged.push(p);
        t = t + 1;
        assert(flagged@ =~= apply_disabled(merged.take(t as int), strings_view(disabled@)));
    }
    assert(merged.take(k as int) =~= merged);
    crate::sort::stable_sort(flagged)
}

/// How many plugins of `s` have id `id`.
pub open spec fn id_count(s: Seq<SearchPlugin>, id: Seq<char>) -> nat
    decreases s.len(),
{
    if s.len() == 0 {
        0
    } else {
        id_count(s.drop_last(), id) + if s.last().id@ == id { 1nat } else { 0nat }
    }
}

/// How many built-in plugins of `s` have id `id`.
pub open spec fn builtin_count(s: Seq<SearchPlugin>, id: Seq<char>) -> nat
    decreases s.len(),
{
    if s.len() == 0 {
        0
    } else {
        builtin_count(s.drop_last(), id) + if s.last().id@ == id && s.last().builtin { 1nat } else { 0nat }
    }
}

/// Exactly one plugin of `s` has id `id`, and it is the user's.
pub open spec fn only_user_plugin(s: Seq<SearchPlugin>, id: Seq<char>) -> bool {
    exists|i: int|
        0 <= i < s.len() && (#[trigger] s[i]).id@ == id && !s[i].builtin && forall|j: int|
            0 <= j < s.len() && (#[trigger] s[j]).id@ == id ==> j == i
}

proof fn lemma_without_id_counts(s: Seq<SearchPlugin>, y: Seq<char>, x: Seq<char>)
    ensures
        id_count(without_id(s, y), x) == (if x == y { 0 } else { id_count(s, x) }),
        builtin_count(without_id(s, y), x) == (if x == y { 0 } else { builtin_count(s, x) }),
    decreases s.len(),
{
    if s.len() > 0 {
        lemma_without_id_counts(s.drop_last(), y, x);
        if s.last().id@ != y {
            assert(without_id(s, y).push(s.last()).drop_last() =~= without_id(s, y));
            let w = without_id(s.drop_last(), y);
            assert(w.push(s.last()).drop_last() =~= w);
        }
    }
}

proof fn lemma_push_counts(s: Seq<SearchPlugin>, p: SearchPlugin, x: Seq<char>)
    ensures
        id_count(s.push(p), x) == id_count(s, x) + if p.id@ == x { 1nat } else { 0nat },
        builtin_count(s.push(p), x) == builtin_count(s, x) + if p.id@ == x && p.builtin { 1nat } else { 0nat },
{
    assert(s.push(p).drop_last() =~= s);
}

/// Once a user plugin with id `x` is in, it stays the only plugin with that
/// id; and any user plugin with id `x` among `users` puts it in that state.
proof fn lemma_overlay_replaces(acc: Seq<SearchPlugin>, users: Seq<SearchPlugin>, x: Seq<char>)
    ensures
        (id_count(acc, x) == 1 && builtin_count(acc, x) == 0) || (exists|k: int| 0 <= k < users.len() && (#[trigger] users[k]).id@ == x)
            ==> id_count(overlay(acc, users), x) == 1 && builtin_count(overlay(acc, users), x) == 0,
    decreases users.len(),
{
    if users.len() > 0 {
        let u = users[0];
        let next = without_id(acc, u.id@).push(with_builtin(u, false));
        lemma_without_id_counts(acc, u.id@, x);
        lemma_push_counts(without_id(acc, u.id@), with_builtin(u, false), x);
        lemma_overlay_replaces(next, users.drop_first(), x);
        if exists|k: int| 0 <= k < users.len() && (#[trigger] users[k]).id@ == x {
            let k = choose|k: int| 0 <= k < users.len() && (#[trigger] users[k]).id@ == x;
            if k > 0 {
                assert(users.drop_first()[k - 1] == users[k]);
            }
        }
    }
}

proof fn lemma_apply_disabled_counts(s: Seq<SearchPlugin>, d: Seq<Seq<char>>, x: Seq<char>)
    ensures
        id_count(apply_disabled(s, d), x) == id_count(s, x),
        builtin_count(apply_disabled(s, d), x) == builtin_count(s, x),
    decreases s.len(),
{
    if s.len() > 0 {
        lemma_apply_disabled_counts(s.drop_last(), d, x);
        assert(apply_disabled(s, d).drop_last() =~= apply_disabled(s.drop_last(), d));
    }
}

proof fn lemma_count_zero(s: Seq<SearchPlugin>, x: Seq<char>)
    requires
        id_count(s, x) == 0,
    ensures
        forall|j: int| 0 <= j < s.len() ==> (#[trigger] s[j]).id@ != x,
    decreases s.len(),
{
    if s.len() > 0 {
        lemma_count_zero(s.drop_last(), x);
        assert forall|j: int| 0 <= j < s.len() implies (#[trigger] s[j]).id@ != x by {
            if j < s.len() - 1 {
                assert(s.drop_last()[j] == s[j]);
            }
        }
    }
}

proof fn lemma_count_one(s: Seq<SearchPlugin>, x: Seq<char>)
    requires
        id_count(s, x) == 1,
        builtin_count(s, x) == 0,
    ensures
        only_user_plugin(s, x),
    decreases s.len(),
{
    let t = s.drop_last();
    if s.last().id@ == x {
        lemma_count_zero(t, x);
        let i = s.len() - 1;
        assert forall|j: int| 0 <= j < s.len() && (#[trigger] s[j]).id@ == x implies j == i by {
            if j < i {
                assert(t[j] == s[j]);
            }
        }
        assert(s[i].id@ == x && !s[i].builtin);
    } else {
        lemma_count_one(t, x);
        let i = choose|i: int|
            0 <= i < t.len() && (#[trigger] t[i]).id@ == x && !t[i].builtin && forall|j: int|
                0 <= j < t.len() && (#[trigger] t[j]).id@ == x ==> j == i;
        assert(s[i] == t[i]);
        assert forall|j: int| 0 <= j < s.len() && (#[trigger] s[j]).id@ == x implies j == i by {
            if j < s.len() - 1 {
                assert(t[j] == s[j]);
            }
        }
    }
}

/// A user plugin that reuses an id replaces every plugin with that id,
/// built-in ones included: in the merged list exactly one plugin has that
/// id, and it is not a built-in.
pub proof fn law_user_plugin_replaces(
    builtin: Seq<SearchPlugin>,
    user: Seq<SearchPlugin>,
    disabled: Seq<Seq<char>>,
    merged: Seq<SearchPlugin>,
    perm: Seq<int>,
    k: int,
)
    requires
        crate::sort::is_stable_sort_of(merged, apply_disabled(overlay(all_builtin(builtin), user), disabled), perm),
        0 <= k < user.len(),
    ensures
        only_user_plugin(merged, user[k].id@),
{
    let x = user[k].id@;
    let m = apply_disabled(overlay(all_builtin(builtin), user), disabled);
    lemma_overlay_replaces(all_builtin(builtin), user, x);
    lemma_apply_disabled_counts(overlay(all_builtin(builtin), user), disabled, x);
    lemma_count_one(m, x);
    let i = choose|i: int|
        0 <= i < m.len() && (#[trigger] m[i]).id@ == x && !m[i].builtin && forall|j: int|
            0 <= j < m.len() && (#[trigger] m[j]).id@ == x ==> j == i;
    crate::sort::lemma_perm_onto(perm, m.len() as int, i);
    let t = choose|t: int| 0 <= t < perm.len() && perm[t] == i;
    assert(merged[t] == m[i]);
    assert forall|j: int| 0 <= j < merged.len() && (#[trigger] merged[j]).id@ == x implies j == t by {
        assert(merged[j] == m[perm[j]]);
        assert(perm[j] == i);
        if j != t {
            if j < t {
                assert(perm[j] != perm[t]);
            } else {
                assert(perm[t] != perm[j]);
            }
        }
    }
}

/// Only the plugins that are switched on.
pub fn enabled_plugins(plugins: Vec<SearchPlugin>) -> (r: Vec<SearchPlugin>)
    ensures
        r@ == plugins@.filter(|p: SearchPlugin| p.enabled),
{
    let ghost s = plugins@;
    let mut rest = plugins;
    let mut out: Vec<SearchPlugin> = Vec::new();
    let mut i: usize = 0;
    let n = rest.len();
    while i < n
        invariant
            n == s.len(),
            i <= n,
            rest@ == s.skip(i as int),
            out@ == s.take(i as int).filter(|p: SearchPlugin| p.enabled),
        decreases n - i,
    {
        let p = rest.remove(0);
        assert(p == s[i as int]);
        assert(rest@ =~= s.skip(i + 1));
        assert(s.take(i + 1).drop_last() =~= s.take(i as int));
        proof { reveal_with_fuel(Seq::<_>::filter, 1); }
        if p.enabled {
            out.push(p);
        }
        i = i + 1;
    }
    assert(s.take(n as int) =~= s);
    out
}

} // verus!

verus! {

/// At most this many results are kept from each source.
pub const MAX_RESULTS_PER_PLUGIN: usize = 60;

/// `{query}`, the slot of a plugin's request URL.
pub open spec fn query_slot() -> Seq<char> {
    seq!['{', 'q', 'u', 'e', 'r', 'y', '}']
}

/// The URL a plugin is asked: its browse URL (if any) when there are no search
/// terms, else its URL with `{query}` replaced by the form-encoded terms.
pub open spec fn request_url_spec(plugin: &SearchPlugin, query: Seq<char>) -> Option<Seq<char>> {
    if query.len() == 0 {
        match plugin.browse_url {
            Some(u) => Some(u@),
            None => None,
        }
    } else {
        Some(text::replace_all(plugin.url@, query_slot(), crate::encoding::form_escape(vstd::utf8::encode_utf8(query))))
    }
}

/// The URL to fetch for `query`; `None` means the plugin has nothing to
/// contribute (no terms and no browse listing).
pub fn request_url(plugin: &SearchPlugin, query: &str) -> (r: Option<String>)
    ensures
        r.deep_view() == request_url_spec(plugin, query@),
{
    if query.is_empty() {
        match &plugin.browse_url {
            Some(u) => Some(u.clone()),
            None => None,
        }
    } else {
        let slot = literal_string(&['{', 'q', 'u', 'e', 'r', 'y', '}']);
        assert(slot@ =~= query_slot());
        let terms = crate::encoding::encode(query);
        Some(text::replace(plugin.url.as_str(), slot.as_str(), terms.as_str()))
    }
}

/// Keeps the first [`MAX_RESULTS_PER_PLUGIN`] results of one source.
pub fn cap_results(results: Vec<SearchResult>) -> (r: Vec<SearchResult>)
    ensures
        r@ == (if results@.len() <= MAX_RESULTS_PER_PLUGIN { results@ } else {
            results@.take(MAX_RESULTS_PER_PLUGIN as int)
        }),
{
    let mut v = results;
    v.truncate(MAX_RESULTS_PER_PLUGIN);
    proof {
        if v@.len() <= MAX_RESULTS_PER_PLUGIN {
        }
    }
    v
}

/// A plugin file is named `*.json`: its extension, the text after the last
/// `.` when something precedes that `.` (as `Path::extension` reads it), is
/// `json`.
pub open spec fn plugin_file_spec(name: Seq<char>) -> bool {
    match crate::detail::last_index_of(name, '.') {
        Some(k) => k > 0 && name.skip(k + 1) == "json"@,
        None => false,
    }
}

proof fn lemma_last_index_of_bound(cs: Seq<char>, c: char)
    ensures
        crate::detail::last_index_of(cs, c) matches Some(k) ==> 0 <= k < cs.len() && cs[k] == c && forall|j: int|
            k < j < cs.len() ==> cs[j] != c,
    decreases cs.len(),
{
    if cs.len() > 0 && cs.last() != c {
        lemma_last_index_of_bound(cs.drop_last(), c);
        if let Some(k) = crate::detail::last_index_of(cs.drop_last(), c) {
            assert(cs.drop_last()[k] == cs[k]);
            assert forall|j: int| k < j < cs.len() implies cs[j] != c by {
                if j < cs.len() - 1 {
                    assert(cs.drop_last()[j] == cs[j]);
                }
            }
        }
    }
}

/// Whether a file in the plugins folder is read as a plugin.
pub fn is_plugin_file_name(name: &str) -> (r: bool)
    ensures
        r == plugin_file_spec(name@),
{
    let cs = chars_of(name);
    let mut k: usize = cs.len();
    while k > 0 && cs[k - 1] != '.'
        invariant
            k <= cs@.len(),
            cs@ == name@,
            forall|j: int| k <= j < cs@.len() ==> cs@[j] != '.',
        decreases k,
    {
        k = k - 1;
    }
    proof {
        lemma_last_index_of_bound(cs@, '.');
    }
    if k == 0 {
        proof {
            if let Some(q) = crate::detail::last_index_of(cs@, '.') {
                assert(cs@[q] == '.');
            }
        }
        return false;
    }
    let dot = k - 1;
    proof {
        if let Some(q) = crate::detail::last_index_of(cs@, '.') {
            assert(q == dot);
        } else {
            crate::detail::lemma_last_index_of_some(cs@, '.', dot as int);
        }
    }
    if dot == 0 {
        return false;
    }
    let ext = text::string_from_range(&cs, k, cs.len());
    assert(ext@ =~= cs@.skip(k as int));
    string_eq_str(&ext, "json")
}

/// The folder name that holds user plugins.
pub open spec fn plugins_folder_name() -> Seq<char> {
    "search-plugins"@
}

/// `config_dir` joined with `search-plugins` by `/`, as `Path::join` does for a
/// relative component on Unix-like systems: nothing is added to an empty
/// path, and no second `/` after one that ends in `/`. (Windows joins with
/// a backslash; there the application joins the path itself.)
pub open spec fn plugins_dir_spec(config_dir: Seq<char>) -> Seq<char> {
    if config_dir.len() == 0 {
        plugins_folder_name()
    } else if config_dir.last() == '/' {
        config_dir + plugins_folder_name()
    } else {
        config_dir.push('/') + plugins_folder_name()
    }
}

/// Where user plugins live inside the app's configuration folder.
pub fn plugins_dir(config_dir: &str) -> (r: String)
    ensures
        r@ == plugins_dir_spec(config_dir@),
{
    let cs = chars_of(config_dir);
    let mut out = String::new();
    out.append(config_dir);
    if cs.len() > 0 && cs[cs.len() - 1] != '/' {
        push_char(&mut out, '/');
    }
    out.append("search-plugins");
    proof {
        if cs@.len() == 0 {
            assert(out@ =~= plugins_folder_name());
        }
    }
    out
}

/// The trimmed search terms, or why searching cannot start: no source is enabled.
pub open spec fn prepare_search_spec(plugins: Seq<SearchPlugin>, query: Seq<char>) -> Result<Seq<char>, Seq<char>> {
    if exists|i: int| 0 <= i < plugins.len() && (#[trigger] plugins[i]).enabled {
        Ok(text::trim(query))
    } else {
        Err("No search sources are enabled."@)
    }
}

/// Searching starts whenever some source is enabled, wherever it stands in
/// the list, with the trimmed terms; it is refused only when none is, and
/// the order of the sources does not matter.
pub proof fn law_search_needs_one_enabled_source(plugins: Seq<SearchPlugin>, query: Seq<char>, k: int)
    ensures
        0 <= k < plugins.len() && plugins[k].enabled ==> prepare_search_spec(plugins, query) == Ok::<
            Seq<char>,
            Seq<char>,
        >(text::trim(query)),
        (forall|i: int| 0 <= i < plugins.len() ==> !(#[trigger] plugins[i]).enabled) ==> prepare_search_spec(
            plugins,
            query,
        ) is Err,
        prepare_search_spec(plugins.reverse(), query) == prepare_search_spec(plugins, query),
{
    let r = plugins.reverse();
    if exists|i: int| 0 <= i < plugins.len() && (#[trigger] plugins[i]).enabled {
        let i = choose|i: int| 0 <= i < plugins.len() && (#[trigger] plugins[i]).enabled;
        assert(r[plugins.len() - 1 - i] == plugins[i]);
    }
    if exists|i: int| 0 <= i < r.len() && (#[trigger] r[i]).enabled {
        let i = choose|i: int| 0 <= i < r.len() && (#[trigger] r[i]).enabled;
        assert(plugins[plugins.len() - 1 - i] == r[i]);
    }
}

/// Checks that some source is enabled and trims the search terms.
pub fn prepare_search(plugins: &Vec<SearchPlugin>, query: &str) -> (r: Result<String, String>)
    ensures
        match (r, prepare_search_spec(plugins@, query@)) {
            (Ok(q), Ok(s)) => q@ == s,
            (Err(e), Err(s)) => e@ == s,
            _ => false,
        },
{
    let mut i: usize = 0;
    let mut any = false;
    while i < plugins.len()
        invariant
            i <= plugins@.len(),
            any == exists|j: int| 0 <= j < i && (#[trigger] plugins@[j]).enabled,
        decreases plugins@.len() - i,
    {
        if plugins[i].enabled {
            any = true;
        }
        i = i + 1;
    }
    if !any {
        let mut e = String::new();
        e.append("No search sources are enabled.");
        return Err(e);
    }
    let cs = chars_of(query);
    let n = cs.len();
    assert(cs@.subrange(0, n as int) =~= query@);
    let (a, b) = trim_range(&cs, 0, n);
    Ok(text::string_from_range(&cs, a, b))
}

/// Results kept from one source: the first [`MAX_RESULTS_PER_PLUGIN`].
pub open spec fn capped(rs: Seq<SearchResultView>) -> Seq<SearchResultView> {
    if rs.len() <= MAX_RESULTS_PER_PLUGIN {
        rs
    } else {
        rs.take(MAX_RESULTS_PER_PLUGIN as int)
    }
}

/// What one source's response body gives: read as the plugin's kind says,
/// then capped.
pub open spec fn response_spec(plugin: &SearchPlugin, body: Seq<char>) -> Result<Seq<SearchResultView>, Seq<char>> {
    match (match plugin.kind {
        PluginKind::Json => parse_json_spec(plugin, body),
        PluginKind::Rss => parse_rss_spec(plugin, body),
    }) {
        Ok(rs) => Ok(capped(rs)),
        Err(e) => Err(e),
    }
}

/// Each source contributes at most [`MAX_RESULTS_PER_PLUGIN`] results.
pub proof fn law_results_capped(plugin: &SearchPlugin, body: Seq<char>)
    ensures
        response_spec(plugin, body) matches Ok(rs) ==> rs.len() <= MAX_RESULTS_PER_PLUGIN,
{
}

/// An RSS item with an enclosure URL links to it, not to its `<link>`
/// (which usually points at a details page).
pub proof fn law_enclosure_preferred(ns: Seq<XmlNodeView>, p: int, source: Seq<char>, q: int)
    requires
        child(ns, ns[p].id, "enclosure"@) == Some(q),
        attribute(ns[q], "url"@) is Some,
        rss_item_spec(ns, p, source) is Some,
    ensures
        rss_item_spec(ns, p, source)->0.link == attribute(ns[q], "url"@)->0,
{
}

/// Reads one source's response body.
pub fn read_response(plugin: &SearchPlugin, body: &str) -> (r: Result<Vec<SearchResult>, String>)
    ensures
        match (r, response_spec(plugin, body@)) {
            (Ok(v), Ok(s)) => results_view(v@) == s,
            (Err(e), Err(s)) => e@ == s,
            _ => false,
        },
{
    let read = match plugin.kind {
        PluginKind::Json => parse_json(plugin, body),
        PluginKind::Rss => parse_rss(plugin, body),
    };
    match read {
        Ok(v) => {
            let ghost before = v@;
            let c = cap_results(v);
            assert(results_view(c@) =~= capped(results_view(before)));
            Ok(c)
        },
        Err(e) => Err(e),
    }
}

/// How a failed request is reported: the source's name, `: `, the error.
pub fn request_error(source: &String, error: &str) -> (r: String)
    ensures
        r@ == source@ + ": "@ + error@,
{
    let mut out = source.clone();
    out.append(": ");
    out.append(error);
    out
}

/// The results of the sources that answered, in source order.
pub open spec fn all_results(outcomes: Seq<Result<Vec<SearchResult>, String>>) -> Seq<SearchResult>
    decreases outcomes.len(),
{
    if outcomes.len() == 0 {
        Seq::empty()
    } else {
        all_results(outcomes.drop_last()) + match outcomes.last() {
            Ok(v) => v@,
            Err(_) => Seq::empty(),
        }
    }
}

/// The messages of the sources that failed, in source order.
pub open spec fn all_errors(outcomes: Seq<Result<Vec<SearchResult>, String>>) -> Seq<Seq<char>>
    decreases outcomes.len(),
{
    if outcomes.len() == 0 {
        Seq::empty()
    } else {
        all_errors(outcomes.drop_last()) + match outcomes.last() {
            Ok(_) => Seq::empty(),
            Err(e) => seq![e@],
        }
    }
}

/// Combines every source's outcome: all results, ranked (most seeders
/// first, then largest, ties in source order), and every failure's message
/// in source order, so a broken source is reported rather than dropped.
pub fn gather(outcomes: Vec<Result<Vec<SearchResult>, String>>) -> (r: (Vec<SearchResult>, Vec<String>))
    ensures
        exists|perm: Seq<int>| crate::sort::is_stable_sort_of(r.0@, all_results(outcomes@), perm),
        r.1@.map_values(|e: String| e@) == all_errors(outcomes@),
{
    let ghost s = outcomes@;
    let mut rest = outcomes;
    let mut results: Vec<SearchResult> = Vec::new();
    let mut errors: Vec<String> = Vec::new();
    let n = rest.len();
    let mut i: usize = 0;
    while i < n
        invariant
            n == s.len(),
            i <= n,
            rest@ == s.skip(i as int),
            results@ == all_results(s.take(i as int)),
            errors@.map_values(|e: String| e@) == all_errors(s.take(i as int)),
        decreases n - i,
    {
        let o = rest.remove(0);
        assert(o == s[i as int]);
        assert(rest@ =~= s.skip(i + 1));
        assert(s.take(i + 1).drop_last() =~= s.take(i as int));
        let ghost before = errors@;
        match o {
            Ok(mut v) => {
                results.append(&mut v);
                assert(results@ =~= all_results(s.take(i + 1)));
                assert(errors@.map_values(|e: String| e@) =~= all_errors(s.take(i + 1)));
            },
            Err(e) => {
                errors.push(e);
                assert(results@ =~= all_results(s.take(i + 1)));
                assert(errors@.map_values(|e: String| e@) =~= before.map_values(|e: String| e@) + seq![errors@.last()@]);
            },
        }
        i = i + 1;
    }
    assert(s.take(n as int) =~= s);
    let ghost all = results@;
    assert(all == all_results(outcomes@));
    let ranked = rank_results(results);
    let r = (ranked, errors);
    proof {
        let perm = choose|perm: Seq<int>| crate::sort::is_stable_sort_of(r.0@, all, perm);
        assert(crate::sort::is_stable_sort_of(r.0@, all_results(outcomes@), perm));
        assert(exists|perm: Seq<int>| crate::sort::is_stable_sort_of(r.0@, all_results(outcomes@), perm));
    }
    r
}

} // verus!
