//! What the torrent list shows and the requests it accepts: sources to add,
//! status words, names, file lists and magnet links.
use vstd::prelude::*;
use crate::text;
use crate::text::{has_prefix, has_suffix, push_decimal, to_lowercase};
use crate::encoding;
use crate::encoding::urlencode;
use crate::units;
use crate::units::{format_size, Units};

verus! {

/// Where a torrent to add comes from.
#[derive(Clone, Debug)]
pub enum AddSource {
    /// A magnet link or an HTTP(S) URL, handed to the engine as is.
    Url(String),
    /// A path to a `.torrent` file to read.
    File(String),
}

/// Magnet links and HTTP(S) URLs go to the engine as URLs.
pub open spec fn is_url_source(s: Seq<char>) -> bool {
    text::starts_with(s, "magnet:"@) || text::starts_with(s, "http://"@) || text::starts_with(s, "https://"@)
}

/// Tells a URL from a local `.torrent` path.
pub fn source_to_add_torrent(source: &str) -> (r: AddSource)
    ensures
        is_url_source(source@) ==> (r matches AddSource::Url(u) && u@ == source@),
        !is_url_source(source@) ==> (r matches AddSource::File(p) && p@ == source@),
{
    if has_prefix(source, "magnet:") || has_prefix(source, "http://") || has_prefix(source, "https://") {
        AddSource::Url(String::from_str(source))
    } else {
        AddSource::File(String::from_str(source))
    }
}

/// The error when a `.torrent` file cannot be read.
pub fn unreadable_torrent_error(error: &str) -> (r: String)
    ensures
        r@ == "Could not read torrent file: "@ + error@,
{
    let mut e = String::from_str("Could not read torrent file: ");
    e.append(error);
    e
}

/// Requests to open something (command-line arguments, deep links) are kept
/// when they are magnet links or name a `.torrent` file, in any case.
pub open spec fn openable_spec(s: Seq<char>) -> bool {
    text::starts_with(s, "magnet:"@) || text::ends_with(text::lowercase(s), ".torrent"@)
}

/// Whether an open request is a magnet link or a `.torrent` file.
pub fn is_openable(s: &str) -> (r: bool)
    ensures
        r == openable_spec(s@),
{
    if has_prefix(s, "magnet:") {
        return true;
    }
    let lower = to_lowercase(s);
    has_suffix(lower.as_str(), ".torrent")
}

/// The engine's state of a torrent.
#[derive(PartialEq, Eq, Structural, Debug, Clone, Copy)]
pub enum EngineState {
    Initializing,
    Live,
    Paused,
    Error,
}

/// The status word of a torrent: a paused torrent that the download queue
/// paused reads "queued".
pub open spec fn status_word(state: EngineState, finished: bool, queued: bool) -> Seq<char> {
    match state {
        EngineState::Initializing => "checking"@,
        EngineState::Live => if finished {
            "seeding"@
        } else {
            "downloading"@
        },
        EngineState::Paused => if queued {
            "queued"@
        } else {
            "paused"@
        },
        EngineState::Error => "error"@,
    }
}

/// The status word of a torrent.
pub fn status_label(state: EngineState, finished: bool, queued: bool) -> (r: String)
    ensures
        r@ == status_word(state, finished, queued),
{
    match state {
        EngineState::Initializing => String::from_str("checking"),
        EngineState::Live => if finished {
            String::from_str("seeding")
        } else {
            String::from_str("downloading")
        },
        EngineState::Paused => if queued {
            String::from_str("queued")
        } else {
            String::from_str("paused")
        },
        EngineState::Error => String::from_str("error"),
    }
}

/// A torrent's name, or "Torrent #id" while it has none.
pub fn display_name(name: Option<String>, id: usize) -> (r: String)
    ensures
        name matches Some(n) ==> r@ == n@,
        name is None ==> r@ == "Torrent #"@ + text::decimal(id as nat),
{
    match name {
        Some(n) => n,
        None => {
            let mut s = String::from_str("Torrent #");
            push_decimal(&mut s, id as u128);
            s
        },
    }
}

/// The error for a torrent id the engine does not know.
pub fn torrent_not_found(id: usize) -> (r: String)
    ensures
        r@ == "Torrent "@ + text::decimal(id as nat) + " not found"@,
{
    let mut s = String::from_str("Torrent ");
    push_decimal(&mut s, id as u128);
    s.append(" not found");
    s
}

/// What the engine answered when asked to add a torrent.
#[derive(PartialEq, Eq, Structural, Debug, Clone, Copy)]
pub enum AddAnswer {
    /// It only listed the files, as a preview asks.
    ListOnly,
    /// The torrent is already in the list, with this id.
    AlreadyManaged(usize),
    /// The torrent was added with this id.
    Added(usize),
}

/// Whether a preview can go on from the engine's answer to a list-only add,
/// and the error shown when it cannot.
pub fn preview_answer(a: AddAnswer) -> (r: Result<(), String>)
    ensures
        match a {
            AddAnswer::ListOnly => r is Ok,
            AddAnswer::AlreadyManaged(_) => r matches Err(e) && e@ == "This torrent is already in the list."@,
            AddAnswer::Added(_) => r matches Err(e) && e@ == "Unexpected: torrent was started during preview."@,
        },
{
    match a {
        AddAnswer::ListOnly => Ok(()),
        AddAnswer::AlreadyManaged(_) => Err(String::from_str("This torrent is already in the list.")),
        AddAnswer::Added(_) => Err(String::from_str("Unexpected: torrent was started during preview.")),
    }
}

/// The id a staged torrent ends up with: the new one, or the one it already
/// had in the list.
pub fn added_id(a: AddAnswer) -> (r: Result<usize, String>)
    ensures
        match a {
            AddAnswer::Added(id) => r == Ok::<usize, String>(id),
            AddAnswer::AlreadyManaged(id) => r == Ok::<usize, String>(id),
            AddAnswer::ListOnly => r matches Err(e) && e@ == "Unexpected list-only response."@,
        },
{
    match a {
        AddAnswer::Added(id) => Ok(id),
        AddAnswer::AlreadyManaged(id) => Ok(id),
        AddAnswer::ListOnly => Err(String::from_str("Unexpected list-only response.")),
    }
}

/// The error when a torrent to add is no longer staged.
pub fn not_staged_error() -> (r: String)
    ensures
        r@ == "This torrent is no longer staged — please add it again."@,
{
    String::from_str("This torrent is no longer staged — please add it again.")
}

/// The error for a file index the torrent does not have.
pub fn file_not_found(index: usize) -> (r: String)
    ensures
        r@ == "File "@ + text::decimal(index as nat) + " not found"@,
{
    let mut s = String::from_str("File ");
    push_decimal(&mut s, index as u128);
    s.append(" not found");
    s
}

/// Adding a torrent, or changing which of its files download, needs at
/// least one file selected.
pub fn check_selection(only_files: &Vec<usize>) -> (r: Result<(), String>)
    ensures
        r is Ok <==> only_files@.len() > 0,
        r matches Err(e) ==> e@ == "Select at least one file."@,
{
    if only_files.len() == 0 {
        Err(String::from_str("Select at least one file."))
    } else {
        Ok(())
    }
}

/// `&tr=` and the escaped URL, for each tracker in order.
pub open spec fn tracker_params(trackers: Seq<String>) -> Seq<char>
    decreases trackers.len(),
{
    if trackers.len() == 0 {
        Seq::empty()
    } else {
        tracker_params(trackers.drop_last()) + "&tr="@ + encoding::url_escape(
            vstd::utf8::encode_utf8(trackers.last()@),
        )
    }
}

/// `magnet:?xt=urn:btih:HASH`, then `&dn=` and the escaped name if there is
/// one, then the trackers.
pub open spec fn magnet_spec(info_hash: Seq<char>, name: Option<Seq<char>>, trackers: Seq<String>) -> Seq<char> {
    "magnet:?xt=urn:btih:"@ + info_hash + (match name {
        Some(n) => "&dn="@ + encoding::url_escape(vstd::utf8::encode_utf8(n)),
        None => Seq::empty(),
    }) + tracker_params(trackers)
}

/// A magnet link carries every tracker, named or not: one more tracker adds
/// one `&tr=` parameter with its escaped URL at the end, and without
/// trackers the link is the btih part and the optional escaped name.
pub proof fn law_magnet_carries_trackers(info_hash: Seq<char>, name: Option<Seq<char>>, trackers: Seq<String>, t: String)
    ensures
        magnet_spec(info_hash, name, trackers.push(t)) == magnet_spec(info_hash, name, trackers) + "&tr="@
            + encoding::url_escape(vstd::utf8::encode_utf8(t@)),
        magnet_spec(info_hash, None, Seq::empty()) == "magnet:?xt=urn:btih:"@ + info_hash,
        name matches Some(n) ==> magnet_spec(info_hash, name, Seq::empty()) == "magnet:?xt=urn:btih:"@
            + info_hash + "&dn="@ + encoding::url_escape(vstd::utf8::encode_utf8(n)),
{
    assert(trackers.push(t).drop_last() =~= trackers);
    assert(magnet_spec(info_hash, name, trackers.push(t)) =~= magnet_spec(info_hash, name, trackers) + "&tr="@
        + encoding::url_escape(vstd::utf8::encode_utf8(t@)));
    assert(magnet_spec(info_hash, None, Seq::empty()) =~= "magnet:?xt=urn:btih:"@ + info_hash);
    if let Some(n) = name {
        assert(magnet_spec(info_hash, name, Seq::empty()) =~= "magnet:?xt=urn:btih:"@ + info_hash + "&dn="@
            + encoding::url_escape(vstd::utf8::encode_utf8(n)));
    }
}

/// The magnet link of a torrent, from its info hash (hex), name and trackers.
pub fn magnet_link(info_hash: &str, name: Option<String>, trackers: &Vec<String>) -> (r: String)
    ensures
        r@ == magnet_spec(info_hash@, text::opt_text(name), trackers@),
{
    let ghost name_text = text::opt_text(name);
    let mut m = String::from_str("magnet:?xt=urn:btih:");
    m.append(info_hash);
    match name {
        Some(n) => {
            m.append("&dn=");
            let e = urlencode(n.as_str());
            m.append(e.as_str());
        },
        None => {},
    }
    let ghost head = m@;
    assert(head == "magnet:?xt=urn:btih:"@ + info_hash@ + (match name_text {
        Some(n) => "&dn="@ + encoding::url_escape(vstd::utf8::encode_utf8(n)),
        None => Seq::empty(),
    }));
    let mut i: usize = 0;
    while i < trackers.len()
        invariant
            i <= trackers@.len(),
            m@ == head + tracker_params(trackers@.take(i as int)),
        decreases trackers@.len() - i,
    {
        assert(trackers@.take(i + 1 as int).drop_last() =~= trackers@.take(i as int));
        m.append("&tr=");
        let e = urlencode(trackers[i].as_str());
        m.append(e.as_str());
        i = i + 1;
    }
    assert(trackers@.take(trackers@.len() as int) =~= trackers@);
    m
}

/// One file of a torrent as the engine lists it.
#[derive(Clone, Debug)]
pub struct TorrentFile {
    /// The file's path inside the torrent; `None` when it cannot be shown.
    pub path: Option<String>,
    pub len: u64,
    /// Alignment padding that nobody needs to download.
    pub padding: bool,
}

/// A row of a torrent's file list.
#[derive(Clone, Debug)]
pub struct FileEntry {
    pub index: usize,
    pub path: String,
    pub size: u64,
    pub size_str: String,
    pub selected: bool,
    pub padding: bool,
}

/// The path shown for file `index`: its own, or "file_{index}".
pub open spec fn shown_path(path: Option<String>, index: nat) -> Seq<char> {
    match path {
        Some(p) => p@,
        None => "file_"@ + text::decimal(index),
    }
}

/// The indices a selection names; `None` selects every file.
pub open spec fn selection_view(only: Option<Vec<usize>>) -> Option<Seq<usize>> {
    match only {
        Some(v) => Some(v@),
        None => None,
    }
}

/// Whether file `index` is selected.
pub open spec fn in_selection(only: Option<Seq<usize>>, index: int) -> bool {
    match only {
        Some(s) => s.contains(index as usize),
        None => true,
    }
}

/// `e` is the row for file `f` at `index`.
pub open spec fn row_of(e: FileEntry, f: TorrentFile, index: int, units: Units, selected: bool) -> bool {
    &&& e.index == index
    &&& e.path@ == shown_path(f.path, index as nat)
    &&& e.size == f.len
    &&& e.size_str@ == units::size_text(f.len as nat, units)
    &&& e.selected == selected
    &&& e.padding == f.padding
}

fn file_row(f: &TorrentFile, index: usize, units: Units, selected: bool) -> (r: FileEntry)
    ensures
        row_of(r, *f, index as int, units, selected),
{
    let path = match &f.path {
        Some(p) => p.clone(),
        None => {
            let mut s = String::from_str("file_");
            push_decimal(&mut s, index as u128);
            s
        },
    };
    FileEntry { index, path, size: f.len, size_str: format_size(f.len, units), selected, padding: f.padding }
}

/// The file list of a torrent being previewed: every file but padding
/// starts selected.
pub fn preview_files(files: &Vec<TorrentFile>, units: Units) -> (r: Vec<FileEntry>)
    ensures
        r@.len() == files@.len(),
        forall|i: int| 0 <= i < files@.len() ==> row_of(#[trigger] r@[i], files@[i], i, units, !files@[i].padding),
{
    let mut out: Vec<FileEntry> = Vec::new();
    let mut i: usize = 0;
    while i < files.len()
        invariant
            i <= files@.len(),
            out@.len() == i,
            forall|j: int| 0 <= j < i ==> row_of(#[trigger] out@[j], files@[j], j, units, !files@[j].padding),
        decreases files@.len() - i,
    {
        let row = file_row(&files[i], i, units, !files[i].padding);
        out.push(row);
        i = i + 1;
    }
    out
}

/// The file list of a managed torrent: a file is selected when the
/// torrent's selection names it, or when there is no selection.
pub fn listed_files(files: &Vec<TorrentFile>, only: &Option<Vec<usize>>, units: Units) -> (r: Vec<FileEntry>)
    ensures
        r@.len() == files@.len(),
        forall|i: int| 0 <= i < files@.len() ==> row_of(#[trigger] r@[i], files@[i], i, units, in_selection(selection_view(*only), i)),
{
    let mut out: Vec<FileEntry> = Vec::new();
    let mut i: usize = 0;
    while i < files.len()
        invariant
            i <= files@.len(),
            out@.len() == i,
            forall|j: int| 0 <= j < i ==> row_of(#[trigger] out@[j], files@[j], j, units, in_selection(selection_view(*only), j)),
        decreases files@.len() - i,
    {
        let selected = match only {
            Some(v) => crate::queue::holds(v, i),
            None => true,
        };
        let row = file_row(&files[i], i, units, selected);
        out.push(row);
        i = i + 1;
    }
    out
}

/// The sum of the files' lengths.
pub open spec fn total_len(files: Seq<TorrentFile>) -> nat
    decreases files.len(),
{
    if files.len() == 0 {
        0
    } else {
        total_len(files.drop_last()) + files.last().len as nat
    }
}

proof fn lemma_total_len_prefix(files: Seq<TorrentFile>, i: int)
    requires
        0 <= i <= files.len(),
    ensures
        total_len(files.take(i)) <= total_len(files),
    decreases files.len() - i,
{
    if i < files.len() {
        lemma_total_len_prefix(files, i + 1);
        assert(files.take(i + 1).drop_last() =~= files.take(i));
    } else {
        assert(files.take(i) =~= files);
    }
}

/// The size of a whole torrent. Sizes that add up past `u64::MAX` are not
/// accepted.
pub fn total_size(files: &Vec<TorrentFile>) -> (r: u64)
    requires
        total_len(files@) <= u64::MAX,
    ensures
        r == total_len(files@),
{
    let mut sum: u64 = 0;
    let mut i: usize = 0;
    while i < files.len()
        invariant
            i <= files@.len(),
            total_len(files@) <= u64::MAX,
            sum == total_len(files@.take(i as int)),
        decreases files@.len() - i,
    {
        proof {
            assert(files@.take(i + 1 as int).drop_last() =~= files@.take(i as int));
            lemma_total_len_prefix(files@, i + 1);
        }
        sum = sum + files[i].len;
        i = i + 1;
    }
    assert(files@.take(files@.len() as int) =~= files@);
    sum
}

/// The name of a torrent being previewed: its name bytes read as UTF-8
/// (invalid sequences replaced), or "Unnamed torrent".
pub fn preview_title(name: Option<Vec<u8>>) -> (r: String)
    ensures
        name matches Some(b) ==> r@ == crate::peers::lossy_text(b@),
        name is None ==> r@ == "Unnamed torrent"@,
{
    match name {
        Some(b) => crate::peers::utf8_lossy(&b),
        None => String::from_str("Unnamed torrent"),
    }
}

} // verus!
