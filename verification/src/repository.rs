//! The catalogue of the FCA repository of published formal contexts, and the
//! addresses its context files are served under.
//!
//! Downloading is left to the caller; this module reads what was downloaded.
use crate::formal_context::FormatError;
use crate::text::{
    char_lines, chars_eq, chars_to_string, first_index_of, is_space, lines_of, parse_usize,
    parse_usize_spec, str_chars, trim, trim_spec, trim_start, trim_start_spec, utf8_chars,
};
use vstd::prelude::*;
use vstd::utf8::{decode_utf8, valid_utf8};

verus! {

/// URL of the repository catalogue, a YAML file describing every available context.
pub const CATALOG_URL: &'static str = "https://raw.githubusercontent.com/fcatools/contexts/main/contexts.yaml";

/// Prefix the individual context files are served under.
pub const CONTEXT_BASE_URL: &'static str = "https://raw.githubusercontent.com/fcatools/contexts/main/contexts/";

/// Error returned when the repository cannot be read.
#[derive(Debug)]
pub enum RepositoryError {
    /// The catalogue is not valid UTF-8, or contains no entries.
    InvalidCatalog,
    /// A downloaded context file is not valid Burmeister format.
    Format(FormatError),
    /// The download failed. Carries the underlying client's message.
    Http(String),
}

impl From<FormatError> for RepositoryError {
    fn from(err: FormatError) -> (r: RepositoryError) {
        RepositoryError::Format(err)
    }
}

impl vstd::std_specs::convert::FromSpecImpl<FormatError> for RepositoryError {
    open spec fn obeys_from_spec() -> bool {
        true
    }

    open spec fn from_spec(v: FormatError) -> RepositoryError {
        RepositoryError::Format(v)
    }
}

/// One dataset in the repository catalogue.
///
/// Every field but `filename` and `title` is optional in the catalogue and
/// may come back empty.
#[derive(Clone, Debug, Default, PartialEq, Eq)]
pub struct RepositoryEntry {
    /// File name of the context, e.g. `livingbeings_en.cxt`.
    pub filename: String,
    /// Human-readable name of the dataset.
    pub title: String,
    /// Bibliographic references the context was published in.
    pub source: Vec<String>,
    /// Number of objects, as stated by the catalogue.
    pub objects: Option<usize>,
    /// Number of attributes, as stated by the catalogue.
    pub attributes: Option<usize>,
    /// Language the object and attribute names are written in.
    pub language: Option<String>,
    /// Short description of what the context is about.
    pub description: Option<String>,
    /// Further remarks, e.g. how this context relates to another one.
    pub note: Vec<String>,
}

/// A catalogue entry as text.
pub struct EntryView {
    pub filename: Seq<char>,
    pub title: Seq<char>,
    pub source: Seq<Seq<char>>,
    pub objects: Option<usize>,
    pub attributes: Option<usize>,
    pub language: Option<Seq<char>>,
    pub description: Option<Seq<char>>,
    pub note: Seq<Seq<char>>,
}

/// The text of an optional string.
pub open spec fn opt_view(o: Option<String>) -> Option<Seq<char>> {
    match o {
        Some(s) => Some(s@),
        None => None,
    }
}

impl View for RepositoryEntry {
    type V = EntryView;

    open spec fn view(&self) -> EntryView {
        EntryView {
            filename: self.filename@,
            title: self.title@,
            source: self.source@.map_values(|s: String| s@),
            objects: self.objects,
            attributes: self.attributes,
            language: opt_view(self.language),
            description: opt_view(self.description),
            note: self.note@.map_values(|s: String| s@),
        }
    }
}

/// A fresh entry for the file `filename`, with every other field empty.
pub open spec fn blank_entry(filename: Seq<char>) -> EntryView {
    EntryView {
        filename,
        title: Seq::empty(),
        source: Seq::empty(),
        objects: None,
        attributes: None,
        language: None,
        description: None,
        note: Seq::empty(),
    }
}

/// Assigning catalogue field `key`: a list field gains `value`, a number
/// field takes what `value` parses to, and an unknown key changes nothing.
pub open spec fn set_spec(e: EntryView, key: Seq<char>, value: Seq<char>) -> EntryView {
    if key == "title"@ {
        EntryView { title: value, ..e }
    } else if key == "source"@ {
        EntryView { source: e.source.push(value), ..e }
    } else if key == "objects"@ {
        EntryView { objects: parse_usize_spec(value), ..e }
    } else if key == "attributes"@ {
        EntryView { attributes: parse_usize_spec(value), ..e }
    } else if key == "language"@ {
        EntryView { language: Some(value), ..e }
    } else if key == "description"@ {
        EntryView { description: Some(value), ..e }
    } else if key == "note"@ {
        EntryView { note: e.note.push(value), ..e }
    } else {
        e
    }
}

/// The prefix of every context file's URL.
pub open spec fn base_url() -> Seq<char> {
    CONTEXT_BASE_URL@
}

impl RepositoryEntry {
    /// URL the context file is downloaded from.
    pub fn url(&self) -> (r: String)
        ensures
            r@ == base_url() + self.filename@,
    {
        context_url(self.filename.as_str())
    }

    /// Assigns a catalogue field. Unknown keys are ignored, so that a catalogue
    /// gaining new fields keeps parsing.
    fn set(&mut self, key: &[char], value: String)
        ensures
            final(self)@ == set_spec(old(self)@, key@, value@),
    {
        if chars_eq(key, str_chars("title").as_slice()) {
            self.title = value;
        } else if chars_eq(key, str_chars("source").as_slice()) {
            self.source.push(value);
            assert(self.source@.map_values(|s: String| s@) == old(self).source@.map_values(
                |s: String| s@,
            ).push(value@));
        } else if chars_eq(key, str_chars("objects").as_slice()) {
            self.objects = match parse_usize(&value) {
                Ok(v) => Some(v),
                Err(_) => None,
            };
        } else if chars_eq(key, str_chars("attributes").as_slice()) {
            self.attributes = match parse_usize(&value) {
                Ok(v) => Some(v),
                Err(_) => None,
            };
        } else if chars_eq(key, str_chars("language").as_slice()) {
            self.language = Some(value);
        } else if chars_eq(key, str_chars("description").as_slice()) {
            self.description = Some(value);
        } else if chars_eq(key, str_chars("note").as_slice()) {
            self.note.push(value);
            assert(self.note@.map_values(|s: String| s@) == old(self).note@.map_values(
                |s: String| s@,
            ).push(value@));
        }
    }
}

/// URL the given context file is downloaded from.
pub fn context_url(filename: &str) -> (r: String)
    ensures
        r@ == base_url() + filename@,
{
    let mut all = str_chars(CONTEXT_BASE_URL);
    let name = str_chars(filename);
    let mut i: usize = 0;
    while i < name.len()
        invariant
            i <= name@.len(),
            name@ == filename@,
            all@ == base_url() + name@.take(i as int),
        decreases name@.len() - i,
    {
        all.push(name[i]);
        i = i + 1;
        assert(name@.take(i as int) == name@.take(i - 1).push(name@[i - 1]));
    }
    assert(name@.take(name@.len() as int) == name@);
    chars_to_string(all.as_slice())
}

/// A character that may stand in a catalogue field name.
pub open spec fn is_key_char(c: char) -> bool {
    ('a' <= c && c <= 'z') || ('A' <= c && c <= 'Z') || c == '_'
}

/// Splits `key: value` at the first colon, but only where the key is a
/// non-empty run of ASCII letters and underscores; the value is trimmed.
pub open spec fn split_field_spec(line: Seq<char>) -> Option<(Seq<char>, Seq<char>)> {
    let i = first_index_of(line, ':');
    let key = line.take(i);
    if i >= line.len() || key.len() == 0 || !(forall|j: int| 0 <= j < key.len() ==> is_key_char(
        #[trigger] key[j],
    )) {
        None
    } else {
        Some((key, trim_spec(line.skip(i + 1))))
    }
}

/// Splits `key: value`, but only where the key looks like a catalogue field name.
///
/// This keeps a quoted scalar that happens to contain a colon from being read
/// as a field.
fn split_field(line: &[char]) -> (r: Option<(Vec<char>, Vec<char>)>)
    ensures
        match r {
            Some((k, v)) => split_field_spec(line@) == Some((k@, v@)),
            None => split_field_spec(line@) is None,
        },
{
    let mut i: usize = 0;
    while i < line.len() && line[i] != ':'
        invariant
            i <= line@.len(),
            forall|j: int| 0 <= j < i ==> line@[j] != ':',
        decreases line@.len() - i,
    {
        i = i + 1;
    }
    proof {
        crate::text::lemma_first_index_of(line@, ':');
        if i < line@.len() {
            assert(first_index_of(line@, ':') == i);
        } else {
            assert(first_index_of(line@, ':') >= line@.len());
        }
    }
    if i >= line.len() || i == 0 {
        return None;
    }
    let mut key: Vec<char> = Vec::new();
    let mut j: usize = 0;
    while j < i
        invariant
            j <= i < line@.len(),
            first_index_of(line@, ':') == i,
            key@ == line@.take(j as int),
            forall|x: int| 0 <= x < j ==> is_key_char(#[trigger] line@[x]),
        decreases i - j,
    {
        let c = line[j];
        if !(('a' <= c && c <= 'z') || ('A' <= c && c <= 'Z') || c == '_') {
            assert(line@.take(i as int)[j as int] == c);
            return None;
        }
        key.push(c);
        j = j + 1;
        assert(key@ == line@.take(j as int));
    }
    assert(key@ == line@.take(i as int));
    assert(forall|x: int| 0 <= x < key@.len() ==> is_key_char(#[trigger] key@[x]));
    let mut rest: Vec<char> = Vec::new();
    let mut k: usize = i + 1;
    while k < line.len()
        invariant
            i < k <= line@.len(),
            rest@ == line@.subrange(i + 1, k as int),
        decreases line@.len() - k,
    {
        rest.push(line[k]);
        k = k + 1;
    }
    assert(rest@ == line@.skip(i + 1));
    let value = trim(rest.as_slice());
    Some((key, value))
}

/// `value` without one pair of surrounding double quotes.
pub open spec fn unquote_spec(value: Seq<char>) -> Seq<char> {
    if value.len() >= 2 && value[0] == '"' && value[value.len() - 1] == '"' {
        value.subrange(1, value.len() - 1)
    } else {
        value
    }
}

/// Strips the surrounding double quotes YAML scalars in the catalogue may carry.
fn unquote(value: &[char]) -> (r: String)
    ensures
        r@ == unquote_spec(value@),
{
    let n = value.len();
    if n >= 2 && value[0] == '"' && value[n - 1] == '"' {
        let mut inner: Vec<char> = Vec::new();
        let mut i: usize = 1;
        while i < n - 1
            invariant
                n == value@.len(),
                1 <= i <= n - 1,
                inner@ == value@.subrange(1, i as int),
            decreases n - 1 - i,
        {
            inner.push(value[i]);
            i = i + 1;
        }
        chars_to_string(inner.as_slice())
    } else {
        chars_to_string(value)
    }
}

/// What the catalogue reader has gathered so far: the entries, and the field
/// a bare list item below it belongs to.
pub struct CatalogState {
    pub entries: Seq<EntryView>,
    pub pending: Seq<char>,
}

/// `s` starts with `- `.
pub open spec fn is_item(s: Seq<char>) -> bool {
    s.len() >= 2 && s[0] == '-' && s[1] == ' '
}

/// Reading one catalogue line; `None` where the line is malformed.
///
/// Blank lines and comments are skipped. A line at the left margin opens the
/// entry named by it (it must end in `:`). An indented line sets a field of
/// the last entry: `key: value` directly, or as a list item `- key: value`,
/// or `- value` for the field named on the last `key:` line.
pub open spec fn catalog_step(st: CatalogState, line: Seq<char>) -> Option<CatalogState> {
    if trim_spec(line).len() == 0 || (line.len() > 0 && line[0] == '#') {
        Some(st)
    } else if !(line.len() > 0 && line[0] == ' ') {
        if line.len() > 0 && line.last() == ':' {
            Some(
                CatalogState {
                    entries: st.entries.push(blank_entry(line.drop_last())),
                    pending: Seq::empty(),
                },
            )
        } else {
            None
        }
    } else if st.entries.len() == 0 {
        None
    } else {
        let last = st.entries.len() - 1;
        let e = st.entries[last];
        let body = trim_start_spec(line);
        if is_item(body) {
            let item = body.skip(2);
            let e2 = match split_field_spec(item) {
                Some((k, v)) => set_spec(e, k, unquote_spec(v)),
                None => set_spec(e, st.pending, unquote_spec(item)),
            };
            Some(CatalogState { entries: st.entries.update(last, e2), pending: st.pending })
        } else {
            match split_field_spec(body) {
                None => None,
                Some((k, v)) => Some(
                    CatalogState {
                        entries: if v.len() == 0 {
                            st.entries
                        } else {
                            st.entries.update(last, set_spec(e, k, unquote_spec(v)))
                        },
                        pending: k,
                    },
                ),
            }
        }
    }
}

/// Reading the first `n` lines, from no entries; `None` once a line is malformed.
pub open spec fn catalog_run(lines: Seq<Seq<char>>, n: nat) -> Option<CatalogState>
    decreases n,
{
    if n == 0 {
        Some(CatalogState { entries: Seq::empty(), pending: Seq::empty() })
    } else {
        match catalog_run(lines, (n - 1) as nat) {
            None => None,
            Some(st) => catalog_step(st, lines[n - 1]),
        }
    }
}

/// The entries of a catalogue file: `None` where it is not UTF-8, has a
/// malformed line, or has no entry at all.
pub open spec fn catalog_spec(bytes: Seq<u8>) -> Option<Seq<EntryView>> {
    if !valid_utf8(bytes) {
        None
    } else {
        let lines = lines_of(decode_utf8(bytes), '\n', '\r');
        match catalog_run(lines, lines.len()) {
            None => None,
            Some(st) => if st.entries.len() == 0 {
                None
            } else {
                Some(st.entries)
            },
        }
    }
}

/// The views of a list of entries.
pub open spec fn entries_view(es: Seq<RepositoryEntry>) -> Seq<EntryView> {
    es.map_values(|e: RepositoryEntry| e@)
}

/// Parses the repository catalogue.
///
/// The catalogue is generated, and its entries take one of two shapes: a
/// field is either given directly, or as a list of items below the field
/// name. Both are accepted, as is a missing or empty field.
pub fn parse_catalog(contents: &[u8]) -> (r: Result<Vec<RepositoryEntry>, RepositoryError>)
    ensures
        match r {
            Ok(es) => catalog_spec(contents@) == Some(entries_view(es@)),
            Err(e) => e is InvalidCatalog && catalog_spec(contents@) is None,
        },
{
    let text = match utf8_chars(contents) {
        Some(t) => t,
        None => return Err(RepositoryError::InvalidCatalog),
    };
    let lines = char_lines(text.as_slice());
    let ghost ls = lines@.map_values(|l: Vec<char>| l@);
    let mut entries: Vec<RepositoryEntry> = Vec::new();
    let mut pending: Vec<char> = Vec::new();
    let mut n: usize = 0;
    assert(entries_view(entries@) =~= Seq::<EntryView>::empty());
    assert(pending@ =~= Seq::<char>::empty());
    while n < lines.len()
        invariant
            ls == lines@.map_values(|l: Vec<char>| l@),
            ls == lines_of(text@, '\n', '\r'),
            text@ == decode_utf8(contents@),
            valid_utf8(contents@),
            n <= lines@.len(),
            catalog_run(ls, n as nat) == Some(
                CatalogState { entries: entries_view(entries@), pending: pending@ },
            ),
        decreases lines@.len() - n,
    {
        let line = &lines[n];
        assert(line@ == ls[n as int]);
        let ghost st = CatalogState { entries: entries_view(entries@), pending: pending@ };
        let trimmed = trim(line.as_slice());
        if trimmed.len() == 0 || (line.len() > 0 && line[0] == '#') {
            n = n + 1;
            continue;
        }
        if !(line.len() > 0 && line[0] == ' ') {
            if !(line.len() > 0 && line[line.len() - 1] == ':') {
                proof {
                    lemma_run_stops(ls, (n + 1) as nat, ls.len());
                }
                return Err(RepositoryError::InvalidCatalog);
            }
            let mut name: Vec<char> = Vec::new();
            let mut i: usize = 0;
            while i < line.len() - 1
                invariant
                    line@.len() > 0,
                    i <= line@.len() - 1,
                    name@ == line@.subrange(0, i as int),
                decreases line@.len() - 1 - i,
            {
                name.push(line[i]);
                i = i + 1;
            }
            let entry = RepositoryEntry {
                filename: chars_to_string(name.as_slice()),
                title: String::new(),
                source: Vec::new(),
                objects: None,
                attributes: None,
                language: None,
                description: None,
                note: Vec::new(),
            };
            assert(entry@.source =~= Seq::<Seq<char>>::empty());
            assert(entry@.note =~= Seq::<Seq<char>>::empty());
            assert(entry@.title =~= Seq::<char>::empty());
            assert(entry@.filename =~= line@.drop_last());
            assert(entry@ == blank_entry(line@.drop_last()));
            entries.push(entry);
            pending = Vec::new();
            assert(entries_view(entries@) == st.entries.push(blank_entry(line@.drop_last())));
            n = n + 1;
            continue;
        }
        if entries.len() == 0 {
            proof {
                lemma_run_stops(ls, (n + 1) as nat, ls.len());
            }
            return Err(RepositoryError::InvalidCatalog);
        }
        let last = entries.len() - 1;
        let body = trim_start(line.as_slice());
        if body.len() >= 2 && body[0] == '-' && body[1] == ' ' {
            let mut item: Vec<char> = Vec::new();
            let mut i: usize = 2;
            while i < body.len()
                invariant
                    2 <= i <= body@.len(),
                    item@ == body@.subrange(2, i as int),
                decreases body@.len() - i,
            {
                item.push(body[i]);
                i = i + 1;
            }
            assert(item@ == body@.skip(2));
            match split_field(item.as_slice()) {
                Some((key, value)) => {
                    let v = unquote(value.as_slice());
                    entries[last].set(key.as_slice(), v);
                },
                None => {
                    let v = unquote(item.as_slice());
                    entries[last].set(pending.as_slice(), v);
                },
            }
            assert(entries_view(entries@) =~= st.entries.update(
                last as int,
                entries@[last as int]@,
            ));
        } else {
            match split_field(body.as_slice()) {
                None => {
                    proof {
                        lemma_run_stops(ls, (n + 1) as nat, ls.len());
                    }
                    return Err(RepositoryError::InvalidCatalog);
                },
                Some((key, value)) => {
                    if value.len() != 0 {
                        let v = unquote(value.as_slice());
                        entries[last].set(key.as_slice(), v);
                        assert(entries_view(entries@) =~= st.entries.update(
                            last as int,
                            entries@[last as int]@,
                        ));
                    }
                    pending = key;
                },
            }
        }
        n = n + 1;
    }
    assert(ls.len() == lines@.len());
    if entries.len() == 0 {
        return Err(RepositoryError::InvalidCatalog);
    }
    Ok(entries)
}

/// Once a line is malformed, reading more lines stays malformed.
proof fn lemma_run_stops(lines: Seq<Seq<char>>, n: nat, m: nat)
    requires
        n <= m,
        catalog_run(lines, n) is None,
    ensures
        catalog_run(lines, m) is None,
    decreases m - n,
{
    if n < m {
        lemma_run_stops(lines, n, (m - 1) as nat);
    }
}

} // verus!
