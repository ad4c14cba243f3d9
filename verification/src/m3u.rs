//! An m3u playlist: parsing, entry attributes, and writing.
//!
//! A playlist is a `#EXTM3U` header followed by entries; each entry is one
//! `#EXTINF:` line, at most one `#EXTGRP:` line, and a location line.  The
//! `#EXTINF:` line carries `name="value"` attributes between the colon and
//! the comma, and the display name after the comma.

use vstd::prelude::*;

use crate::text::{
    empty_str, find_sub, lemma_find_props, spec_find, spec_match_at, spec_starts_with,
    spec_trim_end, starts_with, trim_end,
};

verus! {

broadcast use vstd::string::group_string_axioms;

/// Mathematical image of an [`Entry`].
pub struct EntryModel {
    pub url: Seq<char>,
    pub info: Seq<char>,
    pub group: Seq<char>,
}

/// One playlist entry: the location line, the raw `#EXTINF:` line, and the
/// raw `#EXTGRP:` line (empty when the entry has none).
#[derive(Debug)]
pub struct Entry {
    pub url: String,
    pub info: String,
    pub group: String,
}

impl View for Entry {
    type V = EntryModel;

    open spec fn view(&self) -> EntryModel {
        EntryModel { url: self.url@, info: self.info@, group: self.group@ }
    }
}

impl DeepView for Entry {
    type V = EntryModel;

    open spec fn deep_view(&self) -> EntryModel {
        self.view()
    }
}

impl Clone for Entry {
    fn clone(&self) -> (res: Self)
        ensures
            res@ == self@,
    {
        Entry { url: self.url.clone(), info: self.info.clone(), group: self.group.clone() }
    }
}

impl Default for Entry {
    fn default() -> (res: Self)
        ensures
            res@.url == Seq::<char>::empty(),
            res@.info == Seq::<char>::empty(),
            res@.group == Seq::<char>::empty(),
    {
        Entry { url: String::new(), info: String::new(), group: String::new() }
    }
}

/// The display name carried by an `#EXTINF:` line: everything after the
/// first comma, or nothing when there is no comma.
pub open spec fn spec_entry_name(info: Seq<char>) -> Seq<char> {
    match spec_find(info, ","@) {
        Some(i) => info.skip(i + 1),
        None => Seq::<char>::empty(),
    }
}

/// The attribute text carried by an `#EXTINF:` line: everything between the
/// `#EXTINF:` prefix and the first comma; nothing when the line is shorter
/// than the prefix.
pub open spec fn spec_entry_attrs(info: Seq<char>) -> Seq<char> {
    let head = match spec_find(info, ","@) {
        Some(i) => info.take(i),
        None => info,
    };
    if head.len() >= "#EXTINF:"@.len() {
        head.skip("#EXTINF:"@.len() as int)
    } else {
        Seq::<char>::empty()
    }
}

/// The value of a quoted attribute: the characters between the first
/// occurrence of `key` (the attribute name with `="`) and the next quote;
/// nothing when the key is absent or the quote is never closed.
pub open spec fn spec_attr_value(attrs: Seq<char>, key: Seq<char>) -> Seq<char> {
    match spec_find(attrs, key) {
        None => Seq::<char>::empty(),
        Some(i) => {
            let rest = attrs.skip(i + key.len());
            match spec_find(rest, "\""@) {
                None => Seq::<char>::empty(),
                Some(q) => rest.take(q),
            }
        },
    }
}

/// The group an entry belongs to: the `#EXTGRP:` line's payload when the
/// entry has one, else the `group-title` attribute of its `#EXTINF:` line.
pub open spec fn spec_entry_group(e: EntryModel) -> Seq<char> {
    if e.group.len() > 0 {
        if e.group.len() >= "#EXTGRP:"@.len() {
            e.group.skip("#EXTGRP:"@.len() as int)
        } else {
            Seq::<char>::empty()
        }
    } else {
        spec_attr_value(spec_entry_attrs(e.info), "group-title=\""@)
    }
}

impl Entry {
    /// The display name: what follows the first comma of the `#EXTINF:`
    /// line.
    pub fn name(&self) -> (r: &str)
        ensures
            r@ == spec_entry_name(self@.info),
    {
        let st = self.info.as_str();
        let n = st.unicode_len();
        proof {
            reveal_strlit(",");
            lemma_find_props(st@, ","@);
        }
        match find_sub(st, ",") {
            Some(i) => {
                let r = st.substring_char(i + 1, n);
                proof {
                    assert(r@ =~= self@.info.skip(i + 1));
                }
                r
            },
            None => empty_str(),
        }
    }

    /// The attribute text of the `#EXTINF:` line.
    fn info_attrs(&self) -> (r: &str)
        ensures
            r@ == spec_entry_attrs(self@.info),
    {
        let st = self.info.as_str();
        proof {
            reveal_strlit(",");
            lemma_find_props(st@, ","@);
        }
        let n = st.unicode_len();
        let head_end = match find_sub(st, ",") {
            Some(i) => i,
            None => n,
        };
        let prefix_len = "#EXTINF:".unicode_len();
        if head_end >= prefix_len {
            let r = st.substring_char(prefix_len, head_end);
            proof {
                assert(r@ =~= spec_entry_attrs(self@.info));
            }
            r
        } else {
            empty_str()
        }
    }

    /// The value of one quoted attribute of the `#EXTINF:` line.
    fn attr_value(&self, key: &str) -> (r: &str)
        ensures
            r@ == spec_attr_value(spec_entry_attrs(self@.info), key@),
    {
        let attrs = self.info_attrs();
        let an = attrs.unicode_len();
        let kn = key.unicode_len();
        proof {
            lemma_find_props(attrs@, key@);
        }
        match find_sub(attrs, key) {
            None => empty_str(),
            Some(i) => {
                let rest = attrs.substring_char(i + kn, an);
                proof {
                    reveal_strlit("\"");
                    lemma_find_props(rest@, "\""@);
                }
                proof {
                    assert(rest@ =~= spec_entry_attrs(self@.info).skip(i + key@.len()));
                }
                match find_sub(rest, "\"") {
                    None => empty_str(),
                    Some(q) => {
                        let r = rest.substring_char(0, q);
                        proof {
                            assert(r@ =~= rest@.take(q as int));
                        }
                        r
                    },
                }
            },
        }
    }

    /// The group this entry belongs to.
    pub fn group(&self) -> (r: &str)
        ensures
            r@ == spec_entry_group(self@),
    {
        if !self.group.as_str().is_empty() {
            let st = self.group.as_str();
            let prefix_len = "#EXTGRP:".unicode_len();
            if st.unicode_len() >= prefix_len {
                let r = st.substring_char(prefix_len, st.unicode_len());
                proof {
                    assert(r@ =~= self@.group.skip("#EXTGRP:"@.len() as int));
                }
                r
            } else {
                empty_str()
            }
        } else {
            self.attr_value("group-title=\"")
        }
    }

    /// The `tvg-logo` attribute: the icon address.
    pub fn tvg_logo(&self) -> (r: &str)
        ensures
            r@ == spec_attr_value(spec_entry_attrs(self@.info), "tvg-logo=\""@),
    {
        self.attr_value("tvg-logo=\"")
    }

    /// The `tvg-id` attribute: the channel alias this entry is bound to.
    pub fn tvg_id(&self) -> (r: &str)
        ensures
            r@ == spec_attr_value(spec_entry_attrs(self@.info), "tvg-id=\""@),
    {
        self.attr_value("tvg-id=\"")
    }
}

/// One ` name="value"` attribute as it appears on an `#EXTINF:` line.
pub open spec fn spec_attr_text(k: Seq<char>, v: Seq<char>) -> Seq<char> {
    " "@ + k + "=\""@ + v + "\""@
}

/// A run of attributes, in order.
pub open spec fn spec_attrs_chunk(list: Seq<(&str, &str)>) -> Seq<char>
    decreases list.len(),
{
    if list.len() == 0 {
        Seq::<char>::empty()
    } else {
        spec_attrs_chunk(list.drop_last()) + spec_attr_text(list.last().0@, list.last().1@)
    }
}

/// An `#EXTINF:` line rebuilt around its parts, with `chunk` appended to
/// the attribute text.
pub open spec fn spec_rebuilt_info(info: Seq<char>, chunk: Seq<char>) -> Seq<char> {
    "#EXTINF:"@ + spec_entry_attrs(info) + chunk + ","@ + spec_entry_name(info)
}

/// The `#EXTINF:` line after binding the entry to `tvg`: an existing
/// complete `tvg-id="..."` attribute has its value replaced; otherwise the
/// attribute is appended.
pub open spec fn spec_set_tvg_id(info: Seq<char>, tvg: Seq<char>) -> Seq<char> {
    let attrs = spec_entry_attrs(info);
    let key = "tvg-id=\""@;
    match spec_find(attrs, key) {
        Some(i) => {
            let rest = attrs.skip(i + key.len());
            match spec_find(rest, "\""@) {
                Some(q) => "#EXTINF:"@ + attrs.take(i + key.len()) + tvg + rest.skip(q) + ","@
                    + spec_entry_name(info),
                None => spec_rebuilt_info(info, spec_attr_text("tvg-id"@, tvg)),
            }
        },
        None => spec_rebuilt_info(info, spec_attr_text("tvg-id"@, tvg)),
    }
}

impl Entry {
    /// Rebuilds the `#EXTINF:` line with one more attribute.
    fn push_one_attribute(&mut self, k: &str, v: &str)
        ensures
            final(self)@.info == spec_rebuilt_info(
                old(self)@.info,
                spec_attr_text(k@, v@),
            ),
            final(self)@.url == old(self)@.url,
            final(self)@.group == old(self)@.group,
    {
        let attrs_part = self.info_attrs().to_owned();
        let name_part = self.name().to_owned();
        let mut out = String::new();
        out.push_str("#EXTINF:");
        out.push_str(attrs_part.as_str());
        out.push_str(" ");
        out.push_str(k);
        out.push_str("=\"");
        out.push_str(v);
        out.push_str("\"");
        out.push_str(",");
        out.push_str(name_part.as_str());
        proof {
            assert(out@ =~= spec_rebuilt_info(old(self)@.info, spec_attr_text(k@, v@)));
        }
        self.info = out;
    }

    /// Appends ` name="value"` attributes to the `#EXTINF:` line, keeping
    /// its display name.
    #[verifier::loop_isolation(false)]
    pub fn append_attributes(&mut self, attrs: &[(&str, &str)])
        ensures
            final(self)@.info == spec_rebuilt_info(old(self)@.info, spec_attrs_chunk(attrs@)),
            final(self)@.url == old(self)@.url,
            final(self)@.group == old(self)@.group,
    {
        let attrs_part = self.info_attrs().to_owned();
        let name_part = self.name().to_owned();
        let mut out = String::new();
        out.push_str("#EXTINF:");
        out.push_str(attrs_part.as_str());
        let mut i: usize = 0;
        while i < attrs.len()
            invariant
                i <= attrs@.len(),
                out@ == "#EXTINF:"@ + spec_entry_attrs(old(self)@.info) + spec_attrs_chunk(
                    attrs@.take(i as int),
                ),
            decreases attrs@.len() - i,
        {
            let pair = vstd::slice::slice_index_get(attrs, i);
            out.push_str(" ");
            out.push_str(pair.0);
            out.push_str("=\"");
            out.push_str(pair.1);
            out.push_str("\"");
            proof {
                assert(attrs@.take(i as int + 1).drop_last() =~= attrs@.take(i as int));
                assert(out@ =~= "#EXTINF:"@ + spec_entry_attrs(old(self)@.info)
                    + spec_attrs_chunk(attrs@.take(i as int + 1)));
            }
            i += 1;
        }
        proof {
            assert(attrs@.take(attrs@.len() as int) =~= attrs@);
        }
        out.push_str(",");
        out.push_str(name_part.as_str());
        proof {
            assert(out@ =~= spec_rebuilt_info(old(self)@.info, spec_attrs_chunk(attrs@)));
        }
        self.info = out;
    }

    /// Binds the entry to a channel alias: replaces the value of an
    /// existing `tvg-id` attribute, or appends the attribute.
    pub fn set_tvg_id(&mut self, tvg_id: &str)
        ensures
            final(self)@.info == spec_set_tvg_id(old(self)@.info, tvg_id@),
            final(self)@.url == old(self)@.url,
            final(self)@.group == old(self)@.group,
    {
        let attrs = self.info_attrs().to_owned();
        let st = attrs.as_str();
        let an = st.unicode_len();
        let kn = "tvg-id=\"".unicode_len();
        proof {
            lemma_find_props(st@, "tvg-id=\""@);
        }
        let found = match find_sub(st, "tvg-id=\"") {
            Some(i) => {
                let rest = st.substring_char(i + kn, an);
                proof {
                    reveal_strlit("\"");
                    lemma_find_props(rest@, "\""@);
                }
                match find_sub(rest, "\"") {
                    Some(q) => Some((i, q)),
                    None => None,
                }
            },
            None => None,
        };
        match found {
            Some((i, q)) => {
                let name_part = self.name().to_owned();
                let mut out = String::new();
                out.push_str("#EXTINF:");
                out.push_str(st.substring_char(0, i + kn));
                out.push_str(tvg_id);
                let rest = st.substring_char(i + kn, an);
                out.push_str(rest.substring_char(q, rest.unicode_len()));
                out.push_str(",");
                out.push_str(name_part.as_str());
                proof {
                    assert(out@ =~= spec_set_tvg_id(old(self)@.info, tvg_id@));
                }
                self.info = out;
            },
            None => {
                self.push_one_attribute("tvg-id", tvg_id);
                proof {
                    assert(final(self)@.info == spec_set_tvg_id(old(self)@.info, tvg_id@));
                }
            },
        }
    }

    /// What one entry contributes to a written playlist.
    pub open spec fn spec_written(e: EntryModel) -> Seq<char> {
        (if e.group.len() > 0 {
            e.group + "\n"@
        } else {
            Seq::<char>::empty()
        }) + e.info + "\n"@ + e.url + "\n"@
    }

    /// Appends this entry's lines to a playlist under construction.
    pub fn write_to(&self, out: &mut String)
        ensures
            final(out)@ == old(out)@ + Self::spec_written(self@),
    {
        if !self.group.as_str().is_empty() {
            out.push_str(self.group.as_str());
            out.push_str("\n");
        }
        out.push_str(self.info.as_str());
        out.push_str("\n");
        out.push_str(self.url.as_str());
        out.push_str("\n");
        proof {
            reveal_strlit("\n");
            assert(final(out)@ =~= old(out)@ + Self::spec_written(self@));
        }
    }

    /// Empties the entry, ready to accumulate the next one.
    fn clear(&mut self)
        ensures
            final(self)@.url == Seq::<char>::empty(),
            final(self)@.info == Seq::<char>::empty(),
            final(self)@.group == Seq::<char>::empty(),
    {
        self.url = String::new();
        self.info = String::new();
        self.group = String::new();
    }
}

/// What makes an m3u playlist unreadable, and where.
#[derive(Debug, PartialEq, Eq, Structural)]
pub enum ErrorKind {
    InvalidHeader,
    ExpectedInfo,
    ExpectedUrl,
    RepeatedGroup,
    InvalidUrl,
}

/// A parse failure: the offending line's number and what went wrong there.
#[derive(Debug)]
pub enum Error {
    M3UError((u64, ErrorKind)),
}

/// Mathematical image of an [`Error`].
#[verifier::ext_equal]
pub struct ErrorModel {
    pub line: int,
    pub kind: ErrorKind,
}

impl View for Error {
    type V = ErrorModel;

    open spec fn view(&self) -> ErrorModel {
        match self {
            Error::M3UError((line, kind)) => ErrorModel { line: *line as int, kind: *kind },
        }
    }
}

enum State {
    Header,
    Body,
}

/// The input split into lines: one piece per newline, with the text after
/// the last newline a final piece unless it is empty.
pub open spec fn spec_split_lines(s: Seq<char>) -> Seq<Seq<char>>
    decreases s.len(),
{
    if s.len() == 0 {
        Seq::<Seq<char>>::empty()
    } else {
        match spec_find(s, "\n"@) {
            Some(i) => if 0 <= i < s.len() {
                seq![s.take(i)] + spec_split_lines(s.skip(i + 1))
            } else {
                seq![s]
            },
            None => seq![s],
        }
    }
}

/// Mathematical image of a [`Playlist`] mid-parse.
#[verifier::ext_equal]
pub struct PlaylistModel {
    pub lines: Seq<Seq<char>>,
    pub pos: int,
    pub in_body: bool,
    pub current: EntryModel,
    pub line_number: int,
}

/// The empty accumulator entry.
pub open spec fn spec_empty_entry() -> EntryModel {
    EntryModel {
        url: Seq::<char>::empty(),
        info: Seq::<char>::empty(),
        group: Seq::<char>::empty(),
    }
}

/// One pull on the playlist: skips blank lines, checks the header once,
/// accumulates `#EXTINF:` and `#EXTGRP:` lines, and completes an entry at a
/// location line — or reports the first offence.  Yields nothing at the end
/// of input.
pub open spec fn spec_playlist_next(m: PlaylistModel) -> (PlaylistModel, Option<
    Result<EntryModel, ErrorModel>,
>)
    decreases m.lines.len() - m.pos,
{
    if m.pos < 0 || m.pos >= m.lines.len() {
        (m, None)
    } else {
        let line = spec_trim_end(m.lines[m.pos]);
        let ln = m.line_number + 1;
        let m1 = PlaylistModel {
            lines: m.lines,
            pos: m.pos + 1,
            in_body: m.in_body,
            current: m.current,
            line_number: ln,
        };
        if line.len() == 0 {
            spec_playlist_next(m1)
        } else if !m.in_body {
            if spec_starts_with(line, "#EXTM3U"@) {
                spec_playlist_next(
                    PlaylistModel {
                        lines: m1.lines,
                        pos: m1.pos,
                        in_body: true,
                        current: m1.current,
                        line_number: m1.line_number,
                    },
                )
            } else {
                (m1, Some(Err(ErrorModel { line: ln, kind: ErrorKind::InvalidHeader })))
            }
        } else if spec_starts_with(line, "#EXTINF:"@) {
            if m.current.info.len() > 0 {
                (m1, Some(Err(ErrorModel { line: ln, kind: ErrorKind::ExpectedUrl })))
            } else {
                spec_playlist_next(
                    PlaylistModel {
                        lines: m1.lines,
                        pos: m1.pos,
                        in_body: m1.in_body,
                        current: EntryModel {
                            url: m.current.url,
                            info: line,
                            group: m.current.group,
                        },
                        line_number: m1.line_number,
                    },
                )
            }
        } else if spec_starts_with(line, "#EXTGRP:"@) {
            if m.current.group.len() > 0 {
                (m1, Some(Err(ErrorModel { line: ln, kind: ErrorKind::RepeatedGroup })))
            } else {
                spec_playlist_next(
                    PlaylistModel {
                        lines: m1.lines,
                        pos: m1.pos,
                        in_body: m1.in_body,
                        current: EntryModel {
                            url: m.current.url,
                            info: m.current.info,
                            group: line,
                        },
                        line_number: m1.line_number,
                    },
                )
            }
        } else if m.current.info.len() == 0 {
            (m1, Some(Err(ErrorModel { line: ln, kind: ErrorKind::ExpectedInfo })))
        } else if spec_find(line, "://"@) is None {
            (m1, Some(Err(ErrorModel { line: ln, kind: ErrorKind::InvalidUrl })))
        } else {
            (
                PlaylistModel {
                    lines: m1.lines,
                    pos: m1.pos,
                    in_body: m1.in_body,
                    current: spec_empty_entry(),
                    line_number: m1.line_number,
                },
                Some(
                    Ok(
                        EntryModel { url: line, info: m.current.info, group: m.current.group },
                    ),
                ),
            )
        }
    }
}

/// A pull moves forward through the lines and never touches them; a yielded
/// item means at least one line was consumed.
pub proof fn lemma_playlist_next_progress(m: PlaylistModel)
    requires
        0 <= m.pos <= m.lines.len(),
    ensures
        ({
            let (m2, item) = spec_playlist_next(m);
            &&& m.pos <= m2.pos <= m.lines.len()
            &&& m2.lines == m.lines
            &&& (item is Some ==> m2.pos > m.pos)
            &&& m2.line_number == m.line_number + (m2.pos - m.pos)
        }),
    decreases m.lines.len() - m.pos,
{
    if 0 <= m.pos < m.lines.len() {
        let line = spec_trim_end(m.lines[m.pos]);
        let m1 = PlaylistModel {
            lines: m.lines,
            pos: m.pos + 1,
            in_body: m.in_body,
            current: m.current,
            line_number: m.line_number + 1,
        };
        if line.len() == 0 {
            lemma_playlist_next_progress(m1);
        } else if !m.in_body {
            if spec_starts_with(line, "#EXTM3U"@) {
                lemma_playlist_next_progress(
                    PlaylistModel {
                        lines: m1.lines,
                        pos: m1.pos,
                        in_body: true,
                        current: m1.current,
                        line_number: m1.line_number,
                    },
                );
            }
        } else if spec_starts_with(line, "#EXTINF:"@) {
            if m.current.info.len() == 0 {
                lemma_playlist_next_progress(
                    PlaylistModel {
                        lines: m1.lines,
                        pos: m1.pos,
                        in_body: m1.in_body,
                        current: EntryModel {
                            url: m.current.url,
                            info: line,
                            group: m.current.group,
                        },
                        line_number: m1.line_number,
                    },
                );
            }
        } else if spec_starts_with(line, "#EXTGRP:"@) {
            if m.current.group.len() == 0 {
                lemma_playlist_next_progress(
                    PlaylistModel {
                        lines: m1.lines,
                        pos: m1.pos,
                        in_body: m1.in_body,
                        current: EntryModel {
                            url: m.current.url,
                            info: m.current.info,
                            group: line,
                        },
                        line_number: m1.line_number,
                    },
                );
            }
        }
    }
}

/// The accumulator entry after consuming one non-blank, non-final line.
pub open spec fn spec_playlist_next_mid(m: PlaylistModel) -> EntryModel {
    let line = spec_trim_end(m.lines[m.pos]);
    if m.in_body && spec_starts_with(line, "#EXTINF:"@) {
        EntryModel { url: m.current.url, info: line, group: m.current.group }
    } else if m.in_body && spec_starts_with(line, "#EXTGRP:"@) {
        EntryModel { url: m.current.url, info: m.current.info, group: line }
    } else {
        m.current
    }
}

/// An m3u playlist being read line by line.
pub struct Playlist {
    lines: Vec<String>,
    st: State,
    current: Entry,
    line_number: u64,
    pos: usize,
}

impl View for Playlist {
    type V = PlaylistModel;

    closed spec fn view(&self) -> PlaylistModel {
        PlaylistModel {
            lines: self.lines.deep_view(),
            pos: self.pos as int,
            in_body: self.st is Body,
            current: self.current@,
            line_number: self.line_number as int,
        }
    }
}

/// Splits the input at newlines.
#[verifier::loop_isolation(false)]
fn split_lines(input: &str) -> (r: Vec<String>)
    ensures
        r.deep_view() == spec_split_lines(input@),
{
    proof {
        reveal_strlit("\n");
    }
    let n = input.unicode_len();
    let mut r: Vec<String> = Vec::new();
    let mut line_start: usize = 0;
    let mut i: usize = 0;
    proof {
        assert(input@.skip(0) =~= input@);
        assert(r.deep_view() + spec_split_lines(input@) =~= spec_split_lines(input@));
    }
    while i < n
        invariant
            0 <= line_start <= i <= n,
            n == input@.len(),
            forall|j: int| line_start <= j < i ==> input@[j] != '\n',
            r.deep_view() + spec_split_lines(input@.skip(line_start as int)) =~= spec_split_lines(
                input@,
            ),
        decreases n - i,
    {
        let c = input.get_char(i);
        if c == '\n' {
            let piece = input.substring_char(line_start, i).to_owned();
            let ghost prev = r.deep_view();
            r.push(piece);
            proof {
                let restv = input@.skip(line_start as int);
                assert(spec_match_at(restv, "\n"@, i - line_start)) by {
                    assert(restv.subrange(
                        i - line_start,
                        i - line_start + "\n"@.len(),
                    ) =~= "\n"@);
                }
                assert forall|j: int|
                    0 <= j < i - line_start implies !spec_match_at(restv, "\n"@, j) by {
                    if spec_match_at(restv, "\n"@, j) {
                        assert(restv.subrange(j, j + 1)[0] == '\n');
                        assert(input@[line_start + j] == '\n');
                    }
                }
                crate::text::lemma_find_at(restv, "\n"@, i - line_start);
                assert(restv.take(i - line_start) =~= input@.subrange(
                    line_start as int,
                    i as int,
                ));
                assert(restv.skip(i - line_start + 1) =~= input@.skip(i as int + 1));
                assert(r.deep_view() =~= prev.push(input@.subrange(line_start as int, i as int)));
                assert(r.deep_view() + spec_split_lines(input@.skip(i as int + 1))
                    =~= spec_split_lines(input@));
            }
            line_start = i + 1;
        }
        i += 1;
    }
    if line_start < n {
        let piece = input.substring_char(line_start, n).to_owned();
        let ghost prev = r.deep_view();
        r.push(piece);
        proof {
            let restv = input@.skip(line_start as int);
            assert forall|j: int| !spec_match_at(restv, "\n"@, j) by {
                if spec_match_at(restv, "\n"@, j) {
                    assert(0 <= j && j + 1 <= restv.len());
                    assert(restv.subrange(j, j + 1)[0] == '\n');
                    assert(input@[line_start + j] == '\n');
                }
            }
            crate::text::lemma_find_none(restv, "\n"@);
            assert(restv =~= input@.subrange(line_start as int, n as int));
            assert(r.deep_view() =~= prev.push(restv));
            assert(r.deep_view() =~= spec_split_lines(input@));
        }
    } else {
        proof {
            assert(input@.skip(line_start as int) =~= Seq::<char>::empty());
            assert(r.deep_view() =~= spec_split_lines(input@));
        }
    }
    r
}

impl Playlist {
    /// A parser state that can keep serving pulls.
    pub open spec fn wf(&self) -> bool {
        &&& 0 <= self@.pos <= self@.lines.len()
        &&& self@.line_number == self@.pos
    }

    /// Opens a playlist over its whole text.
    pub fn open(reader: &str) -> (r: Self)
        ensures
            r.wf(),
            r@ == (PlaylistModel {
                lines: spec_split_lines(reader@),
                pos: 0,
                in_body: false,
                current: spec_empty_entry(),
                line_number: 0,
            }),
    {
        let r = Playlist {
            lines: split_lines(reader),
            st: State::Header,
            current: Entry::default(),
            line_number: 0,
            pos: 0,
        };
        proof {
            assert(r@ =~= PlaylistModel {
                lines: spec_split_lines(reader@),
                pos: 0,
                in_body: false,
                current: spec_empty_entry(),
                line_number: 0,
            });
        }
        r
    }

    /// Wraps a parse failure at the current line.
    fn make_error(&self, kind: ErrorKind) -> (r: Option<Result<Entry, Error>>)
        ensures
            match r {
                Some(Err(e)) => e@ == (ErrorModel { line: self@.line_number, kind }),
                _ => false,
            },
    {
        Some(Err(Error::M3UError((self.line_number, kind))))
    }

    /// Pulls the next entry: `None` at the end of input, the entry or the
    /// first offence otherwise.
    #[verifier::loop_isolation(false)]
    pub fn next_entry(&mut self) -> (r: Option<Result<Entry, Error>>)
        requires
            old(self).wf(),
        ensures
            final(self).wf(),
            final(self)@ == spec_playlist_next(old(self)@).0,
            match r {
                None => spec_playlist_next(old(self)@).1 is None,
                Some(Ok(e)) => spec_playlist_next(old(self)@).1 == Some(
                    Result::<EntryModel, ErrorModel>::Ok(e@),
                ),
                Some(Err(er)) => spec_playlist_next(old(self)@).1 == Some(
                    Result::<EntryModel, ErrorModel>::Err(er@),
                ),
            },
    {
        loop
            invariant
                self.wf(),
                spec_playlist_next(self@) == spec_playlist_next(old(self)@),
            decreases self@.lines.len() - self@.pos,
        {
            if self.pos >= self.lines.len() {
                return None;
            }
            let ghost pre = self@;
            let line = trim_end(self.lines[self.pos].as_str()).to_owned();
            proof {
                assert(self@.lines[self@.pos] == self.lines@[self.pos as int]@);
                assert(line@ == spec_trim_end(pre.lines[pre.pos]));
            }
            self.pos = self.pos + 1;
            self.line_number = self.line_number + 1;
            if line.as_str().is_empty() {
                proof {
                    assert(self@ =~= PlaylistModel {
                        lines: pre.lines,
                        pos: pre.pos + 1,
                        in_body: pre.in_body,
                        current: pre.current,
                        line_number: pre.line_number + 1,
                    });
                }
                continue ;
            }
            match self.st {
                State::Header => {
                    if starts_with(line.as_str(), "#EXTM3U") {
                        self.st = State::Body;
                        proof {
                            assert(self@ =~= PlaylistModel {
                                lines: pre.lines,
                                pos: pre.pos + 1,
                                in_body: true,
                                current: pre.current,
                                line_number: pre.line_number + 1,
                            });
                        }
                        continue ;
                    } else {
                        let r = self.make_error(ErrorKind::InvalidHeader);
                        proof {
                            assert(self@ =~= PlaylistModel {
                                lines: pre.lines,
                                pos: pre.pos + 1,
                                in_body: pre.in_body,
                                current: pre.current,
                                line_number: pre.line_number + 1,
                            });
                        }
                        return r;
                    }
                },
                State::Body => {
                    if starts_with(line.as_str(), "#EXTINF:") {
                        if !self.current.info.as_str().is_empty() {
                            let r = self.make_error(ErrorKind::ExpectedUrl);
                            proof {
                                assert(self@ =~= spec_playlist_next(pre).0);
                            }
                            return r;
                        }
                        self.current.info = line;
                        proof {
                            assert(self@ =~= PlaylistModel {
                                lines: pre.lines,
                                pos: pre.pos + 1,
                                in_body: pre.in_body,
                                current: spec_playlist_next_mid(pre),
                                line_number: pre.line_number + 1,
                            });
                        }
                        continue ;
                    } else if starts_with(line.as_str(), "#EXTGRP:") {
                        if !self.current.group.as_str().is_empty() {
                            let r = self.make_error(ErrorKind::RepeatedGroup);
                            proof {
                                assert(self@ =~= spec_playlist_next(pre).0);
                            }
                            return r;
                        }
                        self.current.group = line;
                        proof {
                            assert(self@ =~= PlaylistModel {
                                lines: pre.lines,
                                pos: pre.pos + 1,
                                in_body: pre.in_body,
                                current: spec_playlist_next_mid(pre),
                                line_number: pre.line_number + 1,
                            });
                        }
                        continue ;
                    } else {
                        if self.current.info.as_str().is_empty() {
                            let r = self.make_error(ErrorKind::ExpectedInfo);
                            proof {
                                assert(self@ =~= spec_playlist_next(pre).0);
                            }
                            return r;
                        }
                        proof {
                            reveal_strlit("://");
                            lemma_find_props(line@, "://"@);
                        }
                        if find_sub(line.as_str(), "://").is_none() {
                            let r = self.make_error(ErrorKind::InvalidUrl);
                            proof {
                                assert(self@ =~= spec_playlist_next(pre).0);
                            }
                            return r;
                        }
                        let entry = Entry {
                            url: line,
                            info: self.current.info.clone(),
                            group: self.current.group.clone(),
                        };
                        self.current.clear();
                        proof {
                            assert(self@ =~= spec_playlist_next(pre).0);
                        }
                        return Some(Ok(entry));
                    }
                },
            }
        }
    }

    /// Reads the whole playlist: every entry in order, or the first
    /// offence.
    pub open spec fn spec_parse_all(m: PlaylistModel) -> Result<Seq<EntryModel>, ErrorModel>
        decreases m.lines.len() - m.pos,
    {
        let (m2, item) = spec_playlist_next(m);
        match item {
            None => Ok(Seq::<EntryModel>::empty()),
            Some(Err(e)) => Err(e),
            Some(Ok(en)) => if m.pos < m2.pos <= m2.lines.len() && m2.lines == m.lines {
                match Self::spec_parse_all(m2) {
                    Ok(rest) => Ok(seq![en] + rest),
                    Err(e) => Err(e),
                }
            } else {
                Ok(seq![en])
            },
        }
    }

    /// Reads every entry of the playlist, in order, stopping at the first
    /// offence.
    #[verifier::loop_isolation(false)]
    pub fn parse_all(&mut self) -> (r: Result<Vec<Entry>, Error>)
        requires
            old(self).wf(),
        ensures
            match r {
                Ok(entries) => Self::spec_parse_all(old(self)@) == Ok::<_, ErrorModel>(
                    entries.deep_view(),
                ),
                Err(e) => Self::spec_parse_all(old(self)@) == Err::<Seq<EntryModel>, _>(e@),
            },
    {
        let mut entries: Vec<Entry> = Vec::new();
        proof {
            match Self::spec_parse_all(old(self)@) {
                Ok(all) => {
                    assert(entries.deep_view() =~= all.take(0));
                    assert(all.skip(0) =~= all);
                },
                Err(_) => {},
            }
        }
        loop
            invariant
                self.wf(),
                match Self::spec_parse_all(old(self)@) {
                    Ok(all) => entries.deep_view().len() <= all.len() && entries.deep_view()
                        == all.take(entries.deep_view().len() as int) && Self::spec_parse_all(
                        self@,
                    ) == Ok::<_, ErrorModel>(all.skip(entries.deep_view().len() as int)),
                    Err(e) => Self::spec_parse_all(self@) == Err::<Seq<EntryModel>, _>(e),
                },
            decreases self@.lines.len() - self@.pos,
        {
            let ghost pre = self@;
            let ghost k = entries.deep_view().len() as int;
            proof {
                lemma_playlist_next_progress(pre);
            }
            match self.next_entry() {
                None => {
                    proof {
                        assert(Self::spec_parse_all(pre) == Ok::<_, ErrorModel>(
                            Seq::<EntryModel>::empty(),
                        ));
                        match Self::spec_parse_all(old(self)@) {
                            Ok(all) => {
                                assert(all.skip(k).len() == 0);
                                assert(entries.deep_view() =~= all);
                            },
                            Err(_) => {},
                        }
                    }
                    break ;
                },
                Some(Err(e)) => {
                    proof {
                        assert(Self::spec_parse_all(pre) == Err::<Seq<EntryModel>, _>(e@));
                    }
                    return Err(e);
                },
                Some(Ok(en)) => {
                    let ghost m2 = self@;
                    let ghost prev = entries.deep_view();
                    entries.push(en);
                    proof {
                        assert(entries.deep_view() =~= prev.push(en@));
                        assert(Self::spec_parse_all(pre) == (match Self::spec_parse_all(m2) {
                            Ok(rest) => Ok::<_, ErrorModel>(seq![en@] + rest),
                            Err(e) => Err(e),
                        }));
                        match Self::spec_parse_all(old(self)@) {
                            Ok(all) => {
                                let tail = all.skip(k);
                                assert(Self::spec_parse_all(pre) == Ok::<_, ErrorModel>(tail));
                                match Self::spec_parse_all(m2) {
                                    Ok(rest) => {
                                        assert(seq![en@] + rest == tail);
                                        assert(tail.len() >= 1);
                                        assert(tail[0] == en@);
                                        assert(all[k] == en@) by {
                                            assert(tail[0] == all[k]);
                                        }
                                        assert(entries.deep_view() =~= all.take(k + 1));
                                        assert(rest =~= all.skip(k + 1)) by {
                                            assert(forall|j: int|
                                                0 <= j < rest.len() ==> rest[j] == (seq![en@]
                                                    + rest)[j + 1]);
                                        }
                                    },
                                    Err(_) => {
                                        assert(false);
                                    },
                                }
                            },
                            Err(_) => {},
                        }
                    }
                },
            }
        }
        Ok(entries)
    }
}

/// Writes a playlist: the header line, then each pushed entry.
pub struct PlaylistWriter {
    storage: String,
}

impl View for PlaylistWriter {
    type V = Seq<char>;

    closed spec fn view(&self) -> Seq<char> {
        self.storage@
    }
}

impl PlaylistWriter {
    /// Starts a playlist with its `#EXTM3U` header.
    pub fn new() -> (r: Self)
        ensures
            r@ == "#EXTM3U"@ + "\n"@,
    {
        let mut storage = String::new();
        storage.push_str("#EXTM3U");
        storage.push_str("\n");
        proof {
            assert(storage@ =~= "#EXTM3U"@ + "\n"@);
        }
        PlaylistWriter { storage }
    }

    /// Appends one entry.
    pub fn push(&mut self, entry: &Entry)
        ensures
            final(self)@ == old(self)@ + Entry::spec_written(entry@),
    {
        entry.write_to(&mut self.storage);
    }

    /// The finished playlist text.
    pub fn into_string(self) -> (r: String)
        ensures
            r@ == self@,
    {
        self.storage
    }
}

} // verus!
