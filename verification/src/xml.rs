//! A small event scanner over XML text: start tags with their attributes,
//! end tags, self-closing tags, and trimmed character data.
//!
//! The scanner yields one event per call, exactly as [`spec_scan`] reads it
//! off the document's characters; comments, declarations and other markup
//! are reported as [`XmlEvent::Other`], and malformed markup as
//! [`XmlEvent::Bad`], which poisons the rest of the document.  What the
//! events mean for the guide is decided by the feed parser built on top.

use vstd::prelude::*;

verus! {

/// Mathematical image of an [`XmlAttr`].
pub struct XmlAttrModel {
    pub name: Seq<char>,
    pub value: Seq<char>,
}

/// One `name="value"` attribute of a tag, with the raw (still escaped)
/// value.
pub struct XmlAttr {
    pub name: String,
    pub value: String,
}

impl View for XmlAttr {
    type V = XmlAttrModel;

    open spec fn view(&self) -> XmlAttrModel {
        XmlAttrModel { name: self.name@, value: self.value@ }
    }
}

impl DeepView for XmlAttr {
    type V = XmlAttrModel;

    open spec fn deep_view(&self) -> XmlAttrModel {
        self.view()
    }
}

/// Mathematical image of an [`XmlEvent`].
pub enum XmlEventModel {
    Open { name: Seq<char>, attrs: Seq<XmlAttrModel>, self_closing: bool },
    Close { name: Seq<char> },
    Text { raw: Seq<char> },
    Other,
    Bad,
    Eof,
}

/// One event of the document, in document order.
pub enum XmlEvent {
    /// A start tag, with `self_closing` for `<tag ... />`.
    Open { name: String, attrs: Vec<XmlAttr>, self_closing: bool },
    /// An end tag.
    Close { name: String },
    /// Character data between tags, whitespace-trimmed, still escaped.
    Text { raw: String },
    /// A comment, declaration or other markup the guide ignores.
    Other,
    /// Malformed markup; the document ends here.
    Bad,
    /// The end of the document.
    Eof,
}

impl View for XmlEvent {
    type V = XmlEventModel;

    open spec fn view(&self) -> XmlEventModel {
        match self {
            XmlEvent::Open { name, attrs, self_closing } => XmlEventModel::Open {
                name: name@,
                attrs: attrs.deep_view(),
                self_closing: *self_closing,
            },
            XmlEvent::Close { name } => XmlEventModel::Close { name: name@ },
            XmlEvent::Text { raw } => XmlEventModel::Text { raw: raw@ },
            XmlEvent::Other => XmlEventModel::Other,
            XmlEvent::Bad => XmlEventModel::Bad,
            XmlEvent::Eof => XmlEventModel::Eof,
        }
    }
}

/// Whitespace as the scanner trims it.
pub open spec fn spec_is_space(c: char) -> bool {
    c == ' ' || c == '\t' || c == '\r' || c == '\n'
}

fn is_space(c: char) -> (r: bool)
    ensures
        r == spec_is_space(c),
{
    c == ' ' || c == '\t' || c == '\r' || c == '\n'
}

/// A character that ends a tag or attribute name.
pub open spec fn spec_ends_name(c: char) -> bool {
    spec_is_space(c) || c == '>' || c == '/'
}

/// The first position at or after `p` whose character satisfies `pred`, or
/// the document's length when none does.
pub open spec fn spec_first_at(doc: Seq<char>, p: int, pred: spec_fn(char) -> bool) -> int
    decreases doc.len() - p,
{
    if p < 0 || p >= doc.len() {
        doc.len() as int
    } else if pred(doc[p]) {
        p
    } else {
        spec_first_at(doc, p + 1, pred)
    }
}

/// The first non-space position in `[a, b)`, or `b`.
pub open spec fn spec_ltrim(doc: Seq<char>, a: int, b: int) -> int
    decreases b - a,
{
    if a < b && a < doc.len() && (0 <= a && spec_is_space(doc[a])) {
        spec_ltrim(doc, a + 1, b)
    } else {
        a
    }
}

/// The position after the last non-space character of `[a, b)`, or `a`.
pub open spec fn spec_rtrim(doc: Seq<char>, a: int, b: int) -> int
    decreases b - a,
{
    if b > a && 0 < b <= doc.len() && spec_is_space(doc[b - 1]) {
        spec_rtrim(doc, a, b - 1)
    } else {
        b
    }
}

/// The position after the closing mark of a comment or declaration that is
/// scanned for from `p`: the first `pat` (immediately followed by `>` when
/// `then_gt`), or nothing when the document ends first.
pub open spec fn spec_skip_past(doc: Seq<char>, p: int, pat: char, then_gt: bool) -> Option<int>
    decreases doc.len() - p,
{
    if p < 0 || p >= doc.len() {
        None
    } else if doc[p] == pat && !then_gt {
        Some(p + 1)
    } else if doc[p] == pat && then_gt && p + 1 < doc.len() && doc[p + 1] == '>' {
        Some(p + 2)
    } else {
        spec_skip_past(doc, p + 1, pat, then_gt)
    }
}

/// The attribute run of a start tag, read from position `p` (just after the
/// tag name): each attribute is a name, `=`, and a quoted value, with
/// whitespace between; the run ends at `>` or `/>`.  Malformed markup is
/// [`XmlEventModel::Bad`] and poisons the rest of the document.
pub open spec fn spec_scan_attrs(
    doc: Seq<char>,
    p: int,
    name: Seq<char>,
    attrs: Seq<XmlAttrModel>,
) -> (XmlEventModel, int)
    decreases doc.len() - p,
{
    let len = doc.len() as int;
    let p2 = spec_ltrim(doc, p, len);
    if !(p <= p2 <= len) {
        (XmlEventModel::Bad, len)
    } else if p2 >= len {
        (XmlEventModel::Bad, len)
    } else if doc[p2] == '>' {
        (XmlEventModel::Open { name, attrs, self_closing: false }, p2 + 1)
    } else if doc[p2] == '/' {
        if p2 + 1 < len && doc[p2 + 1] == '>' {
            (XmlEventModel::Open { name, attrs, self_closing: true }, p2 + 2)
        } else {
            (XmlEventModel::Bad, len)
        }
    } else {
        let ae = spec_first_at(doc, p2, |c: char| spec_ends_name(c) || c == '=');
        if ae == p2 {
            (XmlEventModel::Bad, len)
        } else {
            let p3 = spec_ltrim(doc, ae, len);
            if p3 >= len || doc[p3] != '=' {
                (XmlEventModel::Bad, len)
            } else {
                let p4 = spec_ltrim(doc, p3 + 1, len);
                if p4 >= len {
                    (XmlEventModel::Bad, len)
                } else {
                    let q = doc[p4];
                    if q != '"' && q != '\'' {
                        (XmlEventModel::Bad, len)
                    } else {
                        let vend = spec_first_at(doc, p4 + 1, |c: char| c == q);
                        if vend >= len {
                            (XmlEventModel::Bad, len)
                        } else {
                            let attr = XmlAttrModel {
                                name: doc.subrange(p2, ae),
                                value: doc.subrange(p4 + 1, vend),
                            };
                            if vend + 1 > p {
                                spec_scan_attrs(doc, vend + 1, name, attrs.push(attr))
                            } else {
                                (XmlEventModel::Bad, len)
                            }
                        }
                    }
                }
            }
        }
    }
}

/// The markup that starts at the `<` at `pos`: a comment, declaration or
/// doctype (skipped as [`XmlEventModel::Other`]), an end tag, or a start
/// tag with its attributes.
pub open spec fn spec_scan_markup(doc: Seq<char>, pos: int) -> (XmlEventModel, int) {
    let len = doc.len() as int;
    if pos + 1 < len && (doc[pos + 1] == '!' || doc[pos + 1] == '?') {
        let comment = doc[pos + 1] == '!' && len - pos > 3 && doc[pos + 2] == '-' && doc[pos + 3]
            == '-';
        let res = if comment {
            spec_skip_past(doc, pos + 2, '-', true)
        } else if doc[pos + 1] == '?' {
            spec_skip_past(doc, pos + 2, '?', true)
        } else {
            spec_skip_past(doc, pos + 2, '>', false)
        };
        match res {
            Some(p2) => (XmlEventModel::Other, p2),
            None => (XmlEventModel::Bad, len),
        }
    } else if pos + 1 < len && doc[pos + 1] == '/' {
        let gt = spec_first_at(doc, pos + 2, |c: char| c == '>');
        if gt < len {
            (
                XmlEventModel::Close { name: doc.subrange(pos + 2, spec_rtrim(doc, pos + 2, gt)) },
                gt + 1,
            )
        } else {
            (XmlEventModel::Bad, len)
        }
    } else {
        let nend = spec_first_at(doc, pos + 1, |c: char| spec_ends_name(c));
        if nend == pos + 1 {
            (XmlEventModel::Bad, len)
        } else {
            spec_scan_attrs(doc, nend, doc.subrange(pos + 1, nend), Seq::<XmlAttrModel>::empty())
        }
    }
}

/// The next event of the document read from position `pos`, and the
/// position after it: the end of the document, markup at a `<`, or the next
/// whitespace-trimmed run of character data (a whitespace-only run is no
/// event and is skipped).
pub open spec fn spec_scan(doc: Seq<char>, pos: int) -> (XmlEventModel, int)
    decreases doc.len() - pos,
{
    if pos < 0 || pos >= doc.len() {
        (XmlEventModel::Eof, pos)
    } else if doc[pos] == '<' {
        spec_scan_markup(doc, pos)
    } else {
        let end = spec_first_at(doc, pos, |c: char| c == '<');
        let a = spec_ltrim(doc, pos, end);
        let b = spec_rtrim(doc, a, end);
        if a < b {
            (XmlEventModel::Text { raw: doc.subrange(a, b) }, end)
        } else if pos < end <= doc.len() {
            spec_scan(doc, end)
        } else {
            (XmlEventModel::Bad, doc.len() as int)
        }
    }
}

/// The scanner: a cursor over the document's characters.
pub struct XmlScanner {
    input: Vec<char>,
    pos: usize,
}

/// Builds a string from a range of characters.
#[verifier::loop_isolation(false)]
fn chars_to_string(v: &Vec<char>, a: usize, b: usize) -> (r: String)
    requires
        a <= b <= v@.len(),
    ensures
        r@ == v@.subrange(a as int, b as int),
{
    let mut r = String::new();
    let mut i: usize = a;
    while i < b
        invariant
            a <= i <= b,
            r@ == v@.subrange(a as int, i as int),
        decreases b - i,
    {
        r.push(v[i]);
        proof {
            assert(r@ =~= v@.subrange(a as int, i as int + 1));
        }
        i += 1;
    }
    r
}

impl XmlScanner {
    /// The cursor stays within the document.
    pub closed spec fn wf(&self) -> bool {
        self.pos <= self.input@.len()
    }

    /// The document being scanned.
    pub closed spec fn doc(&self) -> Seq<char> {
        self.input@
    }

    /// Where the next event will be read.
    pub closed spec fn cursor(&self) -> int {
        self.pos as int
    }

    /// How much of the document is left to scan.
    pub closed spec fn remaining(&self) -> int {
        self.input@.len() - self.pos
    }

    /// Opens a scanner over a whole document.
    #[verifier::loop_isolation(false)]
    pub fn new(input: &str) -> (r: Self)
        ensures
            r.wf(),
            r.doc() == input@,
            r.cursor() == 0,
            r.remaining() == r.doc().len(),
    {
        let n = input.unicode_len();
        let mut v: Vec<char> = Vec::new();
        let mut i: usize = 0;
        while i < n
            invariant
                i <= n,
                n == input@.len(),
                v@ == input@.take(i as int),
            decreases n - i,
        {
            v.push(input.get_char(i));
            proof {
                assert(v@ =~= input@.take(i as int + 1));
            }
            i += 1;
        }
        proof {
            assert(v@ =~= input@);
        }
        XmlScanner { input: v, pos: 0 }
    }

    /// Advances past the closing `pat` (followed by `>` when `then_gt`) of
    /// a comment or declaration; `true` when it was found, exactly as
    /// [`spec_skip_past`] locates it.
    #[verifier::loop_isolation(false)]
    fn skip_past(&mut self, pat: char, then_gt: bool) -> (r: bool)
        requires
            old(self).wf(),
        ensures
            final(self).wf(),
            final(self).input == old(self).input,
            final(self).pos >= old(self).pos,
            match spec_skip_past(old(self).doc(), old(self).cursor(), pat, then_gt) {
                Some(p2) => r && final(self).cursor() == p2,
                None => !r,
            },
    {
        while self.pos < self.input.len()
            invariant
                self.wf(),
                self.input == old(self).input,
                self.pos >= old(self).pos,
                spec_skip_past(self.doc(), old(self).cursor(), pat, then_gt) == spec_skip_past(
                    self.doc(),
                    self.cursor(),
                    pat,
                    then_gt,
                ),
            decreases self.input@.len() - self.pos,
        {
            let c = self.input[self.pos];
            if c == pat {
                if !then_gt {
                    self.pos = self.pos + 1;
                    return true;
                }
                if self.pos + 1 < self.input.len() {
                    if self.input[self.pos + 1] == '>' {
                        self.pos = self.pos + 2;
                        return true;
                    }
                }
            }
            self.pos = self.pos + 1;
        }
        false
    }

    /// Skips whitespace up to the end of the document.
    #[verifier::loop_isolation(false)]
    fn skip_spaces(&mut self)
        requires
            old(self).wf(),
        ensures
            final(self).wf(),
            final(self).input == old(self).input,
            final(self).pos >= old(self).pos,
            final(self).cursor() == spec_ltrim(
                old(self).doc(),
                old(self).cursor(),
                old(self).doc().len() as int,
            ),
    {
        while self.pos < self.input.len()
            invariant
                self.wf(),
                self.input == old(self).input,
                self.pos >= old(self).pos,
                spec_ltrim(self.doc(), old(self).cursor(), self.doc().len() as int) == spec_ltrim(
                    self.doc(),
                    self.cursor(),
                    self.doc().len() as int,
                ),
            decreases self.input@.len() - self.pos,
        {
            if !is_space(self.input[self.pos]) {
                return ;
            }
            self.pos = self.pos + 1;
        }
    }

    /// Scans the markup that starts at a `<`, exactly as
    /// [`spec_scan_markup`] reads it; on malformed markup the cursor moves
    /// to the end of the document.
    #[verifier::loop_isolation(false)]
    fn scan_markup(&mut self) -> (e: XmlEvent)
        requires
            old(self).wf(),
            old(self).cursor() < old(self).doc().len(),
            old(self).doc()[old(self).cursor()] == '<',
        ensures
            final(self).wf(),
            final(self).input == old(self).input,
            final(self).pos > old(self).pos,
            !(e is Eof),
            ({
                let (ev, p2) = spec_scan_markup(old(self).doc(), old(self).cursor());
                e@ == ev && final(self).cursor() == p2
            }),
    {
        let ghost doc = self.doc();
        let ghost pos0 = self.cursor();
        let len = self.input.len();
        // A comment, declaration, processing instruction or doctype.
        if self.pos + 1 < len && (self.input[self.pos + 1] == '!' || self.input[self.pos + 1]
            == '?') {
            let second = self.input[self.pos + 1];
            let comment = second == '!' && len - self.pos > 3 && self.input[self.pos + 2] == '-'
                && self.input[self.pos + 3] == '-';
            self.pos = self.pos + 2;
            let ok = if comment {
                self.skip_past('-', true)
            } else if second == '?' {
                self.skip_past('?', true)
            } else {
                self.skip_past('>', false)
            };
            if ok {
                return XmlEvent::Other;
            } else {
                self.pos = len;
                return XmlEvent::Bad;
            }
        }
        // An end tag.
        if self.pos + 1 < len && self.input[self.pos + 1] == '/' {
            self.pos = self.pos + 2;
            let start = self.pos;
            while self.pos < len
                invariant
                    start <= self.pos <= len,
                    len == self.input@.len(),
                    self.input == old(self).input,
                    spec_first_at(doc, start as int, |c: char| c == '>') == spec_first_at(
                        doc,
                        self.cursor(),
                        |c: char| c == '>',
                    ),
                decreases len - self.pos,
            {
                if self.input[self.pos] == '>' {
                    let mut end = self.pos;
                    while end > start && is_space(self.input[end - 1])
                        invariant
                            start <= end <= self.pos < len,
                            self.input == old(self).input,
                            spec_rtrim(doc, start as int, self.pos as int) == spec_rtrim(
                                doc,
                                start as int,
                                end as int,
                            ),
                        decreases end,
                    {
                        end = end - 1;
                    }
                    let name = chars_to_string(&self.input, start, end);
                    self.pos = self.pos + 1;
                    return XmlEvent::Close { name };
                }
                self.pos = self.pos + 1;
            }
            self.pos = len;
            return XmlEvent::Bad;
        }
        // A start tag: its name, then attributes.
        self.pos = self.pos + 1;
        let start = self.pos;
        while self.pos < len
            invariant
                start <= self.pos <= len,
                len == self.input@.len(),
                self.input == old(self).input,
                spec_first_at(doc, start as int, |c: char| spec_ends_name(c)) == spec_first_at(
                    doc,
                    self.cursor(),
                    |c: char| spec_ends_name(c),
                ),
            decreases len - self.pos,
        {
            let c = self.input[self.pos];
            if is_space(c) || c == '>' || c == '/' {
                break ;
            }
            self.pos = self.pos + 1;
        }
        if self.pos == start {
            self.pos = len;
            return XmlEvent::Bad;
        }
        let name = chars_to_string(&self.input, start, self.pos);
        let ghost namev = doc.subrange(start as int, self.pos as int);
        let ghost attrs0 = self.cursor();
        let mut attrs: Vec<XmlAttr> = Vec::new();
        proof {
            assert(attrs.deep_view() =~= Seq::<XmlAttrModel>::empty());
            assert(spec_first_at(doc, start as int, |c: char| spec_ends_name(c)) == attrs0);
        }
        loop
            invariant
                self.wf(),
                len == self.input@.len(),
                self.input == old(self).input,
                self.pos > old(self).pos,
                name@ == namev,
                spec_first_at(doc, start as int, |c: char| spec_ends_name(c)) == attrs0,
                attrs0 > start as int,
                spec_scan_attrs(doc, attrs0, namev, Seq::<XmlAttrModel>::empty())
                    == spec_scan_attrs(doc, self.cursor(), namev, attrs.deep_view()),
            decreases len - self.pos,
        {
            let ghost p_iter = self.cursor();
            let ghost attrs_iter = attrs.deep_view();
            self.skip_spaces();
            if self.pos >= len {
                self.pos = len;
                return XmlEvent::Bad;
            }
            let c = self.input[self.pos];
            if c == '>' {
                self.pos = self.pos + 1;
                return XmlEvent::Open { name, attrs, self_closing: false };
            }
            if c == '/' {
                if self.pos + 1 < len && self.input[self.pos + 1] == '>' {
                    self.pos = self.pos + 2;
                    return XmlEvent::Open { name, attrs, self_closing: true };
                }
                self.pos = len;
                return XmlEvent::Bad;
            }
            // An attribute name.
            let an_start = self.pos;
            while self.pos < len
                invariant
                    an_start <= self.pos <= len,
                    len == self.input@.len(),
                    self.input == old(self).input,
                    spec_first_at(
                        doc,
                        an_start as int,
                        |d: char| spec_ends_name(d) || d == '=',
                    ) == spec_first_at(
                        doc,
                        self.cursor(),
                        |d: char| spec_ends_name(d) || d == '=',
                    ),
                decreases len - self.pos,
            {
                let d = self.input[self.pos];
                if is_space(d) || d == '=' || d == '>' || d == '/' {
                    break ;
                }
                self.pos = self.pos + 1;
            }
            if self.pos == an_start {
                self.pos = len;
                return XmlEvent::Bad;
            }
            let an = chars_to_string(&self.input, an_start, self.pos);
            self.skip_spaces();
            if self.pos >= len || self.input[self.pos] != '=' {
                self.pos = len;
                return XmlEvent::Bad;
            }
            self.pos = self.pos + 1;
            self.skip_spaces();
            if self.pos >= len {
                self.pos = len;
                return XmlEvent::Bad;
            }
            let quote = self.input[self.pos];
            if quote != '"' && quote != '\'' {
                self.pos = len;
                return XmlEvent::Bad;
            }
            self.pos = self.pos + 1;
            let av_start = self.pos;
            while self.pos < len
                invariant
                    av_start <= self.pos <= len,
                    len == self.input@.len(),
                    self.input == old(self).input,
                    spec_first_at(doc, av_start as int, |d: char| d == quote) == spec_first_at(
                        doc,
                        self.cursor(),
                        |d: char| d == quote,
                    ),
                decreases len - self.pos,
            {
                if self.input[self.pos] == quote {
                    break ;
                }
                self.pos = self.pos + 1;
            }
            if self.pos >= len {
                return XmlEvent::Bad;
            }
            let av = chars_to_string(&self.input, av_start, self.pos);
            self.pos = self.pos + 1;
            attrs.push(XmlAttr { name: an, value: av });
            proof {
                assert(attrs.deep_view() =~= attrs_iter.push(
                    XmlAttrModel {
                        name: doc.subrange(an_start as int, spec_first_at(
                            doc,
                            an_start as int,
                            |d: char| spec_ends_name(d) || d == '=',
                        )),
                        value: doc.subrange(av_start as int, self.cursor() - 1),
                    },
                ));
            }
        }
    }

    /// Scans the next event, exactly as [`spec_scan`] reads it off the
    /// document from the cursor.  After [`XmlEvent::Eof`] or
    /// [`XmlEvent::Bad`] every further call yields [`XmlEvent::Eof`].
    #[verifier::loop_isolation(false)]
    pub fn next_event(&mut self) -> (e: XmlEvent)
        requires
            old(self).wf(),
        ensures
            final(self).wf(),
            final(self).doc() == old(self).doc(),
            final(self).remaining() == final(self).doc().len() - final(self).cursor(),
            0 <= final(self).cursor() <= final(self).doc().len(),
            final(self).remaining() <= old(self).remaining(),
            !(e is Eof) ==> final(self).remaining() < old(self).remaining(),
            ({
                let (ev, p2) = spec_scan(old(self).doc(), old(self).cursor());
                e@ == ev && final(self).cursor() == p2
            }),
    {
        let ghost doc = self.doc();
        let len = self.input.len();
        loop
            invariant
                self.wf(),
                len == self.input@.len(),
                self.input == old(self).input,
                self.pos >= old(self).pos,
                spec_scan(doc, old(self).cursor()) == spec_scan(doc, self.cursor()),
            decreases len - self.pos,
        {
            if self.pos >= len {
                return XmlEvent::Eof;
            }
            if self.input[self.pos] == '<' {
                return self.scan_markup();
            }
            // Character data up to the next markup.
            let ghost block_start = self.cursor();
            let start = self.pos;
            while self.pos < len
                invariant
                    start <= self.pos <= len,
                    len == self.input@.len(),
                    self.input == old(self).input,
                    spec_first_at(doc, start as int, |c: char| c == '<') == spec_first_at(
                        doc,
                        self.cursor(),
                        |c: char| c == '<',
                    ),
                decreases len - self.pos,
            {
                if self.input[self.pos] == '<' {
                    break ;
                }
                self.pos = self.pos + 1;
            }
            let mut a = start;
            let mut b = self.pos;
            while a < b && is_space(self.input[a])
                invariant
                    start <= a <= b <= self.pos <= len,
                    self.input == old(self).input,
                    spec_ltrim(doc, start as int, b as int) == spec_ltrim(doc, a as int, b as int),
                decreases b - a,
            {
                a = a + 1;
            }
            while b > a && is_space(self.input[b - 1])
                invariant
                    start <= a <= b <= self.pos <= len,
                    self.input == old(self).input,
                    spec_rtrim(doc, a as int, self.pos as int) == spec_rtrim(
                        doc,
                        a as int,
                        b as int,
                    ),
                decreases b,
            {
                b = b - 1;
            }
            if a < b {
                return XmlEvent::Text { raw: chars_to_string(&self.input, a, b) };
            }
            // Whitespace-only character data is not an event.
        }
    }
}

} // verus!
