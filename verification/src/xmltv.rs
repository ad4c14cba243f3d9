//! The feed parser: turns the broadcaster's XMLTV document into a sequence
//! of typed records, in document order.
//!
//! A depth-bounded state machine with three levels — top, inside a
//! `channel` element, inside a `programme` element — consumes the scanner's
//! events.  Nested tags map to named fields, text fills the field that is
//! current, and the matching end tag (or a self-closing tag) completes and
//! yields the record.  Unrecognised top-level tags are skipped; malformed
//! or unexpected markup ends the sequence with one error.

use vstd::prelude::*;

use crate::epg::{ChannelInfo, ChannelInfoModel, Program, ProgramModel};
use crate::text::{str_eq_str, spec_unescape, unescape};
use crate::timestamp::{spec_to_timestamp, to_timestamp};
use crate::xml::{
    spec_ends_name, spec_first_at, spec_is_space, spec_ltrim, spec_rtrim, spec_scan,
    spec_scan_attrs, spec_scan_markup, spec_skip_past, XmlAttrModel, XmlEvent, XmlEventModel,
    XmlScanner,
};

verus! {

broadcast use vstd::string::group_string_axioms;

/// Mathematical image of an [`XmltvItem`].
pub enum XmltvItemModel {
    Channel(ChannelInfoModel),
    Program(Seq<char>, ProgramModel),
}

/// One record of the feed, in document order: a channel description, or a
/// program together with the alias of the channel it belongs to.
pub enum XmltvItem {
    Channel(ChannelInfo),
    Program((String, Program)),
}

impl View for XmltvItem {
    type V = XmltvItemModel;

    open spec fn view(&self) -> XmltvItemModel {
        match self {
            XmltvItem::Channel(c) => XmltvItemModel::Channel(c@),
            XmltvItem::Program((alias, p)) => XmltvItemModel::Program(alias@, p@),
        }
    }
}

impl DeepView for XmltvItem {
    type V = XmltvItemModel;

    open spec fn deep_view(&self) -> XmltvItemModel {
        self.view()
    }
}

/// Why parsing stopped.
#[derive(Debug, PartialEq, Eq, Structural, Clone, Copy)]
pub enum ParseError {
    /// The markup itself is malformed.
    Markup,
    /// A `channel` or `programme` tag carries an attribute the format does
    /// not know.
    UnknownAttribute,
    /// Markup the guide cannot interpret stands inside a record.
    UnexpectedMarkup,
}

/// The field of a channel record that text is currently filling.
#[derive(PartialEq, Eq, Structural, Clone, Copy)]
pub enum ChannelField {
    Name,
    IconUrl,
}

/// The field of a program record that text is currently filling.
#[derive(PartialEq, Eq, Structural, Clone, Copy)]
pub enum ProgramField {
    Title,
    Category,
    Description,
}

/// Mathematical image of a [`ChannelParser`].
#[verifier::ext_equal]
pub struct ChannelParserModel {
    pub channel: ChannelInfoModel,
    pub field: Option<ChannelField>,
}

/// Accumulates one channel record.
pub struct ChannelParser {
    channel: ChannelInfo,
    field: Option<ChannelField>,
}

impl View for ChannelParser {
    type V = ChannelParserModel;

    closed spec fn view(&self) -> ChannelParserModel {
        ChannelParserModel { channel: self.channel@, field: self.field }
    }
}

/// Mathematical image of a [`ProgramParser`].
#[verifier::ext_equal]
pub struct ProgramParserModel {
    pub channel_alias: Seq<char>,
    pub program: ProgramModel,
    pub field: Option<ProgramField>,
}

/// Accumulates one program record.
pub struct ProgramParser {
    channel_alias: String,
    program: Program,
    field: Option<ProgramField>,
}

impl View for ProgramParser {
    type V = ProgramParserModel;

    closed spec fn view(&self) -> ProgramParserModel {
        ProgramParserModel {
            channel_alias: self.channel_alias@,
            program: self.program@,
            field: self.field,
        }
    }
}

/// The empty channel accumulator.
pub open spec fn spec_empty_channel() -> ChannelParserModel {
    ChannelParserModel {
        channel: ChannelInfoModel {
            alias: Seq::<char>::empty(),
            name: Seq::<char>::empty(),
            icon_url: Seq::<char>::empty(),
        },
        field: None,
    }
}

/// The empty program accumulator.
pub open spec fn spec_empty_program() -> ProgramParserModel {
    ProgramParserModel {
        channel_alias: Seq::<char>::empty(),
        program: ProgramModel {
            begin: 0,
            end: 0,
            title: Seq::<char>::empty(),
            description: Seq::<char>::empty(),
        },
        field: None,
    }
}

/// The value of the last attribute named `name`, as `icon`'s `src` is read.
pub open spec fn spec_last_attr(attrs: Seq<XmlAttrModel>, name: Seq<char>) -> Option<Seq<char>>
    decreases attrs.len(),
{
    if attrs.len() == 0 {
        None
    } else if attrs.last().name == name {
        Some(attrs.last().value)
    } else {
        spec_last_attr(attrs.drop_last(), name)
    }
}

/// A `channel` tag's attributes folded into the accumulator: `id` names the
/// alias; anything else is an offence.
pub open spec fn spec_channel_attrs(c: ChannelInfoModel, attrs: Seq<XmlAttrModel>) -> Option<
    ChannelInfoModel,
>
    decreases attrs.len(),
{
    if attrs.len() == 0 {
        Some(c)
    } else {
        match spec_channel_attrs(c, attrs.drop_last()) {
            None => None,
            Some(c2) => if attrs.last().name == "id"@ {
                Some(
                    ChannelInfoModel { alias: attrs.last().value, name: c2.name, icon_url: c2.icon_url },
                )
            } else {
                None
            },
        }
    }
}

/// A `programme` tag's attributes folded into the accumulator, in order:
/// `start` and `stop` are timestamps with the documented fallbacks, and
/// `channel` is the alias; anything else is an offence.
pub open spec fn spec_program_attrs(
    alias: Seq<char>,
    p: ProgramModel,
    attrs: Seq<XmlAttrModel>,
) -> Option<(Seq<char>, ProgramModel)>
    decreases attrs.len(),
{
    if attrs.len() == 0 {
        Some((alias, p))
    } else {
        match spec_program_attrs(alias, p, attrs.drop_last()) {
            None => None,
            Some((al2, p2)) => {
                let a = attrs.last();
                if a.name == "start"@ {
                    Some(
                        (
                            al2,
                            ProgramModel {
                                begin: match spec_to_timestamp(a.value) {
                                    Some(v) => v,
                                    None => 0,
                                },
                                end: p2.end,
                                title: p2.title,
                                description: p2.description,
                            },
                        ),
                    )
                } else if a.name == "stop"@ {
                    Some(
                        (
                            al2,
                            ProgramModel {
                                begin: p2.begin,
                                end: match spec_to_timestamp(a.value) {
                                    Some(v) => v,
                                    None => if p2.begin + 60 <= i64::MAX {
                                        p2.begin + 60
                                    } else {
                                        i64::MAX as int
                                    },
                                },
                                title: p2.title,
                                description: p2.description,
                            },
                        ),
                    )
                } else if a.name == "channel"@ {
                    Some((a.value, p2))
                } else {
                    None
                }
            },
        }
    }
}

/// How one event moves the channel accumulator: the new state, a completed
/// record if one was finished, and the offence if the event cannot stand
/// here.
pub open spec fn spec_channel_step(p: ChannelParserModel, ev: XmlEventModel) -> (
    ChannelParserModel,
    Option<ChannelInfoModel>,
    Option<ParseError>,
) {
    match ev {
        XmlEventModel::Open { name, attrs, self_closing } => {
            if name == "channel"@ {
                match spec_channel_attrs(p.channel, attrs) {
                    None => (p, None, Some(ParseError::UnknownAttribute)),
                    Some(c2) => if self_closing {
                        (spec_empty_channel(), Some(c2), None)
                    } else {
                        (ChannelParserModel { channel: c2, field: p.field }, None, None)
                    },
                }
            } else {
                let field = if name == "display-name"@ {
                    Some(ChannelField::Name)
                } else if name == "icon"@ {
                    Some(ChannelField::IconUrl)
                } else {
                    None
                };
                let c2 = if field == Some(ChannelField::IconUrl) {
                    match spec_last_attr(attrs, "src"@) {
                        Some(v) => ChannelInfoModel {
                            alias: p.channel.alias,
                            name: p.channel.name,
                            icon_url: v,
                        },
                        None => p.channel,
                    }
                } else {
                    p.channel
                };
                (ChannelParserModel { channel: c2, field }, None, None)
            }
        },
        XmlEventModel::Text { raw } => {
            if p.field == Some(ChannelField::Name) {
                let name = match spec_unescape(raw) {
                    Some(t) => t,
                    None => Seq::<char>::empty(),
                };
                (
                    ChannelParserModel {
                        channel: ChannelInfoModel {
                            alias: p.channel.alias,
                            name,
                            icon_url: p.channel.icon_url,
                        },
                        field: p.field,
                    },
                    None,
                    None,
                )
            } else {
                (p, None, None)
            }
        },
        XmlEventModel::Close { name } => {
            if name == "channel"@ {
                (spec_empty_channel(), Some(p.channel), None)
            } else {
                (p, None, None)
            }
        },
        _ => (p, None, Some(ParseError::UnexpectedMarkup)),
    }
}

/// How one event moves the program accumulator.
pub open spec fn spec_program_step(p: ProgramParserModel, ev: XmlEventModel) -> (
    ProgramParserModel,
    Option<(Seq<char>, ProgramModel)>,
    Option<ParseError>,
) {
    match ev {
        XmlEventModel::Open { name, attrs, self_closing } => {
            if name == "programme"@ {
                match spec_program_attrs(p.channel_alias, p.program, attrs) {
                    None => (p, None, Some(ParseError::UnknownAttribute)),
                    Some((al2, p2)) => if self_closing {
                        (spec_empty_program(), Some((al2, p2)), None)
                    } else {
                        (
                            ProgramParserModel {
                                channel_alias: al2,
                                program: p2,
                                field: p.field,
                            },
                            None,
                            None,
                        )
                    },
                }
            } else {
                let field = if name == "title"@ {
                    Some(ProgramField::Title)
                } else if name == "category"@ {
                    Some(ProgramField::Category)
                } else if name == "desc"@ {
                    Some(ProgramField::Description)
                } else {
                    None
                };
                (
                    ProgramParserModel {
                        channel_alias: p.channel_alias,
                        program: p.program,
                        field,
                    },
                    None,
                    None,
                )
            }
        },
        XmlEventModel::Text { raw } => {
            let p2 = if p.field == Some(ProgramField::Title) {
                match spec_unescape(raw) {
                    Some(t) => ProgramModel {
                        begin: p.program.begin,
                        end: p.program.end,
                        title: t,
                        description: p.program.description,
                    },
                    None => p.program,
                }
            } else if p.field == Some(ProgramField::Description) {
                match spec_unescape(raw) {
                    Some(t) => ProgramModel {
                        begin: p.program.begin,
                        end: p.program.end,
                        title: p.program.title,
                        description: t,
                    },
                    None => p.program,
                }
            } else {
                p.program
            };
            (
                ProgramParserModel {
                    channel_alias: p.channel_alias,
                    program: p2,
                    field: p.field,
                },
                None,
                None,
            )
        },
        XmlEventModel::Close { name } => {
            if name == "programme"@ {
                (spec_empty_program(), Some((p.channel_alias, p.program)), None)
            } else {
                (p, None, None)
            }
        },
        _ => (p, None, Some(ParseError::UnexpectedMarkup)),
    }
}

impl ChannelParser {
    /// A fresh accumulator.
    pub fn new() -> (r: Self)
        ensures
            r@ == spec_empty_channel(),
    {
        let r = ChannelParser { channel: ChannelInfo::new(), field: None };
        proof {
            assert(r@ =~= spec_empty_channel());
        }
        r
    }

    fn reset(&mut self)
        ensures
            final(self)@ == spec_empty_channel(),
    {
        self.channel = ChannelInfo::new();
        self.field = None;
        proof {
            assert(self@ =~= spec_empty_channel());
        }
    }

    /// Feeds one event, yielding a completed channel record or the offence,
    /// exactly as [`spec_channel_step`] describes.
    #[verifier::loop_isolation(false)]
    pub fn handle_event(&mut self, ev: &XmlEvent) -> (r: (Option<ChannelInfo>, Option<ParseError>))
        ensures
            final(self)@ == spec_channel_step(old(self)@, ev@).0,
            match r.0 {
                Some(c) => spec_channel_step(old(self)@, ev@).1 == Some(c@),
                None => spec_channel_step(old(self)@, ev@).1 is None,
            },
            r.1 == spec_channel_step(old(self)@, ev@).2,
    {
        match ev {
            XmlEvent::Open { name, attrs, self_closing } => {
                if str_eq_str(name.as_str(), "channel") {
                    let mut alias_val: Option<&String> = None;
                    let mut i: usize = 0;
                    while i < attrs.len()
                        invariant
                            i <= attrs@.len(),
                            match alias_val {
                                None => spec_channel_attrs(
                                    old(self)@.channel,
                                    attrs.deep_view().take(i as int),
                                ) == Some(old(self)@.channel),
                                Some(v) => spec_channel_attrs(
                                    old(self)@.channel,
                                    attrs.deep_view().take(i as int),
                                ) == Some(
                                    ChannelInfoModel {
                                        alias: v@,
                                        name: old(self)@.channel.name,
                                        icon_url: old(self)@.channel.icon_url,
                                    },
                                ),
                            },
                            self@ == old(self)@,
                        decreases attrs@.len() - i,
                    {
                        let a = &attrs[i];
                        proof {
                            assert(attrs.deep_view()[i as int] == attrs@[i as int]@);
                            assert(attrs.deep_view().take(i as int + 1).drop_last()
                                =~= attrs.deep_view().take(i as int));
                        }
                        if str_eq_str(a.name.as_str(), "id") {
                            alias_val = Some(&a.value);
                        } else {
                            proof {
                                assert(spec_channel_attrs(
                                    old(self)@.channel,
                                    attrs.deep_view().take(i as int + 1),
                                ) is None);
                                lemma_channel_attrs_none(
                                    old(self)@.channel,
                                    attrs.deep_view(),
                                    i as int + 1,
                                );
                            }
                            return (None, Some(ParseError::UnknownAttribute));
                        }
                        i += 1;
                    }
                    proof {
                        assert(attrs.deep_view().take(attrs@.len() as int) =~= attrs.deep_view());
                    }
                    match alias_val {
                        Some(v) => {
                            self.channel.alias = v.clone();
                        },
                        None => {},
                    }
                    if *self_closing {
                        let out = self.channel.clone();
                        self.reset();
                        return (Some(out), None);
                    }
                    (None, None)
                } else {
                    let field: Option<ChannelField> = if str_eq_str(
                        name.as_str(),
                        "display-name",
                    ) {
                        Some(ChannelField::Name)
                    } else if str_eq_str(name.as_str(), "icon") {
                        Some(ChannelField::IconUrl)
                    } else {
                        None
                    };
                    let is_icon = matches!(field, Some(ChannelField::IconUrl));
                    if is_icon {
                        let mut src: Option<&String> = None;
                        let mut i: usize = 0;
                        while i < attrs.len()
                            invariant
                                i <= attrs@.len(),
                                match src {
                                    None => spec_last_attr(
                                        attrs.deep_view().take(i as int),
                                        "src"@,
                                    ) is None,
                                    Some(v) => spec_last_attr(
                                        attrs.deep_view().take(i as int),
                                        "src"@,
                                    ) == Some(v@),
                                },
                                self@ == old(self)@,
                            decreases attrs@.len() - i,
                        {
                            let a = &attrs[i];
                            proof {
                                assert(attrs.deep_view()[i as int] == attrs@[i as int]@);
                                assert(attrs.deep_view().take(i as int + 1).drop_last()
                                    =~= attrs.deep_view().take(i as int));
                            }
                            if str_eq_str(a.name.as_str(), "src") {
                                src = Some(&a.value);
                            }
                            i += 1;
                        }
                        proof {
                            assert(attrs.deep_view().take(attrs@.len() as int)
                                =~= attrs.deep_view());
                        }
                        match src {
                            Some(v) => {
                                self.channel.icon_url = v.clone();
                            },
                            None => {},
                        }
                    }
                    self.field = field;
                    (None, None)
                }
            },
            XmlEvent::Text { raw } => {
                let fill = matches!(self.field, Some(ChannelField::Name));
                if fill {
                    self.channel.name = match unescape(raw.as_str()) {
                        Some(t) => t,
                        None => String::new(),
                    };
                }
                (None, None)
            },
            XmlEvent::Close { name } => {
                if str_eq_str(name.as_str(), "channel") {
                    let out = self.channel.clone();
                    self.reset();
                    (Some(out), None)
                } else {
                    (None, None)
                }
            },
            _ => (None, Some(ParseError::UnexpectedMarkup)),
        }
    }
}

/// Once the attribute fold fails, it stays failed.
proof fn lemma_channel_attrs_none(c: ChannelInfoModel, attrs: Seq<XmlAttrModel>, i: int)
    requires
        0 <= i <= attrs.len(),
        spec_channel_attrs(c, attrs.take(i)) is None,
    ensures
        spec_channel_attrs(c, attrs) is None,
    decreases attrs.len() - i,
{
    if i < attrs.len() {
        assert(attrs.take(i + 1).drop_last() =~= attrs.take(i));
        lemma_channel_attrs_none(c, attrs, i + 1);
    } else {
        assert(attrs.take(i) =~= attrs);
    }
}

/// Once the attribute fold fails, it stays failed.
proof fn lemma_program_attrs_none(
    alias: Seq<char>,
    p: ProgramModel,
    attrs: Seq<XmlAttrModel>,
    i: int,
)
    requires
        0 <= i <= attrs.len(),
        spec_program_attrs(alias, p, attrs.take(i)) is None,
    ensures
        spec_program_attrs(alias, p, attrs) is None,
    decreases attrs.len() - i,
{
    if i < attrs.len() {
        assert(attrs.take(i + 1).drop_last() =~= attrs.take(i));
        lemma_program_attrs_none(alias, p, attrs, i + 1);
    } else {
        assert(attrs.take(i) =~= attrs);
    }
}

impl ProgramParser {
    /// A fresh accumulator.
    pub fn new() -> (r: Self)
        ensures
            r@ == spec_empty_program(),
    {
        let r = ProgramParser {
            channel_alias: String::new(),
            program: Program::new(),
            field: None,
        };
        proof {
            assert(r@ =~= spec_empty_program());
        }
        r
    }

    fn reset(&mut self)
        ensures
            final(self)@ == spec_empty_program(),
    {
        self.channel_alias = String::new();
        self.program = Program::new();
        self.field = None;
        proof {
            assert(self@ =~= spec_empty_program());
        }
    }

    /// Feeds one event, yielding a completed program record (with its
    /// channel alias) or the offence, exactly as [`spec_program_step`]
    /// describes.
    #[verifier::loop_isolation(false)]
    pub fn handle_event(&mut self, ev: &XmlEvent) -> (r: (
        Option<(String, Program)>,
        Option<ParseError>,
    ))
        ensures
            final(self)@ == spec_program_step(old(self)@, ev@).0,
            match r.0 {
                Some(pair) => spec_program_step(old(self)@, ev@).1 == Some(
                    (pair.0@, pair.1@),
                ),
                None => spec_program_step(old(self)@, ev@).1 is None,
            },
            r.1 == spec_program_step(old(self)@, ev@).2,
    {
        match ev {
            XmlEvent::Open { name, attrs, self_closing } => {
                if str_eq_str(name.as_str(), "programme") {
                    let mut al = self.channel_alias.clone();
                    let mut prog = self.program.clone();
                    let mut i: usize = 0;
                    while i < attrs.len()
                        invariant
                            i <= attrs@.len(),
                            spec_program_attrs(
                                old(self)@.channel_alias,
                                old(self)@.program,
                                attrs.deep_view().take(i as int),
                            ) == Some((al@, prog@)),
                            self@ == old(self)@,
                        decreases attrs@.len() - i,
                    {
                        let a = &attrs[i];
                        proof {
                            assert(attrs.deep_view()[i as int] == attrs@[i as int]@);
                            assert(attrs.deep_view().take(i as int + 1).drop_last()
                                =~= attrs.deep_view().take(i as int));
                        }
                        if str_eq_str(a.name.as_str(), "start") {
                            prog.begin = match to_timestamp(a.value.as_str()) {
                                Some(v) => v,
                                None => 0,
                            };
                        } else if str_eq_str(a.name.as_str(), "stop") {
                            prog.end = match to_timestamp(a.value.as_str()) {
                                Some(v) => v,
                                None => if prog.begin <= i64::MAX - 60 {
                                    prog.begin + 60
                                } else {
                                    i64::MAX
                                },
                            };
                        } else if str_eq_str(a.name.as_str(), "channel") {
                            al = a.value.clone();
                        } else {
                            proof {
                                lemma_program_attrs_none(
                                    old(self)@.channel_alias,
                                    old(self)@.program,
                                    attrs.deep_view(),
                                    i as int + 1,
                                );
                            }
                            return (None, Some(ParseError::UnknownAttribute));
                        }
                        i += 1;
                    }
                    proof {
                        assert(attrs.deep_view().take(attrs@.len() as int) =~= attrs.deep_view());
                    }
                    self.channel_alias = al;
                    self.program = prog;
                    if *self_closing {
                        let out_alias = self.channel_alias.clone();
                        let out_prog = self.program.clone();
                        self.reset();
                        return (Some((out_alias, out_prog)), None);
                    }
                    (None, None)
                } else {
                    self.field = if str_eq_str(name.as_str(), "title") {
                        Some(ProgramField::Title)
                    } else if str_eq_str(name.as_str(), "category") {
                        Some(ProgramField::Category)
                    } else if str_eq_str(name.as_str(), "desc") {
                        Some(ProgramField::Description)
                    } else {
                        None
                    };
                    (None, None)
                }
            },
            XmlEvent::Text { raw } => {
                let fill_title = matches!(self.field, Some(ProgramField::Title));
                let fill_desc = matches!(self.field, Some(ProgramField::Description));
                if fill_title {
                    match unescape(raw.as_str()) {
                        Some(t) => {
                            self.program.title = t;
                        },
                        None => {},
                    }
                } else if fill_desc {
                    match unescape(raw.as_str()) {
                        Some(t) => {
                            self.program.description = t;
                        },
                        None => {},
                    }
                }
                (None, None)
            },
            XmlEvent::Close { name } => {
                if str_eq_str(name.as_str(), "programme") {
                    let out_alias = self.channel_alias.clone();
                    let out_prog = self.program.clone();
                    self.reset();
                    (Some((out_alias, out_prog)), None)
                } else {
                    (None, None)
                }
            },
            _ => (None, Some(ParseError::UnexpectedMarkup)),
        }
    }
}

/// The depth level of the reader's state machine.
#[derive(PartialEq, Eq, Structural, Clone, Copy)]
pub enum Level {
    Top,
    Channel,
    Program,
}

/// Mathematical image of the reader's state machine.
#[verifier::ext_equal]
pub struct ReaderMachine {
    pub level: Level,
    pub cp: ChannelParserModel,
    pub pp: ProgramParserModel,
}

/// What one event makes the reader do next.
pub enum ReaderFlow {
    /// Keep reading.
    Proceed,
    /// Yield one record.
    Item(XmltvItemModel),
    /// Stop with this offence.
    Broken(ParseError),
    /// The document ended.
    Finished,
}

/// The reader's fresh state.
pub open spec fn spec_reader_init() -> ReaderMachine {
    ReaderMachine { level: Level::Top, cp: spec_empty_channel(), pp: spec_empty_program() }
}

/// How one event moves the reader: at top level a `channel` or `programme`
/// start tag enters the matching accumulator — and a self-closing one is an
/// immediate start-and-end pair, so its completed record is yielded at once
/// and the level stays at the top — while any other top-level markup is
/// skipped; inside a record the accumulator decides.
pub open spec fn spec_reader_step(m: ReaderMachine, ev: XmlEventModel) -> (ReaderMachine, ReaderFlow) {
    match ev {
        XmlEventModel::Eof => (m, ReaderFlow::Finished),
        XmlEventModel::Bad => (m, ReaderFlow::Broken(ParseError::Markup)),
        _ => match m.level {
            Level::Top => match ev {
                XmlEventModel::Open { name, attrs, self_closing } => {
                    if name == "programme"@ {
                        let (pp2, emit, err) = spec_program_step(m.pp, ev);
                        match err {
                            Some(e) => (
                                ReaderMachine { level: Level::Program, cp: m.cp, pp: pp2 },
                                ReaderFlow::Broken(e),
                            ),
                            None => match emit {
                                Some(pair) => (
                                    ReaderMachine { level: Level::Top, cp: m.cp, pp: pp2 },
                                    ReaderFlow::Item(XmltvItemModel::Program(pair.0, pair.1)),
                                ),
                                None => (
                                    ReaderMachine { level: Level::Program, cp: m.cp, pp: pp2 },
                                    ReaderFlow::Proceed,
                                ),
                            },
                        }
                    } else if name == "channel"@ {
                        let (cp2, emit, err) = spec_channel_step(m.cp, ev);
                        match err {
                            Some(e) => (
                                ReaderMachine { level: Level::Channel, cp: cp2, pp: m.pp },
                                ReaderFlow::Broken(e),
                            ),
                            None => match emit {
                                Some(c) => (
                                    ReaderMachine { level: Level::Top, cp: cp2, pp: m.pp },
                                    ReaderFlow::Item(XmltvItemModel::Channel(c)),
                                ),
                                None => (
                                    ReaderMachine { level: Level::Channel, cp: cp2, pp: m.pp },
                                    ReaderFlow::Proceed,
                                ),
                            },
                        }
                    } else {
                        (m, ReaderFlow::Proceed)
                    }
                },
                _ => (m, ReaderFlow::Proceed),
            },
            Level::Channel => {
                let (cp2, emit, err) = spec_channel_step(m.cp, ev);
                match err {
                    Some(e) => (
                        ReaderMachine { level: m.level, cp: cp2, pp: m.pp },
                        ReaderFlow::Broken(e),
                    ),
                    None => match emit {
                        Some(c) => (
                            ReaderMachine { level: Level::Top, cp: cp2, pp: m.pp },
                            ReaderFlow::Item(XmltvItemModel::Channel(c)),
                        ),
                        None => (
                            ReaderMachine { level: m.level, cp: cp2, pp: m.pp },
                            ReaderFlow::Proceed,
                        ),
                    },
                }
            },
            Level::Program => {
                let (pp2, emit, err) = spec_program_step(m.pp, ev);
                match err {
                    Some(e) => (
                        ReaderMachine { level: m.level, cp: m.cp, pp: pp2 },
                        ReaderFlow::Broken(e),
                    ),
                    None => match emit {
                        Some(pair) => (
                            ReaderMachine { level: Level::Top, cp: m.cp, pp: pp2 },
                            ReaderFlow::Item(XmltvItemModel::Program(pair.0, pair.1)),
                        ),
                        None => (
                            ReaderMachine { level: m.level, cp: m.cp, pp: pp2 },
                            ReaderFlow::Proceed,
                        ),
                    },
                }
            },
        },
    }
}

/// One pull on the reader: events are read off the document by
/// [`spec_scan`] and fed to [`spec_reader_step`] until one of them decides
/// — a record, an offence, or the end of the document.
pub open spec fn spec_reader_pull(doc: Seq<char>, p: int, m: ReaderMachine) -> (
    ReaderMachine,
    int,
    ReaderFlow,
)
    decreases doc.len() - p,
{
    let (ev, p2) = spec_scan(doc, p);
    let (m2, flow) = spec_reader_step(m, ev);
    if flow is Proceed {
        if p < p2 <= doc.len() {
            spec_reader_pull(doc, p2, m2)
        } else {
            (m2, p2, ReaderFlow::Broken(ParseError::Markup))
        }
    } else {
        (m2, p2, flow)
    }
}

/// The whole document read from position `p`: every record the reader
/// yields, in document order, and the offence that ended reading early, if
/// one did.
pub open spec fn spec_reader_drain(doc: Seq<char>, p: int, m: ReaderMachine) -> (
    Seq<XmltvItemModel>,
    Option<ParseError>,
)
    decreases doc.len() - p,
{
    let (m2, p2, flow) = spec_reader_pull(doc, p, m);
    match flow {
        ReaderFlow::Finished => (Seq::<XmltvItemModel>::empty(), None),
        ReaderFlow::Broken(e) => (Seq::<XmltvItemModel>::empty(), Some(e)),
        ReaderFlow::Item(item) => if p < p2 <= doc.len() {
            let (rest, fail) = spec_reader_drain(doc, p2, m2);
            (seq![item] + rest, fail)
        } else {
            (Seq::<XmltvItemModel>::empty(), None)
        },
        ReaderFlow::Proceed => (Seq::<XmltvItemModel>::empty(), None),
    }
}

/// One scan moves the cursor forward, and strictly so unless the document
/// ended.
proof fn lemma_scan_progress(doc: Seq<char>, p: int)
    requires
        0 <= p <= doc.len(),
    ensures
        ({
            let (ev, p2) = spec_scan(doc, p);
            &&& p <= p2 <= doc.len()
            &&& !(ev is Eof) ==> p2 > p
            &&& ev is Eof ==> p2 >= doc.len()
        }),
    decreases doc.len() - p,
{
    if p < doc.len() {
        if doc[p] == '<' {
            lemma_scan_markup_progress(doc, p);
        } else {
            let end = spec_first_at(doc, p, |c: char| c == '<');
            lemma_first_at_bounds(doc, p + 1, |c: char| c == '<');
            assert(end == spec_first_at(doc, p + 1, |c: char| c == '<'));
            assert(end > p);
            let a = spec_ltrim(doc, p, end);
            lemma_ltrim_bounds(doc, p, end);
            lemma_rtrim_bounds(doc, a, end);
            if !(a < spec_rtrim(doc, a, end)) {
                lemma_scan_progress(doc, end);
            }
        }
    }
}

/// Markup scanning always moves the cursor strictly forward and never
/// yields the end of the document.
proof fn lemma_scan_markup_progress(doc: Seq<char>, pos: int)
    requires
        0 <= pos < doc.len(),
        doc[pos] == '<',
    ensures
        ({
            let (ev, p2) = spec_scan_markup(doc, pos);
            &&& pos < p2 <= doc.len()
            &&& !(ev is Eof)
        }),
{
    let len = doc.len() as int;
    if pos + 1 < len && (doc[pos + 1] == '!' || doc[pos + 1] == '?') {
        let comment = doc[pos + 1] == '!' && len - pos > 3 && doc[pos + 2] == '-' && doc[pos + 3]
            == '-';
        if comment {
            lemma_skip_past_bounds(doc, pos + 2, '-', true);
        } else if doc[pos + 1] == '?' {
            lemma_skip_past_bounds(doc, pos + 2, '?', true);
        } else {
            lemma_skip_past_bounds(doc, pos + 2, '>', false);
        }
    } else if pos + 1 < len && doc[pos + 1] == '/' {
        lemma_first_at_bounds(doc, pos + 2, |c: char| c == '>');
    } else {
        lemma_first_at_bounds(doc, pos + 1, |c: char| spec_ends_name(c));
        let nend = spec_first_at(doc, pos + 1, |c: char| spec_ends_name(c));
        if nend != pos + 1 {
            lemma_scan_attrs_progress(doc, nend, doc.subrange(pos + 1, nend), Seq::<
                crate::xml::XmlAttrModel,
            >::empty());
        }
    }
}

/// The attribute run ends at or before the end of the document, past where
/// it began, and never at an end-of-document event.
proof fn lemma_scan_attrs_progress(
    doc: Seq<char>,
    p: int,
    name: Seq<char>,
    attrs: Seq<crate::xml::XmlAttrModel>,
)
    requires
        0 <= p <= doc.len(),
    ensures
        ({
            let (ev, p2) = spec_scan_attrs(doc, p, name, attrs);
            &&& p < p2 <= doc.len() || p2 == doc.len()
            &&& !(ev is Eof)
        }),
    decreases doc.len() - p,
{
    let len = doc.len() as int;
    let p2 = spec_ltrim(doc, p, len);
    lemma_ltrim_bounds(doc, p, len);
    if p2 < len && doc[p2] != '>' && !(doc[p2] == '/') {
        let ae = spec_first_at(doc, p2, |c: char| spec_ends_name(c) || c == '=');
        lemma_first_at_bounds(doc, p2, |c: char| spec_ends_name(c) || c == '=');
        if ae != p2 {
            let p3 = spec_ltrim(doc, ae, len);
            lemma_ltrim_bounds(doc, ae, len);
            if !(p3 >= len || doc[p3] != '=') {
                let p4 = spec_ltrim(doc, p3 + 1, len);
                lemma_ltrim_bounds(doc, p3 + 1, len);
                if p4 < len {
                    let q = doc[p4];
                    if q == '"' || q == '\'' {
                        let vend = spec_first_at(doc, p4 + 1, |c: char| c == q);
                        lemma_first_at_bounds(doc, p4 + 1, |c: char| c == q);
                        if vend < len && vend + 1 > p {
                            lemma_scan_attrs_progress(
                                doc,
                                vend + 1,
                                name,
                                attrs.push(
                                    crate::xml::XmlAttrModel {
                                        name: doc.subrange(p2, ae),
                                        value: doc.subrange(p4 + 1, vend),
                                    },
                                ),
                            );
                        }
                    }
                }
            }
        }
    }
}

/// [`spec_first_at`] stays within `[p, doc.len()]`.
proof fn lemma_first_at_bounds(doc: Seq<char>, p: int, pred: spec_fn(char) -> bool)
    requires
        0 <= p <= doc.len(),
    ensures
        p <= spec_first_at(doc, p, pred) <= doc.len(),
    decreases doc.len() - p,
{
    if p < doc.len() && !pred(doc[p]) {
        lemma_first_at_bounds(doc, p + 1, pred);
    }
}

/// [`spec_ltrim`] stays within `[a, b]`.
proof fn lemma_ltrim_bounds(doc: Seq<char>, a: int, b: int)
    requires
        0 <= a <= b,
    ensures
        a <= spec_ltrim(doc, a, b) <= b,
    decreases b - a,
{
    if a < b && a < doc.len() && spec_is_space(doc[a]) {
        lemma_ltrim_bounds(doc, a + 1, b);
    }
}

/// [`spec_rtrim`] stays within `[a, b]`.
proof fn lemma_rtrim_bounds(doc: Seq<char>, a: int, b: int)
    requires
        0 <= a <= b,
    ensures
        a <= spec_rtrim(doc, a, b) <= b,
    decreases b - a,
{
    if b > a && 0 < b <= doc.len() && spec_is_space(doc[b - 1]) {
        lemma_rtrim_bounds(doc, a, b - 1);
    }
}

/// A found closing mark lies strictly past where the search began, within
/// the document.
proof fn lemma_skip_past_bounds(doc: Seq<char>, p: int, pat: char, then_gt: bool)
    requires
        0 <= p <= doc.len(),
    ensures
        match spec_skip_past(doc, p, pat, then_gt) {
            Some(p2) => p < p2 <= doc.len(),
            None => true,
        },
    decreases doc.len() - p,
{
    if p < doc.len() {
        lemma_skip_past_bounds(doc, p + 1, pat, then_gt);
    }
}

/// One pull moves the cursor forward, strictly so when it yields a record
/// or an offence, and not at all at the end of the document.
pub proof fn lemma_pull_progress(doc: Seq<char>, p: int, m: ReaderMachine)
    requires
        0 <= p <= doc.len(),
    ensures
        ({
            let (m2, p2, flow) = spec_reader_pull(doc, p, m);
            &&& p <= p2 <= doc.len()
            &&& !(flow is Proceed)
            &&& flow is Item ==> p2 > p
            &&& flow is Finished ==> p2 >= doc.len()
        }),
    decreases doc.len() - p,
{
    let (ev, pe) = spec_scan(doc, p);
    lemma_scan_progress(doc, p);
    let (ms, flow) = spec_reader_step(m, ev);
    if flow is Proceed {
        lemma_pull_progress(doc, pe, ms);
    }
}

/// Reads the feed record by record, driving the scanner through the state
/// machine.
pub struct XmltvReader {
    scanner: XmlScanner,
    level: Level,
    channel_parser: ChannelParser,
    program_parser: ProgramParser,
}

impl XmltvReader {
    /// A reader that can keep reading.
    pub closed spec fn wf(&self) -> bool {
        &&& self.scanner.wf()
        &&& self.scanner.remaining() == self.scanner.doc().len() - self.scanner.cursor()
        &&& 0 <= self.scanner.cursor() <= self.scanner.doc().len()
    }

    /// The document being read.
    pub closed spec fn doc(&self) -> Seq<char> {
        self.scanner.doc()
    }

    /// Where the next event will be read.
    pub closed spec fn cursor(&self) -> int {
        self.scanner.cursor()
    }

    /// The state machine's current state.
    pub closed spec fn machine(&self) -> ReaderMachine {
        ReaderMachine { level: self.level, cp: self.channel_parser@, pp: self.program_parser@ }
    }

    /// How much of the document is left.
    pub closed spec fn remaining(&self) -> int {
        self.scanner.remaining()
    }

    /// A reader that can keep reading has document left to read, or none.
    pub proof fn lemma_wf_remaining(&self)
        requires
            self.wf(),
        ensures
            self.remaining() >= 0,
            0 <= self.cursor() <= self.doc().len(),
    {
    }

    /// Opens a reader over a whole feed document.
    pub fn new(source: &str) -> (r: Self)
        ensures
            r.wf(),
            r.doc() == source@,
            r.cursor() == 0,
            r.machine() == spec_reader_init(),
    {
        let r = XmltvReader {
            scanner: XmlScanner::new(source),
            level: Level::Top,
            channel_parser: ChannelParser::new(),
            program_parser: ProgramParser::new(),
        };
        proof {
            assert(r.machine() =~= spec_reader_init());
        }
        r
    }

    /// Pulls the next record: `None` at the end of the document, the record
    /// or the offence otherwise — exactly as [`spec_reader_pull`] reads it
    /// off the document from the cursor.  At the end of the document the
    /// cursor no longer moves, so every further pull yields `None` again.
    #[verifier::loop_isolation(false)]
    pub fn next(&mut self) -> (r: Option<Result<XmltvItem, ParseError>>)
        requires
            old(self).wf(),
        ensures
            final(self).wf(),
            final(self).doc() == old(self).doc(),
            ({
                let (m2, p2, flow) = spec_reader_pull(
                    old(self).doc(),
                    old(self).cursor(),
                    old(self).machine(),
                );
                &&& final(self).machine() == m2
                &&& final(self).cursor() == p2
                &&& match r {
                    None => flow is Finished,
                    Some(Ok(item)) => flow == ReaderFlow::Item(item@),
                    Some(Err(e)) => flow == ReaderFlow::Broken(e),
                }
            }),
            final(self).remaining() <= old(self).remaining(),
            final(self).remaining() >= 0,
            r is Some ==> final(self).remaining() < old(self).remaining(),
    {
        let ghost doc = self.doc();
        let ghost p0 = self.cursor();
        let ghost m0 = self.machine();
        loop
            invariant
                self.wf(),
                self.doc() == doc,
                self.cursor() >= p0,
                self.remaining() >= 0,
                self.remaining() <= old(self).remaining(),
                spec_reader_pull(doc, p0, m0) == spec_reader_pull(
                    doc,
                    self.cursor(),
                    self.machine(),
                ),
            decreases self.remaining(),
        {
            let ghost pre_p = self.cursor();
            let ghost pre_m = self.machine();
            let ev = self.scanner.next_event();
            proof {
                lemma_scan_progress(doc, pre_p);
            }
            let is_eof = match &ev {
                XmlEvent::Eof => true,
                _ => false,
            };
            let is_bad = match &ev {
                XmlEvent::Bad => true,
                _ => false,
            };
            if is_eof {
                return None;
            }
            if is_bad {
                return Some(Err(ParseError::Markup));
            }
            match self.level {
                Level::Top => {
                    match &ev {
                        XmlEvent::Open { name, attrs, self_closing } => {
                            if str_eq_str(name.as_str(), "programme") {
                                let (emit, err) = self.program_parser.handle_event(&ev);
                                match err {
                                    Some(e) => {
                                        self.level = Level::Program;
                                        return Some(Err(e));
                                    },
                                    None => {},
                                }
                                match emit {
                                    Some(pair) => {
                                        return Some(Ok(XmltvItem::Program(pair)));
                                    },
                                    None => {
                                        self.level = Level::Program;
                                    },
                                }
                            } else if str_eq_str(name.as_str(), "channel") {
                                let (emit, err) = self.channel_parser.handle_event(&ev);
                                match err {
                                    Some(e) => {
                                        self.level = Level::Channel;
                                        return Some(Err(e));
                                    },
                                    None => {},
                                }
                                match emit {
                                    Some(c) => {
                                        return Some(Ok(XmltvItem::Channel(c)));
                                    },
                                    None => {
                                        self.level = Level::Channel;
                                    },
                                }
                            }
                        },
                        _ => {},
                    }
                },
                Level::Channel => {
                    let (emit, err) = self.channel_parser.handle_event(&ev);
                    match err {
                        Some(e) => {
                            return Some(Err(e));
                        },
                        None => {},
                    }
                    match emit {
                        Some(c) => {
                            self.level = Level::Top;
                            return Some(Ok(XmltvItem::Channel(c)));
                        },
                        None => {},
                    }
                },
                Level::Program => {
                    let (emit, err) = self.program_parser.handle_event(&ev);
                    match err {
                        Some(e) => {
                            return Some(Err(e));
                        },
                        None => {},
                    }
                    match emit {
                        Some(pair) => {
                            self.level = Level::Top;
                            return Some(Ok(XmltvItem::Program(pair)));
                        },
                        None => {},
                    }
                },
            }
        }
    }
}

} // verus!
