//! The identity resolver and the staged ingest of one feed.
//!
//! One ingest run drains the parsed feed through the alias-to-id resolver
//! into the staging table, then merges staging into the live table, prunes
//! programs past the retention horizon, and garbage-collects channels left
//! without programs.  The whole run is described by [`spec_ingest`].

use vstd::prelude::*;

use crate::db::{
    aliases_unique, channels_sorted, lemma_insert_sorted_members, lemma_upsert_channel_wf,
    spec_gc, spec_merge, spec_next_id, spec_prune, spec_upsert_channel,
    ChannelRowModel, DatabaseModel, ProgramRowModel, ProgramsDatabase,
};
use crate::text::{all_digits, spec_digits_val, str_eq};
use crate::xmltv::{
    lemma_pull_progress, spec_reader_drain, spec_reader_pull, ParseError, XmltvItem,
    XmltvItemModel, XmltvReader,
};

verus! {

/// Mathematical image of an [`AliasEntry`].
pub struct AliasEntryModel {
    pub alias: Seq<char>,
    pub id: int,
}

/// One binding of the resolver's alias-to-id table.
pub struct AliasEntry {
    pub alias: String,
    pub id: i64,
}

impl View for AliasEntry {
    type V = AliasEntryModel;

    open spec fn view(&self) -> AliasEntryModel {
        AliasEntryModel { alias: self.alias@, id: self.id as int }
    }
}

impl DeepView for AliasEntry {
    type V = AliasEntryModel;

    open spec fn deep_view(&self) -> AliasEntryModel {
        self.view()
    }
}

/// The id bound to `alias`, taking the first binding when several exist.
pub open spec fn spec_lookup(s: Seq<AliasEntryModel>, alias: Seq<char>) -> Option<int>
    decreases s.len(),
{
    if s.len() == 0 {
        None
    } else if s[0].alias == alias {
        Some(s[0].id)
    } else {
        spec_lookup(s.drop_first(), alias)
    }
}

/// A scan that stops at the first binding computes [`spec_lookup`].
pub proof fn lemma_lookup_at(s: Seq<AliasEntryModel>, alias: Seq<char>, i: int)
    requires
        0 <= i < s.len(),
        s[i].alias == alias,
        forall|j: int| 0 <= j < i ==> s[j].alias != alias,
    ensures
        spec_lookup(s, alias) == Some(s[i].id),
    decreases s.len(),
{
    if i > 0 {
        let t = s.drop_first();
        assert(forall|j: int| 0 <= j < t.len() ==> t[j] == s[j + 1]);
        lemma_lookup_at(t, alias, i - 1);
    }
}

/// A scan that finds no binding leaves [`spec_lookup`] empty.
pub proof fn lemma_lookup_none(s: Seq<AliasEntryModel>, alias: Seq<char>)
    requires
        forall|j: int| 0 <= j < s.len() ==> s[j].alias != alias,
    ensures
        spec_lookup(s, alias) is None,
    decreases s.len(),
{
    if s.len() > 0 {
        let t = s.drop_first();
        assert(forall|j: int| 0 <= j < t.len() ==> t[j] == s[j + 1]);
        lemma_lookup_none(t, alias);
    }
}

/// Any binding of `alias` makes the lookup succeed.
pub proof fn lemma_lookup_some(s: Seq<AliasEntryModel>, alias: Seq<char>, i: int)
    requires
        0 <= i < s.len(),
        s[i].alias == alias,
    ensures
        spec_lookup(s, alias) is Some,
    decreases s.len(),
{
    if s[0].alias != alias {
        let t = s.drop_first();
        assert(forall|j: int| 0 <= j < t.len() ==> t[j] == s[j + 1]);
        lemma_lookup_some(t, alias, i - 1);
    }
}

/// Appending a binding changes no lookup that already succeeded, and serves
/// exactly the new alias among those that failed.
pub proof fn lemma_lookup_push(s: Seq<AliasEntryModel>, x: AliasEntryModel, alias: Seq<char>)
    ensures
        spec_lookup(s.push(x), alias) == match spec_lookup(s, alias) {
            Some(v) => Some(v),
            None => if x.alias == alias {
                Some(x.id)
            } else {
                None
            },
        },
    decreases s.len(),
{
    if s.len() == 0 {
        assert(s.push(x).drop_first() =~= Seq::<AliasEntryModel>::empty());
    } else {
        assert(s.push(x).drop_first() =~= s.drop_first().push(x));
        lemma_lookup_push(s.drop_first(), x, alias);
    }
}

/// The resolver's exec lookup over its binding table.
#[verifier::loop_isolation(false)]
fn lookup_alias(table: &Vec<AliasEntry>, alias: &String) -> (r: Option<i64>)
    ensures
        match r {
            Some(id) => spec_lookup(table.deep_view(), alias@) == Some(id as int),
            None => spec_lookup(table.deep_view(), alias@) is None,
        },
{
    let mut i: usize = 0;
    while i < table.len()
        invariant
            i <= table.len(),
            forall|j: int| 0 <= j < i ==> (#[trigger] table.deep_view()[j]).alias != alias@,
        decreases table.len() - i,
    {
        let entry = &table[i];
        if str_eq(&entry.alias, alias) {
            proof {
                assert(table.deep_view()[i as int] == table@[i as int]@);
                lemma_lookup_at(table.deep_view(), alias@, i as int);
            }
            return Some(entry.id);
        }
        proof {
            assert(table.deep_view()[i as int] == table@[i as int]@);
        }
        i += 1;
    }
    proof {
        lemma_lookup_none(table.deep_view(), alias@);
    }
    None
}

/// What `str::parse::<i64>` accepts: an optional sign followed by one or
/// more decimal digits, with the value in the range of the type.
pub open spec fn spec_parse_i64(s: Seq<char>) -> Option<int> {
    if s.len() > 0 && (s[0] == '+' || s[0] == '-') {
        let mag = s.drop_first();
        if mag.len() > 0 && all_digits(mag) {
            let v = if s[0] == '-' {
                -spec_digits_val(mag)
            } else {
                spec_digits_val(mag)
            };
            if i64::MIN <= v <= i64::MAX {
                Some(v)
            } else {
                None
            }
        } else {
            None
        }
    } else if s.len() > 0 && all_digits(s) {
        if spec_digits_val(s) <= i64::MAX {
            Some(spec_digits_val(s))
        } else {
            None
        }
    } else {
        None
    }
}

/// A digit sequence's value only grows as digits are appended.
proof fn lemma_digits_val_monotone(s: Seq<char>, n: int)
    requires
        0 <= n <= s.len(),
        all_digits(s),
    ensures
        spec_digits_val(s) >= spec_digits_val(s.take(n)),
        spec_digits_val(s) >= 0,
    decreases s.len(),
{
    if s.len() == 0 {
        assert(s.take(n) =~= s);
    } else {
        let init = s.drop_last();
        assert(all_digits(init));
        lemma_digits_val_monotone(init, if n <= init.len() { n } else { init.len() as int });
        if n <= init.len() {
            assert(init.take(n) =~= s.take(n));
            assert(spec_digits_val(s) >= spec_digits_val(init));
        } else {
            assert(s.take(n) =~= s);
        }
    }
}

/// Parses an alias as an explicit channel id, exactly as `str::parse::<i64>`
/// would.
#[verifier::loop_isolation(false)]
pub fn parse_alias_id(s: &String) -> (r: Option<i64>)
    ensures
        match r {
            Some(v) => spec_parse_i64(s@) == Some(v as int),
            None => spec_parse_i64(s@) is None,
        },
{
    let st = s.as_str();
    let n = st.unicode_len();
    if n == 0 {
        return None;
    }
    let first = st.get_char(0);
    let neg = first == '-';
    let has_sign = neg || first == '+';
    let start: usize = if has_sign {
        1
    } else {
        0
    };
    if n == start {
        return None;
    }
    let ghost mag = if has_sign {
        s@.drop_first()
    } else {
        s@
    };
    let ghost off = start as int;
    // Accumulate the magnitude, bailing out when it can no longer fit.
    let mut acc: u64 = 0;
    let mut i: usize = start;
    while i < n
        invariant
            start <= i <= n,
            n == s@.len(),
            off == start as int,
            mag == s@.subrange(off, n as int).take(mag.len() as int) || mag == s@.subrange(
                off,
                n as int,
            ),
            mag =~= s@.subrange(off, n as int),
            all_digits(mag.take(i - off)),
            acc as int == spec_digits_val(mag.take(i - off)),
        decreases n - i,
    {
        let c = st.get_char(i);
        let d = c as u32;
        proof {
            assert(mag[i - off] == s@[i as int]);
            assert(mag.take(i - off + 1).drop_last() =~= mag.take(i - off));
        }
        if !(48 <= d && d <= 57) {
            proof {
                assert(!all_digits(mag));
            }
            return None;
        }
        let d64: u64 = (d - 48) as u64;
        if acc > (u64::MAX - d64) / 10 {
            // The magnitude already exceeds what any i64 can hold.
            proof {
                assert(acc as int * 10 + d64 as int > u64::MAX as int) by (nonlinear_arith)
                    requires
                        acc as int > (u64::MAX as int - d64 as int) / 10,
                        0 <= d64 as int <= 9,
                ;
                assert(spec_digits_val(mag.take(i - off + 1)) > u64::MAX as int);
                if all_digits(mag) {
                    lemma_digits_val_monotone(mag, i - off + 1);
                    assert(spec_digits_val(mag) > u64::MAX as int);
                }
            }
            return None;
        }
        acc = acc * 10 + d64;
        i += 1;
    }
    proof {
        assert(mag.take(n - off) =~= mag);
    }
    if neg {
        if acc > 9223372036854775808u64 {
            proof {
                assert(-(acc as int) < i64::MIN);
            }
            return None;
        }
        if acc == 9223372036854775808u64 {
            return Some(i64::MIN);
        }
        Some(-(acc as i64))
    } else {
        if acc > i64::MAX as u64 {
            return None;
        }
        Some(acc as i64)
    }
}

/// The resolver's transient state while one feed is drained: the channel
/// table as upserted so far, the alias-to-id bindings, and the staged rows.
#[verifier::ext_equal]
pub struct StageModel {
    pub channels: Seq<ChannelRowModel>,
    pub aliases: Seq<AliasEntryModel>,
    pub staging: Seq<ProgramRowModel>,
}

/// The resolver's table as preloaded from the store: one binding per
/// channel row.
pub open spec fn spec_alias_map(chs: Seq<ChannelRowModel>) -> Seq<AliasEntryModel> {
    chs.map_values(|r: ChannelRowModel| AliasEntryModel { alias: r.info.alias, id: r.id })
}

/// Well-formedness of the transient state: the channel table keeps the
/// store's shape, and every channel's alias is bound in the table.
pub open spec fn stage_wf(st: StageModel) -> bool {
    &&& channels_sorted(st.channels)
    &&& aliases_unique(st.channels)
    &&& forall|j: int|
        0 <= j < st.channels.len() ==> spec_lookup(
            st.aliases,
            (#[trigger] st.channels[j]).info.alias,
        ) is Some
}

/// How one feed record moves the transient state, per the resolver's rules:
/// a known alias updates its channel in place; an unknown alias that reads
/// as an integer claims that integer as its id; any other unknown alias gets
/// the next free id; a program is staged under its alias's id, or dropped
/// when the alias is unknown.
pub open spec fn spec_step(st: StageModel, item: XmltvItemModel) -> StageModel {
    match item {
        XmltvItemModel::Channel(c) => match spec_lookup(st.aliases, c.alias) {
            Some(id) => StageModel {
                channels: spec_upsert_channel(st.channels, id, c),
                aliases: st.aliases,
                staging: st.staging,
            },
            None => match spec_parse_i64(c.alias) {
                Some(id) => StageModel {
                    channels: spec_upsert_channel(st.channels, id, c),
                    aliases: st.aliases.push(AliasEntryModel { alias: c.alias, id }),
                    staging: st.staging,
                },
                None => if spec_next_id(st.channels) <= i64::MAX {
                    StageModel {
                        channels: st.channels.push(
                            ChannelRowModel { id: spec_next_id(st.channels), info: c },
                        ),
                        aliases: st.aliases.push(
                            AliasEntryModel { alias: c.alias, id: spec_next_id(st.channels) },
                        ),
                        staging: st.staging,
                    }
                } else {
                    st
                },
            },
        },
        XmltvItemModel::Program(alias, p) => match spec_lookup(st.aliases, alias) {
            Some(id) => StageModel {
                channels: st.channels,
                aliases: st.aliases,
                staging: st.staging.push(ProgramRowModel { channel: id, program: p }),
            },
            None => st,
        },
    }
}

/// The transient state after draining a whole record sequence.
pub open spec fn spec_stage_items(st: StageModel, items: Seq<XmltvItemModel>) -> StageModel
    decreases items.len(),
{
    if items.len() == 0 {
        st
    } else {
        spec_stage_items(spec_step(st, items[0]), items.drop_first())
    }
}

/// Draining one more record steps the drained state once.
proof fn lemma_stage_push(st: StageModel, items: Seq<XmltvItemModel>, x: XmltvItemModel)
    ensures
        spec_stage_items(st, items.push(x)) == spec_step(spec_stage_items(st, items), x),
    decreases items.len(),
{
    let whole = items.push(x);
    assert(whole.len() > 0);
    assert(spec_stage_items(st, whole) == spec_stage_items(spec_step(st, whole[0]), whole.drop_first()));
    if items.len() == 0 {
        assert(whole.drop_first() =~= Seq::<XmltvItemModel>::empty());
        assert(whole[0] == x);
        assert(spec_stage_items(spec_step(st, x), whole.drop_first()) == spec_step(st, x));
        assert(spec_stage_items(st, items) == st);
    } else {
        assert(whole.drop_first() =~= items.drop_first().push(x));
        assert(whole[0] == items[0]);
        lemma_stage_push(spec_step(st, items[0]), items.drop_first(), x);
        assert(spec_stage_items(st, items) == spec_stage_items(
            spec_step(st, items[0]),
            items.drop_first(),
        ));
    }
}

/// The transient state stays well-formed across one step.
pub proof fn lemma_step_wf(st: StageModel, item: XmltvItemModel)
    requires
        stage_wf(st),
    ensures
        stage_wf(spec_step(st, item)),
{
    let post = spec_step(st, item);
    match item {
        XmltvItemModel::Channel(c) => {
            match spec_lookup(st.aliases, c.alias) {
                Some(id) => {
                    lemma_upsert_stage_wf(st, id, c, st.aliases);
                },
                None => {
                    match spec_parse_i64(c.alias) {
                        Some(id) => {
                            let aliases = st.aliases.push(
                                AliasEntryModel { alias: c.alias, id },
                            );
                            assert forall|a: Seq<char>|
                                spec_lookup(st.aliases, a) is Some implies spec_lookup(
                                aliases,
                                a,
                            ) is Some by {
                                lemma_lookup_push(
                                    st.aliases,
                                    AliasEntryModel { alias: c.alias, id },
                                    a,
                                );
                            }
                            lemma_lookup_push(
                                st.aliases,
                                AliasEntryModel { alias: c.alias, id },
                                c.alias,
                            );
                            lemma_upsert_stage_wf(st, id, c, aliases);
                        },
                        None => {
                            if spec_next_id(st.channels) <= i64::MAX {
                                let id = spec_next_id(st.channels);
                                let row = ChannelRowModel { id, info: c };
                                let aliases = st.aliases.push(
                                    AliasEntryModel { alias: c.alias, id },
                                );
                                assert(channels_sorted(post.channels));
                                assert forall|i: int, j: int|
                                    0 <= i < j < post.channels.len() implies post.channels[i].info.alias
                                    != post.channels[j].info.alias by {
                                    if j == post.channels.len() - 1 {
                                        if post.channels[i].info.alias == c.alias {
                                            assert(spec_lookup(
                                                st.aliases,
                                                st.channels[i].info.alias,
                                            ) is Some);
                                        }
                                    }
                                }
                                assert forall|j: int|
                                    0 <= j < post.channels.len() implies spec_lookup(
                                    post.aliases,
                                    (#[trigger] post.channels[j]).info.alias,
                                ) is Some by {
                                    lemma_lookup_push(
                                        st.aliases,
                                        AliasEntryModel { alias: c.alias, id },
                                        post.channels[j].info.alias,
                                    );
                                }
                            }
                        },
                    }
                },
            }
        },
        XmltvItemModel::Program(alias, p) => {},
    }
}

/// Upserting a channel whose alias is bound keeps the transient state
/// well-formed, for any extension of the binding table that binds the new
/// alias.
proof fn lemma_upsert_stage_wf(
    st: StageModel,
    id: int,
    c: crate::epg::ChannelInfoModel,
    aliases: Seq<AliasEntryModel>,
)
    requires
        stage_wf(st),
        spec_lookup(aliases, c.alias) is Some,
        forall|a: Seq<char>| spec_lookup(st.aliases, a) is Some ==> spec_lookup(aliases, a) is Some,
    ensures
        channels_sorted(spec_upsert_channel(st.channels, id, c)),
        aliases_unique(spec_upsert_channel(st.channels, id, c)),
        forall|j: int|
            0 <= j < spec_upsert_channel(st.channels, id, c).len() ==> spec_lookup(
                aliases,
                (#[trigger] spec_upsert_channel(st.channels, id, c)[j]).info.alias,
            ) is Some,
{
    let pred = |r: ChannelRowModel| r.id != id && r.info.alias != c.alias;
    let dropped = st.channels.filter(pred);
    let row = ChannelRowModel { id, info: c };
    let result = spec_upsert_channel(st.channels, id, c);
    lemma_upsert_channel_wf(st.channels, id, c);
    lemma_insert_sorted_members(dropped, row);
    crate::seqsup::lemma_filter_members(st.channels, pred);
    assert forall|j: int|
        0 <= j < result.len() implies spec_lookup(
        aliases,
        (#[trigger] result[j]).info.alias,
    ) is Some by {
        if result[j] != row {
            assert(dropped.contains(result[j]));
            let k = choose|k: int| 0 <= k < dropped.len() && dropped[k] == result[j];
            assert(st.channels.contains(dropped[k]));
            let m = choose|m: int| 0 <= m < st.channels.len() && st.channels[m] == dropped[k];
            assert(spec_lookup(st.aliases, st.channels[m].info.alias) is Some);
        }
    }
}

/// The store after one whole ingest run: the feed is drained through the
/// resolver into staging, staging merges into the live table, programs
/// ending before `horizon` leave, and channels without programs leave.
/// The update log is not part of the run; the caller records the outcome
/// separately.
pub open spec fn spec_ingest(
    m: DatabaseModel,
    items: Seq<XmltvItemModel>,
    horizon: int,
) -> DatabaseModel {
    let st = spec_stage_items(
        StageModel {
            channels: m.channels,
            aliases: spec_alias_map(m.channels),
            staging: Seq::<ProgramRowModel>::empty(),
        },
        items,
    );
    let pruned = spec_prune(spec_merge(m.live, st.staging), horizon);
    DatabaseModel {
        channels: spec_gc(st.channels, pruned),
        live: pruned,
        staging: Seq::<ProgramRowModel>::empty(),
        log: m.log,
    }
}

impl ProgramsDatabase {
    /// One whole ingest run over an already-parsed record sequence: resolve
    /// and stage every record, merge staging into the live table, prune
    /// programs ending before `now - retention`, and drop channels left
    /// without programs.
    #[verifier::loop_isolation(false)]
    pub fn ingest_records(&mut self, items: &Vec<XmltvItem>, now: i64, retention: i64)
        requires
            old(self).wf(),
            0 <= retention,
            i64::MIN <= now as int - retention as int,
        ensures
            final(self).wf(),
            final(self)@ == spec_ingest(
                old(self)@,
                items.deep_view(),
                now as int - retention as int,
            ),
    {
        // Make sure the staging table holds no leftovers of a crashed run.
        self.clear_staging();
        // Preload the resolver's table from the store.
        let ghost st0 = StageModel {
            channels: old(self)@.channels,
            aliases: spec_alias_map(old(self)@.channels),
            staging: Seq::<ProgramRowModel>::empty(),
        };
        let chans = self.get_channels();
        let mut table: Vec<AliasEntry> = Vec::new();
        let mut i: usize = 0;
        while i < chans.len()
            invariant
                i <= chans.len(),
                table@.len() == i,
                forall|j: int| 0 <= j < i ==> (#[trigger] table@[j])@ == st0.aliases[j],
            decreases chans.len() - i,
        {
            let pair = &chans[i];
            table.push(AliasEntry { alias: pair.1.alias.clone(), id: pair.0 });
            i += 1;
        }
        proof {
            assert(table.deep_view() =~= st0.aliases);
            assert forall|j: int|
                0 <= j < st0.channels.len() implies spec_lookup(
                st0.aliases,
                (#[trigger] st0.channels[j]).info.alias,
            ) is Some by {
                assert(st0.aliases[j].alias == st0.channels[j].info.alias);
                lemma_lookup_some(st0.aliases, st0.channels[j].info.alias, j);
            }
            assert(stage_wf(st0));
        }
        // Drain the records through the resolver into the store.
        let mut k: usize = 0;
        while k < items.len()
            invariant
                k <= items.len(),
                self.wf(),
                stage_wf(spec_stage_items(st0, items.deep_view().take(k as int))),
                self@.channels == spec_stage_items(st0, items.deep_view().take(k as int)).channels,
                table.deep_view() == spec_stage_items(st0, items.deep_view().take(k as int)).aliases,
                self@.staging == spec_stage_items(st0, items.deep_view().take(k as int)).staging,
                self@.live == old(self)@.live,
                self@.log == old(self)@.log,
            decreases items.len() - k,
        {
            let ghost pre = spec_stage_items(st0, items.deep_view().take(k as int));
            let ghost itemv = items.deep_view()[k as int];
            proof {
                assert(items.deep_view()[k as int] == items@[k as int]@);
                assert(items.deep_view().take(k as int + 1) =~= items.deep_view().take(
                    k as int,
                ).push(itemv));
                lemma_stage_push(st0, items.deep_view().take(k as int), itemv);
                lemma_step_wf(pre, itemv);
            }
            proof {
                assert(spec_stage_items(st0, items.deep_view().take(k as int + 1)) == spec_step(
                    pre,
                    itemv,
                ));
            }
            match &items[k] {
                XmltvItem::Channel(c) => {
                    proof {
                        assert(itemv == XmltvItemModel::Channel(c@));
                    }
                    match lookup_alias(&table, &c.alias) {
                        Some(id) => {
                            self.update_channel(id, c);
                            proof {
                                assert(table.deep_view() =~= spec_step(pre, itemv).aliases);
                            }
                        },
                        None => {
                            match parse_alias_id(&c.alias) {
                                Some(id) => {
                                    self.update_channel(id, c);
                                    let ghost prev = table.deep_view();
                                    table.push(AliasEntry { alias: c.alias.clone(), id });
                                    proof {
                                        assert(table.deep_view() =~= prev.push(
                                            AliasEntryModel { alias: c.alias@, id: id as int },
                                        ));
                                        assert(table.deep_view() =~= spec_step(pre, itemv).aliases);
                                    }
                                },
                                None => {
                                    proof {
                                        assert forall|j: int|
                                            0 <= j < self@.channels.len() implies (
                                        #[trigger] self@.channels[j]).info.alias != c.alias@ by {
                                            assert(spec_lookup(
                                                pre.aliases,
                                                self@.channels[j].info.alias,
                                            ) is Some);
                                        }
                                        self.lemma_ids_in_range();
                                        assert(spec_next_id(pre.channels) > i64::MIN);
                                    }
                                    match self.insert_channel(c) {
                                        Some(id) => {
                                            let ghost prev = table.deep_view();
                                            table.push(AliasEntry { alias: c.alias.clone(), id });
                                            proof {
                                                assert(table.deep_view() =~= prev.push(
                                                    AliasEntryModel {
                                                        alias: c.alias@,
                                                        id: id as int,
                                                    },
                                                ));
                                                assert(table.deep_view() =~= spec_step(pre, itemv).aliases);
                                            }
                                        },
                                        None => {
                                            proof {
                                                assert(table.deep_view() =~= spec_step(pre, itemv).aliases);
                                            }
                                        },
                                    }
                                },
                            }
                        },
                    }
                },
                XmltvItem::Program(pair) => {
                    proof {
                        assert(itemv == XmltvItemModel::Program(pair.0@, pair.1@));
                    }
                    match lookup_alias(&table, &pair.0) {
                        Some(id) => {
                            self.insert_program(id, &pair.1);
                        },
                        None => {},
                    }
                    proof {
                        assert(table.deep_view() =~= spec_step(pre, itemv).aliases);
                    }
                },
            }
            k += 1;
        }
        proof {
            assert(items.deep_view().take(items.len() as int) =~= items.deep_view());
        }
        // Merge the staged rows into the live table, then prune and collect.
        self.append_programs();
        self.delete_before(now - retention);
        self.clear_channels();
        proof {
            assert(final(self)@ =~= spec_ingest(
                old(self)@,
                items.deep_view(),
                now as int - retention as int,
            ));
        }
    }

    /// One whole ingest run over a feed document: drains the parser through
    /// the resolver into staging — stopping at the first parse failure but
    /// keeping what was already staged — then merges, prunes and collects
    /// exactly as [`spec_ingest`] describes for the records the document
    /// yields under [`spec_reader_drain`].  The parse failure, if any, is
    /// reported only after the staged work is merged.
    #[verifier::loop_isolation(false)]
    pub fn load_xmltv(&mut self, xmltv: &mut XmltvReader, now: i64, retention: i64) -> (r: Result<
        (),
        ParseError,
    >)
        requires
            old(self).wf(),
            old(xmltv).wf(),
            0 <= retention,
            i64::MIN <= now as int - retention as int,
        ensures
            final(self).wf(),
            final(xmltv).wf(),
            final(xmltv).doc() == old(xmltv).doc(),
            ({
                let (items, fail) = spec_reader_drain(
                    old(xmltv).doc(),
                    old(xmltv).cursor(),
                    old(xmltv).machine(),
                );
                &&& final(self)@ == spec_ingest(
                    old(self)@,
                    items,
                    now as int - retention as int,
                )
                &&& match r {
                    Ok(()) => fail is None,
                    Err(e) => fail == Some(e),
                }
            }),
    {
        let ghost doc = xmltv.doc();
        let ghost p0 = xmltv.cursor();
        let ghost m0 = xmltv.machine();
        let mut items: Vec<XmltvItem> = Vec::new();
        let mut failure: Option<ParseError> = None;
        proof {
            xmltv.lemma_wf_remaining();
            match spec_reader_drain(doc, p0, m0) {
                (all, fail) => {
                    assert(items.deep_view() =~= all.take(0));
                },
            }
        }
        let mut done = false;
        while !done
            invariant
                xmltv.wf(),
                xmltv.doc() == doc,
                0 <= xmltv.cursor() <= doc.len(),
                self == old(self),
                !done ==> failure is None,
                !done ==> ({
                    let (all, fail) = spec_reader_drain(doc, p0, m0);
                    &&& items.deep_view().len() <= all.len()
                    &&& items.deep_view() == all.take(items.deep_view().len() as int)
                    &&& spec_reader_drain(doc, xmltv.cursor(), xmltv.machine()) == (
                        all.skip(items.deep_view().len() as int),
                        fail,
                    )
                }),
                done ==> ({
                    let (all, fail) = spec_reader_drain(doc, p0, m0);
                    &&& items.deep_view() == all
                    &&& match failure {
                        Some(e) => fail == Some(e),
                        None => fail is None,
                    }
                }),
            decreases xmltv.remaining(), (if done {
                0int
            } else {
                1int
            }),
        {
            let ghost pre_p = xmltv.cursor();
            let ghost pre_m = xmltv.machine();
            let ghost k = items.deep_view().len() as int;
            proof {
                lemma_pull_progress(doc, pre_p, pre_m);
            }
            match xmltv.next() {
                None => {
                    proof {
                        let (all, fail) = spec_reader_drain(doc, p0, m0);
                        assert(spec_reader_drain(doc, pre_p, pre_m) == (
                            Seq::<XmltvItemModel>::empty(),
                            None::<ParseError>,
                        ));
                        assert(all.skip(k).len() == 0);
                        assert(items.deep_view() =~= all);
                    }
                    done = true;
                },
                Some(Ok(item)) => {
                    let ghost itemv = item@;
                    let ghost prev = items.deep_view();
                    items.push(item);
                    proof {
                        let (all, fail) = spec_reader_drain(doc, p0, m0);
                        assert(items.deep_view() =~= prev.push(itemv));
                        let (m2, p2, flow) = spec_reader_pull(doc, pre_p, pre_m);
                        assert(spec_reader_drain(doc, pre_p, pre_m) == ({
                            let (rest, fail2) = spec_reader_drain(doc, p2, m2);
                            (seq![itemv] + rest, fail2)
                        }));
                        let tail = all.skip(k);
                        assert(tail.len() >= 1 && tail[0] == itemv);
                        assert(all[k] == itemv);
                        assert(items.deep_view() =~= all.take(k + 1));
                        match spec_reader_drain(doc, p2, m2) {
                            (rest, fail2) => {
                                assert(seq![itemv] + rest == tail);
                                assert(rest =~= all.skip(k + 1)) by {
                                    assert(forall|j: int|
                                        0 <= j < rest.len() ==> rest[j] == (seq![itemv]
                                            + rest)[j + 1]);
                                }
                            },
                        }
                    }
                },
                Some(Err(e)) => {
                    proof {
                        let (all, fail) = spec_reader_drain(doc, p0, m0);
                        assert(spec_reader_drain(doc, pre_p, pre_m) == (
                            Seq::<XmltvItemModel>::empty(),
                            Some(e),
                        ));
                        assert(all.skip(k).len() == 0);
                        assert(items.deep_view() =~= all);
                        assert(fail == Some(e));
                    }
                    failure = Some(e);
                    done = true;
                },
            }
        }
        self.ingest_records(&items, now, retention);
        match failure {
            Some(e) => Err(e),
            None => Ok(()),
        }
    }
}

} // verus!
