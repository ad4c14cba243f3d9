//! The store: channels, live programs, the staging area for one ingest run,
//! and the append-only log of ingest attempts.
//!
//! The store keeps the relational shape of the engine — `channels(id,
//! alias, name, icon_url)`, `programs(channel, begin, end, title,
//! description)`, a staging copy of `programs`, and `update_log` — as plain
//! in-memory tables, so that every primitive (upsert, range query, merge,
//! retention pruning, garbage collection) is verified against an exact
//! mathematical description.  Persistence is a backend concern outside this
//! crate; the engine's contract is backend-agnostic.

use vstd::prelude::*;

use crate::epg::{ChannelInfo, ChannelInfoModel, EpgNow, EpgNowModel, Program, ProgramModel};
use crate::seqsup::{lemma_filter_index_order, lemma_filter_members, lemma_filter_push};
use crate::text::str_eq;
use crate::update_status::{UpdateStatus, UpdateStatusModel};

verus! {

/// Mathematical image of one row of the `channels` table.
pub struct ChannelRowModel {
    pub id: int,
    pub info: ChannelInfoModel,
}

/// One row of the `channels` table.
pub struct ChannelRow {
    pub id: i64,
    pub info: ChannelInfo,
}

impl View for ChannelRow {
    type V = ChannelRowModel;

    open spec fn view(&self) -> ChannelRowModel {
        ChannelRowModel { id: self.id as int, info: self.info@ }
    }
}

impl DeepView for ChannelRow {
    type V = ChannelRowModel;

    open spec fn deep_view(&self) -> ChannelRowModel {
        self.view()
    }
}

impl Clone for ChannelRow {
    fn clone(&self) -> (res: Self)
        ensures
            res@ == self@,
    {
        ChannelRow { id: self.id, info: self.info.clone() }
    }
}

/// Mathematical image of one row of the `programs` tables.
pub struct ProgramRowModel {
    pub channel: int,
    pub program: ProgramModel,
}

/// One row of the live or staging `programs` table.
pub struct ProgramRow {
    pub channel: i64,
    pub program: Program,
}

impl View for ProgramRow {
    type V = ProgramRowModel;

    open spec fn view(&self) -> ProgramRowModel {
        ProgramRowModel { channel: self.channel as int, program: self.program@ }
    }
}

impl DeepView for ProgramRow {
    type V = ProgramRowModel;

    open spec fn deep_view(&self) -> ProgramRowModel {
        self.view()
    }
}

impl Clone for ProgramRow {
    fn clone(&self) -> (res: Self)
        ensures
            res@ == self@,
    {
        ProgramRow { channel: self.channel, program: self.program.clone() }
    }
}

/// Channel rows are strictly ordered by id: ids are unique and listings come
/// back in id order.
pub open spec fn channels_sorted(s: Seq<ChannelRowModel>) -> bool {
    forall|i: int, j: int| 0 <= i < j < s.len() ==> s[i].id < s[j].id
}

/// No two channel rows share an alias.
pub open spec fn aliases_unique(s: Seq<ChannelRowModel>) -> bool {
    forall|i: int, j: int| 0 <= i < j < s.len() ==> s[i].info.alias != s[j].info.alias
}

/// Rows that survive an upsert of channel `id` with alias `alias`: the
/// conflicting row with the same id and the conflicting row with the same
/// alias are both dropped, as `insert or replace` does.
pub open spec fn spec_drop_conflicts(
    s: Seq<ChannelRowModel>,
    id: int,
    alias: Seq<char>,
) -> Seq<ChannelRowModel> {
    s.filter(|r: ChannelRowModel| r.id != id && r.info.alias != alias)
}

/// Inserts a row into an id-ordered channel listing, keeping the order.
pub open spec fn spec_insert_sorted(
    s: Seq<ChannelRowModel>,
    row: ChannelRowModel,
) -> Seq<ChannelRowModel>
    decreases s.len(),
{
    if s.len() == 0 {
        seq![row]
    } else if row.id < s[0].id {
        seq![row] + s
    } else {
        seq![s[0]] + spec_insert_sorted(s.drop_first(), row)
    }
}

/// The full effect of `insert or replace into channels`: conflicting rows
/// leave, the new row takes its place in id order.
pub open spec fn spec_upsert_channel(
    s: Seq<ChannelRowModel>,
    id: int,
    info: ChannelInfoModel,
) -> Seq<ChannelRowModel> {
    spec_insert_sorted(
        spec_drop_conflicts(s, id, info.alias),
        ChannelRowModel { id, info },
    )
}

/// The id the store assigns to a channel inserted without an explicit id:
/// one past the largest id in use, starting from 1.
pub open spec fn spec_next_id(s: Seq<ChannelRowModel>) -> int {
    if s.len() == 0 {
        1
    } else {
        s.last().id + 1
    }
}

/// Filtering an id-ordered, alias-unique channel listing keeps both
/// properties.
pub proof fn lemma_filter_channels_wf(s: Seq<ChannelRowModel>, pred: spec_fn(ChannelRowModel) -> bool)
    requires
        channels_sorted(s),
        aliases_unique(s),
    ensures
        channels_sorted(s.filter(pred)),
        aliases_unique(s.filter(pred)),
{
    lemma_filter_members(s, pred);
    let f = s.filter(pred);
    assert forall|i: int, j: int| 0 <= i < j < f.len() implies f[i].id < f[j].id && f[i].info.alias
        != f[j].info.alias by {
        lemma_filter_index_order(s, pred, i, j);
        let a = choose|a: int| 0 <= a < s.len() && s[a] == f[i] && exists|b: int|
            a < b < s.len() && s[b] == f[j];
        let b = choose|b: int| a < b < s.len() && s[b] == f[j];
        assert(s[a].id < s[b].id);
    }
}

/// Inserting at the position between the smaller and the larger ids is what
/// [`spec_insert_sorted`] computes.
proof fn lemma_insert_sorted_at(s: Seq<ChannelRowModel>, row: ChannelRowModel, pos: int)
    requires
        0 <= pos <= s.len(),
        forall|j: int| 0 <= j < pos ==> s[j].id < row.id,
        forall|j: int| pos <= j < s.len() ==> s[j].id > row.id,
    ensures
        spec_insert_sorted(s, row) == s.insert(pos, row),
    decreases s.len(),
{
    if s.len() == 0 {
        assert(spec_insert_sorted(s, row) =~= s.insert(pos, row));
    } else if row.id < s[0].id {
        assert(pos == 0);
        assert(spec_insert_sorted(s, row) =~= s.insert(0, row));
    } else {
        assert(pos >= 1);
        let t = s.drop_first();
        assert(forall|j: int| 0 <= j < pos - 1 ==> t[j].id < row.id);
        assert(forall|j: int| pos - 1 <= j < t.len() ==> t[j].id > row.id);
        lemma_insert_sorted_at(t, row, pos - 1);
        assert(spec_insert_sorted(s, row) =~= s.insert(pos, row));
    }
}

/// The inserted listing is id-ordered and alias-unique again, provided the
/// new row conflicts with nothing kept.
proof fn lemma_insert_sorted_wf(s: Seq<ChannelRowModel>, row: ChannelRowModel, pos: int)
    requires
        0 <= pos <= s.len(),
        channels_sorted(s),
        aliases_unique(s),
        forall|j: int| 0 <= j < pos ==> s[j].id < row.id,
        forall|j: int| pos <= j < s.len() ==> s[j].id > row.id,
        forall|j: int| 0 <= j < s.len() ==> s[j].info.alias != row.info.alias,
    ensures
        channels_sorted(s.insert(pos, row)),
        aliases_unique(s.insert(pos, row)),
{
    s.insert_ensures(pos, row);
}

/// Every row of an insertion result is the inserted row or one of the old
/// rows.
pub proof fn lemma_insert_sorted_members(s: Seq<ChannelRowModel>, row: ChannelRowModel)
    ensures
        forall|k: int|
            0 <= k < spec_insert_sorted(s, row).len() ==> spec_insert_sorted(s, row)[k] == row
                || s.contains(#[trigger] spec_insert_sorted(s, row)[k]),
    decreases s.len(),
{
    if s.len() > 0 && !(row.id < s[0].id) {
        let t = s.drop_first();
        lemma_insert_sorted_members(t, row);
        let f = spec_insert_sorted(s, row);
        assert forall|k: int| 0 <= k < f.len() implies f[k] == row || s.contains(f[k]) by {
            if k == 0 {
                assert(s[0] == f[0]);
            } else {
                assert(f[k] == spec_insert_sorted(t, row)[k - 1]);
                if f[k] != row {
                    assert(t.contains(f[k]));
                    let j = choose|j: int| 0 <= j < t.len() && t[j] == f[k];
                    assert(s[j + 1] == f[k]);
                }
            }
        }
    }
}

/// Insertion keeps every old row.
pub proof fn lemma_insert_sorted_keeps(s: Seq<ChannelRowModel>, row: ChannelRowModel)
    ensures
        forall|x: ChannelRowModel| s.contains(x) ==> spec_insert_sorted(s, row).contains(x),
        spec_insert_sorted(s, row).contains(row),
    decreases s.len(),
{
    let f = spec_insert_sorted(s, row);
    if s.len() == 0 {
        assert(f[0] == row);
    } else if row.id < s[0].id {
        assert(f[0] == row);
        assert forall|x: ChannelRowModel| s.contains(x) implies f.contains(x) by {
            let j = choose|j: int| 0 <= j < s.len() && s[j] == x;
            assert(f[j + 1] == x);
        }
    } else {
        let t = s.drop_first();
        lemma_insert_sorted_keeps(t, row);
        let g = spec_insert_sorted(t, row);
        assert(forall|k: int| 0 <= k < g.len() ==> f[k + 1] == g[k]);
        let jr = choose|j: int| 0 <= j < g.len() && g[j] == row;
        assert(f[jr + 1] == row);
        assert forall|x: ChannelRowModel| s.contains(x) implies f.contains(x) by {
            let j = choose|j: int| 0 <= j < s.len() && s[j] == x;
            if j == 0 {
                assert(f[0] == x);
            } else {
                assert(t[j - 1] == x);
                assert(t.contains(x));
                let k = choose|k: int| 0 <= k < g.len() && g[k] == x;
                assert(f[k + 1] == x);
            }
        }
    }
}

/// Inserting a row that conflicts with no kept row keeps the listing
/// id-ordered and alias-unique.
proof fn lemma_insert_sorted_keeps_wf(s: Seq<ChannelRowModel>, row: ChannelRowModel)
    requires
        channels_sorted(s),
        aliases_unique(s),
        forall|j: int| 0 <= j < s.len() ==> (#[trigger] s[j]).id != row.id,
        forall|j: int| 0 <= j < s.len() ==> (#[trigger] s[j]).info.alias != row.info.alias,
    ensures
        channels_sorted(spec_insert_sorted(s, row)),
        aliases_unique(spec_insert_sorted(s, row)),
    decreases s.len(),
{
    let f = spec_insert_sorted(s, row);
    if s.len() == 0 {
    } else if row.id < s[0].id {
        assert(f =~= seq![row] + s);
        assert forall|i: int, j: int| 0 <= i < j < f.len() implies f[i].id < f[j].id
            && f[i].info.alias != f[j].info.alias by {
            if i > 0 {
                assert(f[i] == s[i - 1] && f[j] == s[j - 1]);
            } else {
                assert(f[j] == s[j - 1]);
                assert(row.id < s[0].id);
                if j - 1 > 0 {
                    assert(s[0].id < s[j - 1].id);
                }
            }
        }
    } else {
        let t = s.drop_first();
        assert(forall|j: int| 0 <= j < t.len() ==> t[j] == s[j + 1]);
        lemma_insert_sorted_keeps_wf(t, row);
        lemma_insert_sorted_members(t, row);
        let g = spec_insert_sorted(t, row);
        assert(f =~= seq![s[0]] + g);
        assert(row.id > s[0].id);
        assert forall|i: int, j: int| 0 <= i < j < f.len() implies f[i].id < f[j].id
            && f[i].info.alias != f[j].info.alias by {
            if i == 0 {
                assert(f[j] == g[j - 1]);
                if g[j - 1] == row {
                } else {
                    assert(t.contains(g[j - 1]));
                    let m = choose|m: int| 0 <= m < t.len() && t[m] == g[j - 1];
                    assert(s[m + 1] == g[j - 1]);
                }
            } else {
                assert(f[i] == g[i - 1] && f[j] == g[j - 1]);
            }
        }
    }
}

/// An upsert into a well-formed channel listing yields a well-formed
/// listing.
pub proof fn lemma_upsert_channel_wf(s: Seq<ChannelRowModel>, id: int, info: ChannelInfoModel)
    requires
        channels_sorted(s),
        aliases_unique(s),
    ensures
        channels_sorted(spec_upsert_channel(s, id, info)),
        aliases_unique(spec_upsert_channel(s, id, info)),
{
    let pred = |r: ChannelRowModel| r.id != id && r.info.alias != info.alias;
    let dropped = s.filter(pred);
    lemma_filter_channels_wf(s, pred);
    lemma_filter_members(s, pred);
    lemma_insert_sorted_keeps_wf(dropped, ChannelRowModel { id, info });
}

/// Mathematical image of the whole store.
#[verifier::ext_equal]
pub struct DatabaseModel {
    pub channels: Seq<ChannelRowModel>,
    pub live: Seq<ProgramRowModel>,
    pub staging: Seq<ProgramRowModel>,
    pub log: Seq<UpdateStatusModel>,
}

/// Well-formedness of the store's image: the channel listing is id-ordered
/// with unique aliases, and the update log holds at most one entry per
/// instant.
pub open spec fn db_wf(m: DatabaseModel) -> bool {
    &&& channels_sorted(m.channels)
    &&& aliases_unique(m.channels)
    &&& log_times_unique(m.log)
}

/// No two log entries share their instant.
pub open spec fn log_times_unique(s: Seq<UpdateStatusModel>) -> bool {
    forall|i: int, j: int| 0 <= i < j < s.len() ==> s[i].time != s[j].time
}

/// The store: channels, live programs, the staging area, and the update
/// log, each a plain in-memory table.
pub struct ProgramsDatabase {
    channels: Vec<ChannelRow>,
    programs: Vec<ProgramRow>,
    staging: Vec<ProgramRow>,
    update_log: Vec<UpdateStatus>,
}

impl View for ProgramsDatabase {
    type V = DatabaseModel;

    closed spec fn view(&self) -> DatabaseModel {
        DatabaseModel {
            channels: self.channels.deep_view(),
            live: self.programs.deep_view(),
            staging: self.staging.deep_view(),
            log: self.update_log.deep_view(),
        }
    }
}

impl ProgramsDatabase {
    /// Well-formedness, carried by every method of the store.
    pub open spec fn wf(&self) -> bool {
        db_wf(self@)
    }

    /// Every channel id in the store's image fits the machine integer that
    /// carries it.
    pub proof fn lemma_ids_in_range(&self)
        ensures
            forall|j: int|
                0 <= j < self@.channels.len() ==> i64::MIN <= (#[trigger] self@.channels[j]).id
                    <= i64::MAX,
    {
        assert forall|j: int|
            0 <= j < self@.channels.len() implies i64::MIN <= (#[trigger] self@.channels[j]).id
            <= i64::MAX by {
            assert(self@.channels[j] == self.channels@[j]@);
        }
    }

    /// Opens an empty store.
    pub fn open() -> (r: Self)
        ensures
            r.wf(),
            r@.channels == Seq::<ChannelRowModel>::empty(),
            r@.live == Seq::<ProgramRowModel>::empty(),
            r@.staging == Seq::<ProgramRowModel>::empty(),
            r@.log == Seq::<UpdateStatusModel>::empty(),
    {
        let r = ProgramsDatabase {
            channels: Vec::new(),
            programs: Vec::new(),
            staging: Vec::new(),
            update_log: Vec::new(),
        };
        proof {
            assert(r@.channels =~= Seq::<ChannelRowModel>::empty());
            assert(r@.live =~= Seq::<ProgramRowModel>::empty());
            assert(r@.staging =~= Seq::<ProgramRowModel>::empty());
            assert(r@.log =~= Seq::<UpdateStatusModel>::empty());
        }
        r
    }

    /// Lists every channel with its id, in id order.
    #[verifier::loop_isolation(false)]
    pub fn get_channels(&self) -> (r: Vec<(i64, ChannelInfo)>)
        ensures
            r@.len() == self@.channels.len(),
            forall|j: int|
                0 <= j < r@.len() ==> #[trigger] r@[j].0 as int == self@.channels[j].id
                    && r@[j].1@ == self@.channels[j].info,
    {
        let mut r: Vec<(i64, ChannelInfo)> = Vec::new();
        let mut i: usize = 0;
        while i < self.channels.len()
            invariant
                i <= self.channels.len(),
                r@.len() == i,
                forall|j: int|
                    0 <= j < i ==> #[trigger] r@[j].0 as int == self@.channels[j].id && r@[j].1@
                        == self@.channels[j].info,
            decreases self.channels.len() - i,
        {
            let row = &self.channels[i];
            r.push((row.id, row.info.clone()));
            i += 1;
        }
        r
    }

    /// Inserts or replaces the channel row with the given id, as the
    /// resolver demands: any row with the same id and any row with the same
    /// alias leave, the new row takes its place in id order.
    #[verifier::loop_isolation(false)]
    pub fn update_channel(&mut self, id: i64, info: &ChannelInfo)
        requires
            old(self).wf(),
        ensures
            final(self).wf(),
            final(self)@.channels == spec_upsert_channel(old(self)@.channels, id as int, info@),
            final(self)@.live == old(self)@.live,
            final(self)@.staging == old(self)@.staging,
            final(self)@.log == old(self)@.log,
    {
        let ghost pred = |r: ChannelRowModel| r.id != id as int && r.info.alias != info@.alias;
        let mut kept: Vec<ChannelRow> = Vec::new();
        let mut i: usize = 0;
        while i < self.channels.len()
            invariant
                i <= self.channels.len(),
                kept.deep_view() == self@.channels.take(i as int).filter(pred),
            decreases self.channels.len() - i,
        {
            let row = &self.channels[i];
            proof {
                assert(self@.channels.take(i as int + 1).drop_last() =~= self@.channels.take(
                    i as int,
                ));
                assert(self@.channels.take(i as int + 1) =~= self@.channels.take(i as int).push(
                    row@,
                ));
                lemma_filter_push(self@.channels.take(i as int), row@, pred);
            }
            if !(row.id == id || str_eq(&row.info.alias, &info.alias)) {
                let keep = row.clone();
                let ghost prev = kept.deep_view();
                kept.push(keep);
                proof {
                    assert(kept.deep_view() =~= prev.push(row@));
                }
            }
            i += 1;
        }
        proof {
            assert(self@.channels.take(self.channels.len() as int) =~= self@.channels);
            lemma_filter_channels_wf(self@.channels, pred);
        }
        // Insert the new row at its id-ordered position.
        let ghost dropped = spec_drop_conflicts(self@.channels, id as int, info@.alias);
        let mut pos: usize = 0;
        while pos < kept.len() && kept[pos].id < id
            invariant
                pos <= kept.len(),
                forall|j: int| 0 <= j < pos ==> dropped[j].id < id as int,
            decreases kept.len() - pos,
        {
            pos += 1;
        }
        proof {
            lemma_filter_members(self@.channels, pred);
            assert forall|j: int| pos <= j < dropped.len() implies dropped[j].id > id as int by {
                assert(dropped[pos as int].id >= id as int);
                assert(dropped[pos as int].id != id as int);
            }
            assert forall|j: int| 0 <= j < dropped.len() implies dropped[j].info.alias
                != info@.alias by {}
            lemma_insert_sorted_at(dropped, ChannelRowModel { id: id as int, info: info@ }, pos as int);
            lemma_insert_sorted_wf(dropped, ChannelRowModel { id: id as int, info: info@ }, pos as int);
        }
        let row = ChannelRow { id, info: info.clone() };
        kept.insert(pos, row);
        proof {
            assert(kept.deep_view() =~= dropped.insert(
                pos as int,
                ChannelRowModel { id: id as int, info: info@ },
            ));
        }
        self.channels = kept;
    }
}

/// Whether the staging rows mention channel `c`.
pub open spec fn spec_has_channel(s: Seq<ProgramRowModel>, c: int) -> bool {
    exists|i: int| 0 <= i < s.len() && (#[trigger] s[i]).channel == c
}

/// The smallest `begin` among the rows of channel `c`; meaningful only when
/// [`spec_has_channel`] holds.
pub open spec fn spec_min_begin(s: Seq<ProgramRowModel>, c: int) -> int
    decreases s.len(),
{
    if s.len() == 0 {
        0
    } else {
        let rest = s.drop_last();
        let lastr = s.last();
        if lastr.channel == c {
            if spec_has_channel(rest, c) && spec_min_begin(rest, c) <= lastr.program.begin {
                spec_min_begin(rest, c)
            } else {
                lastr.program.begin
            }
        } else {
            spec_min_begin(rest, c)
        }
    }
}

/// A live row survives the merge if its channel got no new data, or if it
/// lies strictly before the earliest instant the new data describes.
pub open spec fn spec_merge_keeps(stg: Seq<ProgramRowModel>, r: ProgramRowModel) -> bool {
    !spec_has_channel(stg, r.channel) || r.program.begin < spec_min_begin(stg, r.channel)
}

/// The staged-to-live merge: for every channel with staged rows, live rows
/// from the earliest staged `begin` onward leave; all staged rows are
/// appended, in staging order.
pub open spec fn spec_merge(
    live: Seq<ProgramRowModel>,
    stg: Seq<ProgramRowModel>,
) -> Seq<ProgramRowModel> {
    live.filter(|r: ProgramRowModel| spec_merge_keeps(stg, r)) + stg
}

/// Retention pruning keeps the rows that end at the horizon or later.
pub open spec fn spec_prune(live: Seq<ProgramRowModel>, horizon: int) -> Seq<ProgramRowModel> {
    live.filter(|r: ProgramRowModel| r.program.end >= horizon)
}

/// Garbage collection keeps the channels that still have a live row.
pub open spec fn spec_gc(
    channels: Seq<ChannelRowModel>,
    live: Seq<ProgramRowModel>,
) -> Seq<ChannelRowModel> {
    channels.filter(|c: ChannelRowModel| spec_has_channel(live, c.id))
}

/// The programs of channel `id` beginning in `[from, to)`, in table order.
pub open spec fn spec_range(
    live: Seq<ProgramRowModel>,
    id: int,
    from: int,
    to: int,
) -> Seq<ProgramModel> {
    live.filter(|r: ProgramRowModel| r.channel == id && from <= r.program.begin
        && r.program.begin < to).map_values(|r: ProgramRowModel| r.program)
}

/// The programs of channel `id` that end after `t`, in table order.
pub open spec fn spec_eligible(live: Seq<ProgramRowModel>, id: int, t: int) -> Seq<ProgramModel> {
    live.filter(|r: ProgramRowModel| r.channel == id && r.program.end > t).map_values(
        |r: ProgramRowModel| r.program,
    )
}

/// The first position of the program with the earliest `end`; an earlier
/// position wins a tie.
pub open spec fn spec_min_end_index(rows: Seq<ProgramModel>) -> int
    decreases rows.len(),
{
    if rows.len() <= 1 {
        0
    } else {
        let r = spec_min_end_index(rows.drop_last());
        if 0 <= r < rows.len() && rows.last().end < rows[r].end {
            rows.len() - 1
        } else {
            r
        }
    }
}

/// The `count` earliest-ending programs of `rows`, earliest end first, an
/// earlier position winning a tie.
pub open spec fn spec_k_smallest_by_end(rows: Seq<ProgramModel>, count: int) -> Seq<ProgramModel>
    decreases rows.len(),
{
    if count <= 0 || rows.len() == 0 {
        Seq::<ProgramModel>::empty()
    } else {
        let m = spec_min_end_index(rows);
        if 0 <= m < rows.len() {
            seq![rows[m]] + spec_k_smallest_by_end(rows.remove(m), count - 1)
        } else {
            Seq::<ProgramModel>::empty()
        }
    }
}

/// The "now playing" answer for one channel: of its programs still running
/// or upcoming at `t`, the `count` that end soonest, earliest end first.
pub open spec fn spec_now_entry(
    live: Seq<ProgramRowModel>,
    id: int,
    t: int,
    count: int,
) -> EpgNowModel {
    EpgNowModel {
        channel_id: id,
        programs: spec_k_smallest_by_end(spec_eligible(live, id, t), count),
    }
}

/// A scan that keeps the first strictly smaller `end` computes
/// [`spec_min_end_index`].
proof fn lemma_min_end_at(rows: Seq<ProgramModel>, m: int)
    requires
        0 <= m < rows.len(),
        forall|l: int| 0 <= l < rows.len() ==> rows[m].end <= (#[trigger] rows[l]).end,
        forall|l: int| 0 <= l < m ==> (#[trigger] rows[l]).end > rows[m].end,
    ensures
        spec_min_end_index(rows) == m,
    decreases rows.len(),
{
    if rows.len() > 1 {
        let init = rows.drop_last();
        assert(forall|l: int| 0 <= l < init.len() ==> init[l] == rows[l]);
        if m < rows.len() - 1 {
            lemma_min_end_at(init, m);
        } else {
            let r = spec_min_end_index(init);
            lemma_min_end_bounds(init);
            assert(init[r].end > rows[m].end);
        }
    }
}

/// The earliest-end position lies within the list.
proof fn lemma_min_end_bounds(rows: Seq<ProgramModel>)
    requires
        rows.len() > 0,
    ensures
        0 <= spec_min_end_index(rows) < rows.len(),
    decreases rows.len(),
{
    if rows.len() > 1 {
        lemma_min_end_bounds(rows.drop_last());
    }
}

/// Selects the `count` earliest-ending programs, earliest end first, an
/// earlier position winning a tie — exactly as [`spec_k_smallest_by_end`]
/// does.
#[verifier::loop_isolation(false)]
fn k_smallest_by_end(rows: Vec<Program>, count: usize) -> (r: Vec<Program>)
    ensures
        r.deep_view() == spec_k_smallest_by_end(rows.deep_view(), count as int),
{
    let ghost orig = rows.deep_view();
    let mut work = rows;
    let mut out: Vec<Program> = Vec::new();
    let mut taken: usize = 0;
    proof {
        assert(out.deep_view() =~= Seq::<ProgramModel>::empty());
        assert(out.deep_view() + spec_k_smallest_by_end(work.deep_view(), count as int) =~= spec_k_smallest_by_end(orig, count as int));
    }
    while taken < count && work.len() > 0
        invariant
            taken <= count,
            out.deep_view() + spec_k_smallest_by_end(work.deep_view(), count - taken)
                == spec_k_smallest_by_end(orig, count as int),
        decreases count - taken,
    {
        let ghost workv = work.deep_view();
        // The first program with the earliest end.
        let mut m: usize = 0;
        let mut j: usize = 1;
        while j < work.len()
            invariant
                m < j || (j <= 1 && m == 0),
                m < work.len(),
                j <= work.len(),
                workv == work.deep_view(),
                forall|l: int| 0 <= l < j ==> workv[m as int].end <= (#[trigger] workv[l]).end,
                forall|l: int| 0 <= l < m ==> (#[trigger] workv[l]).end > workv[m as int].end,
            decreases work.len() - j,
        {
            proof {
                assert(workv[j as int] == work@[j as int]@);
                assert(workv[m as int] == work@[m as int]@);
            }
            if work[j].end < work[m].end {
                m = j;
            }
            j += 1;
        }
        proof {
            lemma_min_end_at(workv, m as int);
        }
        let p = work.remove(m);
        let ghost prev = out.deep_view();
        out.push(p);
        taken += 1;
        proof {
            assert(out.deep_view() =~= prev.push(workv[m as int]));
            assert(work.deep_view() =~= workv.remove(m as int));
            assert(out.deep_view() + spec_k_smallest_by_end(work.deep_view(), count - taken)
                =~= spec_k_smallest_by_end(orig, count as int));
        }
    }
    proof {
        assert(spec_k_smallest_by_end(work.deep_view(), count - taken)
            =~= Seq::<ProgramModel>::empty());
        assert(out.deep_view() =~= spec_k_smallest_by_end(orig, count as int));
    }
    out
}

/// The full "now playing" listing at `t`: one entry per channel that still
/// has an eligible program, in channel id order.
pub open spec fn spec_get_at(m: DatabaseModel, t: int, count: int) -> Seq<EpgNowModel> {
    m.channels.map_values(|c: ChannelRowModel| spec_now_entry(m.live, c.id, t, count)).filter(
        |e: EpgNowModel| e.programs.len() > 0,
    )
}

/// Filtering a log whose instants are unique keeps them unique.
proof fn lemma_filter_log_unique(s: Seq<UpdateStatusModel>, pred: spec_fn(UpdateStatusModel) -> bool)
    requires
        log_times_unique(s),
    ensures
        log_times_unique(s.filter(pred)),
{
    let f = s.filter(pred);
    assert forall|i: int, j: int| 0 <= i < j < f.len() implies f[i].time != f[j].time by {
        lemma_filter_index_order(s, pred, i, j);
        let a = choose|a: int|
            0 <= a < s.len() && s[a] == f[i] && exists|b: int| a < b < s.len() && s[b] == f[j];
        let b = choose|b: int| a < b < s.len() && s[b] == f[j];
        assert(s[a].time != s[b].time);
    }
}

/// The most recent update-log entry.
pub open spec fn spec_last_update(s: Seq<UpdateStatusModel>) -> Option<UpdateStatusModel>
    decreases s.len(),
{
    if s.len() == 0 {
        None
    } else {
        match spec_last_update(s.drop_last()) {
            None => Some(s.last()),
            Some(m) => if s.last().time >= m.time {
                Some(s.last())
            } else {
                Some(m)
            },
        }
    }
}

/// The first channel row carrying `alias`, if any.
pub open spec fn spec_find_alias(
    s: Seq<ChannelRowModel>,
    alias: Seq<char>,
) -> Option<ChannelRowModel>
    decreases s.len(),
{
    if s.len() == 0 {
        None
    } else if s[0].info.alias == alias {
        Some(s[0])
    } else {
        spec_find_alias(s.drop_first(), alias)
    }
}

/// The channel row with id `id`, if any.
pub open spec fn spec_find_id(s: Seq<ChannelRowModel>, id: int) -> Option<ChannelRowModel>
    decreases s.len(),
{
    if s.len() == 0 {
        None
    } else if s[0].id == id {
        Some(s[0])
    } else {
        spec_find_id(s.drop_first(), id)
    }
}

/// A scan that stops at the first match computes [`spec_find_id`].
proof fn lemma_find_id_at(s: Seq<ChannelRowModel>, id: int, i: int)
    requires
        0 <= i < s.len(),
        s[i].id == id,
        forall|j: int| 0 <= j < i ==> (#[trigger] s[j]).id != id,
    ensures
        spec_find_id(s, id) == Some(s[i]),
    decreases s.len(),
{
    if i > 0 {
        let t = s.drop_first();
        assert(forall|j: int| 0 <= j < t.len() ==> t[j] == s[j + 1]);
        lemma_find_id_at(t, id, i - 1);
    }
}

/// A scan that finds no match leaves [`spec_find_id`] empty.
proof fn lemma_find_id_none(s: Seq<ChannelRowModel>, id: int)
    requires
        forall|j: int| 0 <= j < s.len() ==> (#[trigger] s[j]).id != id,
    ensures
        spec_find_id(s, id) is None,
    decreases s.len(),
{
    if s.len() > 0 {
        let t = s.drop_first();
        assert(forall|j: int| 0 <= j < t.len() ==> t[j] == s[j + 1]);
        lemma_find_id_none(t, id);
    }
}

/// A scan that stops at the first match computes [`spec_find_alias`].
proof fn lemma_find_alias_at(s: Seq<ChannelRowModel>, alias: Seq<char>, i: int)
    requires
        0 <= i < s.len(),
        s[i].info.alias == alias,
        forall|j: int| 0 <= j < i ==> s[j].info.alias != alias,
    ensures
        spec_find_alias(s, alias) == Some(s[i]),
    decreases s.len(),
{
    if i > 0 {
        let t = s.drop_first();
        assert(forall|j: int| 0 <= j < t.len() ==> t[j] == s[j + 1]);
        lemma_find_alias_at(t, alias, i - 1);
    }
}

/// A scan that finds no match leaves [`spec_find_alias`] empty.
proof fn lemma_find_alias_none(s: Seq<ChannelRowModel>, alias: Seq<char>)
    requires
        forall|j: int| 0 <= j < s.len() ==> s[j].info.alias != alias,
    ensures
        spec_find_alias(s, alias) is None,
    decreases s.len(),
{
    if s.len() > 0 {
        let t = s.drop_first();
        assert(forall|j: int| 0 <= j < t.len() ==> t[j] == s[j + 1]);
        lemma_find_alias_none(t, alias);
    }
}

impl ProgramsDatabase {
    /// Assigns the next free id to a newly seen channel and appends its row,
    /// returning the assigned id — or nothing, leaving the store unchanged,
    /// in the degenerate case that the id space is exhausted.
    pub fn insert_channel(&mut self, info: &ChannelInfo) -> (r: Option<i64>)
        requires
            old(self).wf(),
            forall|j: int|
                0 <= j < old(self)@.channels.len() ==> old(self)@.channels[j].info.alias
                    != info@.alias,
        ensures
            final(self).wf(),
            final(self)@.live == old(self)@.live,
            final(self)@.staging == old(self)@.staging,
            final(self)@.log == old(self)@.log,
            spec_next_id(old(self)@.channels) <= i64::MAX ==> r == Some(
                spec_next_id(old(self)@.channels) as i64,
            ) && final(self)@.channels == old(self)@.channels.push(
                ChannelRowModel { id: spec_next_id(old(self)@.channels), info: info@ },
            ),
            spec_next_id(old(self)@.channels) > i64::MAX ==> r is None && final(self)@.channels
                == old(self)@.channels,
    {
        let id: i64 = if self.channels.len() == 0 {
            1
        } else {
            proof {
                assert(self@.channels.last() == self.channels@[self.channels@.len() - 1]@);
            }
            let last = self.channels[self.channels.len() - 1].id;
            if last == i64::MAX {
                return None;
            }
            last + 1
        };
        let ghost prev = self@.channels;
        self.channels.push(ChannelRow { id, info: info.clone() });
        proof {
            assert(self@.channels =~= prev.push(ChannelRowModel { id: id as int, info: info@ }));
        }
        Some(id)
    }

    /// Stages one program row for the in-flight ingest run.
    pub fn insert_program(&mut self, channel_id: i64, program: &Program)
        requires
            old(self).wf(),
        ensures
            final(self).wf(),
            final(self)@.staging == old(self)@.staging.push(
                ProgramRowModel { channel: channel_id as int, program: program@ },
            ),
            final(self)@.channels == old(self)@.channels,
            final(self)@.live == old(self)@.live,
            final(self)@.log == old(self)@.log,
    {
        let ghost prev = self@.staging;
        self.staging.push(ProgramRow { channel: channel_id, program: program.clone() });
        proof {
            assert(self@.staging =~= prev.push(
                ProgramRowModel { channel: channel_id as int, program: program@ },
            ));
        }
    }

    /// Empties the staging table, as the start of an ingest run does to
    /// leftovers of a crashed run.
    pub fn clear_staging(&mut self)
        requires
            old(self).wf(),
        ensures
            final(self).wf(),
            final(self)@.staging == Seq::<ProgramRowModel>::empty(),
            final(self)@.channels == old(self)@.channels,
            final(self)@.live == old(self)@.live,
            final(self)@.log == old(self)@.log,
    {
        self.staging = Vec::new();
        proof {
            assert(self@.staging =~= Seq::<ProgramRowModel>::empty());
        }
    }

    /// Deletes every live program that ended before `timestamp` — the
    /// retention pruning step.
    #[verifier::loop_isolation(false)]
    pub fn delete_before(&mut self, timestamp: i64)
        requires
            old(self).wf(),
        ensures
            final(self).wf(),
            final(self)@.live == spec_prune(old(self)@.live, timestamp as int),
            final(self)@.channels == old(self)@.channels,
            final(self)@.staging == old(self)@.staging,
            final(self)@.log == old(self)@.log,
    {
        let ghost pred = |r: ProgramRowModel| r.program.end >= timestamp as int;
        let mut kept: Vec<ProgramRow> = Vec::new();
        let mut i: usize = 0;
        while i < self.programs.len()
            invariant
                i <= self.programs.len(),
                kept.deep_view() == self@.live.take(i as int).filter(
                    |r: ProgramRowModel| r.program.end >= timestamp as int,
                ),
            decreases self.programs.len() - i,
        {
            let row = &self.programs[i];
            proof {
                assert(self@.live.take(i as int + 1).drop_last() =~= self@.live.take(i as int));
                assert(self@.live.take(i as int + 1) =~= self@.live.take(i as int).push(row@));
                lemma_filter_push(
                    self@.live.take(i as int),
                    row@,
                    |r: ProgramRowModel| r.program.end >= timestamp as int,
                );
            }
            if row.program.end >= timestamp {
                let keep = row.clone();
                let ghost prev = kept.deep_view();
                kept.push(keep);
                proof {
                    assert(kept.deep_view() =~= prev.push(row@));
                }
            }
            i += 1;
        }
        proof {
            assert(self@.live.take(self.programs.len() as int) =~= self@.live);
        }
        self.programs = kept;
    }

    /// Deletes every channel with no remaining live program — the garbage
    /// collection step.
    #[verifier::loop_isolation(false)]
    pub fn clear_channels(&mut self)
        requires
            old(self).wf(),
        ensures
            final(self).wf(),
            final(self)@.channels == spec_gc(old(self)@.channels, old(self)@.live),
            final(self)@.live == old(self)@.live,
            final(self)@.staging == old(self)@.staging,
            final(self)@.log == old(self)@.log,
    {
        let ghost pred = |c: ChannelRowModel| spec_has_channel(self@.live, c.id);
        let mut kept: Vec<ChannelRow> = Vec::new();
        let mut i: usize = 0;
        while i < self.channels.len()
            invariant
                i <= self.channels.len(),
                kept.deep_view() == self@.channels.take(i as int).filter(pred),
            decreases self.channels.len() - i,
        {
            let row = &self.channels[i];
            proof {
                assert(self@.channels.take(i as int + 1).drop_last() =~= self@.channels.take(
                    i as int,
                ));
                assert(self@.channels.take(i as int + 1) =~= self@.channels.take(i as int).push(
                    row@,
                ));
                lemma_filter_push(self@.channels.take(i as int), row@, pred);
            }
            if self.has_live_program(row.id) {
                let keep = row.clone();
                let ghost prev = kept.deep_view();
                kept.push(keep);
                proof {
                    assert(kept.deep_view() =~= prev.push(row@));
                }
            }
            i += 1;
        }
        proof {
            assert(self@.channels.take(self.channels.len() as int) =~= self@.channels);
            lemma_filter_channels_wf(self@.channels, pred);
        }
        self.channels = kept;
    }

    /// Whether any live row belongs to channel `c`.
    #[verifier::loop_isolation(false)]
    fn has_live_program(&self, c: i64) -> (r: bool)
        ensures
            r == spec_has_channel(self@.live, c as int),
    {
        let mut i: usize = 0;
        while i < self.programs.len()
            invariant
                i <= self.programs.len(),
                forall|j: int| 0 <= j < i ==> (#[trigger] self@.live[j]).channel != c as int,
            decreases self.programs.len() - i,
        {
            if self.programs[i].channel == c {
                proof {
                    assert((self@.live[i as int]).channel == c as int);
                }
                return true;
            }
            i += 1;
        }
        false
    }

    /// The earliest staged `begin` for channel `c`: `(true, min)` when the
    /// staging table mentions `c`, `(false, _)` otherwise.
    #[verifier::loop_isolation(false)]
    fn staging_min_begin(&self, c: i64) -> (r: (bool, i64))
        ensures
            r.0 == spec_has_channel(self@.staging, c as int),
            r.0 ==> r.1 as int == spec_min_begin(self@.staging, c as int),
    {
        let mut found = false;
        let mut minb: i64 = 0;
        let mut i: usize = 0;
        while i < self.staging.len()
            invariant
                i <= self.staging.len(),
                found == spec_has_channel(self@.staging.take(i as int), c as int),
                found ==> minb as int == spec_min_begin(self@.staging.take(i as int), c as int),
            decreases self.staging.len() - i,
        {
            let row = &self.staging[i];
            proof {
                assert(self@.staging.take(i as int + 1).drop_last() =~= self@.staging.take(
                    i as int,
                ));
                assert(self@.staging.take(i as int + 1) =~= self@.staging.take(i as int).push(
                    row@,
                ));
            }
            if row.channel == c {
                if !found || row.program.begin < minb {
                    minb = row.program.begin;
                }
                found = true;
                proof {
                    assert(spec_has_channel(self@.staging.take(i as int + 1), c as int)) by {
                        assert((self@.staging.take(i as int + 1)[i as int]).channel == c as int);
                    }
                }
            } else {
                proof {
                    if !found {
                        assert(!spec_has_channel(self@.staging.take(i as int + 1), c as int)) by {
                            assert forall|j: int|
                                0 <= j < i + 1 implies (#[trigger] self@.staging.take(
                                i as int + 1,
                            )[j]).channel != c as int by {
                                if j < i {
                                    assert(!spec_has_channel(
                                        self@.staging.take(i as int),
                                        c as int,
                                    ));
                                    assert(self@.staging.take(i as int)[j]
                                        == self@.staging.take(i as int + 1)[j]);
                                }
                            }
                        }
                    }
                }
            }
            i += 1;
        }
        proof {
            assert(self@.staging.take(self.staging.len() as int) =~= self@.staging);
        }
        (found, minb)
    }

    /// The staged-to-live merge.  For each channel present in staging, live
    /// rows from the earliest staged `begin` onward are deleted; then all
    /// staged rows move to the live table, and staging is left empty.
    #[verifier::loop_isolation(false)]
    pub fn append_programs(&mut self)
        requires
            old(self).wf(),
        ensures
            final(self).wf(),
            final(self)@.live == spec_merge(old(self)@.live, old(self)@.staging),
            final(self)@.staging == Seq::<ProgramRowModel>::empty(),
            final(self)@.channels == old(self)@.channels,
            final(self)@.log == old(self)@.log,
    {
        let ghost stg = self@.staging;
        let ghost pred = |r: ProgramRowModel| spec_merge_keeps(stg, r);
        let mut kept: Vec<ProgramRow> = Vec::new();
        let mut i: usize = 0;
        while i < self.programs.len()
            invariant
                i <= self.programs.len(),
                kept.deep_view() == self@.live.take(i as int).filter(pred),
            decreases self.programs.len() - i,
        {
            let row = &self.programs[i];
            proof {
                assert(self@.live.take(i as int + 1).drop_last() =~= self@.live.take(i as int));
                assert(self@.live.take(i as int + 1) =~= self@.live.take(i as int).push(row@));
                lemma_filter_push(self@.live.take(i as int), row@, pred);
            }
            let (found, minb) = self.staging_min_begin(row.channel);
            if !found || row.program.begin < minb {
                let keep = row.clone();
                let ghost prev = kept.deep_view();
                kept.push(keep);
                proof {
                    assert(kept.deep_view() =~= prev.push(row@));
                }
            }
            i += 1;
        }
        proof {
            assert(self@.live.take(self.programs.len() as int) =~= self@.live);
        }
        // Move every staged row to the live table, in staging order.
        let mut j: usize = 0;
        while j < self.staging.len()
            invariant
                j <= self.staging.len(),
                self@.staging == stg,
                kept.deep_view() == self@.live.filter(pred) + stg.take(j as int),
            decreases self.staging.len() - j,
        {
            let row = self.staging[j].clone();
            let ghost prev = kept.deep_view();
            kept.push(row);
            proof {
                assert(kept.deep_view() =~= prev.push(stg[j as int]));
                assert(self@.live.filter(pred) + stg.take(j as int + 1) =~= prev.push(
                    stg[j as int],
                ));
            }
            j += 1;
        }
        proof {
            assert(kept.deep_view() =~= self@.live.filter(pred) + stg);
        }
        self.programs = kept;
        self.staging = Vec::new();
        proof {
            assert(self@.staging =~= Seq::<ProgramRowModel>::empty());
        }
    }

    /// The programs of channel `id` beginning in `[from, to)`, in table
    /// order.
    #[verifier::loop_isolation(false)]
    pub fn get_range(&self, id: i64, from: i64, to: i64) -> (r: Vec<Program>)
        ensures
            r.deep_view() == spec_range(self@.live, id as int, from as int, to as int),
    {
        let ghost pred = |row: ProgramRowModel| row.channel == id as int && from as int
            <= row.program.begin && row.program.begin < to as int;
        let mut r: Vec<Program> = Vec::new();
        let mut i: usize = 0;
        while i < self.programs.len()
            invariant
                i <= self.programs.len(),
                r.deep_view() == self@.live.take(i as int).filter(pred).map_values(
                    |row: ProgramRowModel| row.program,
                ),
            decreases self.programs.len() - i,
        {
            let row = &self.programs[i];
            proof {
                assert(self@.live.take(i as int + 1).drop_last() =~= self@.live.take(i as int));
                assert(self@.live.take(i as int + 1) =~= self@.live.take(i as int).push(row@));
                lemma_filter_push(self@.live.take(i as int), row@, pred);
            }
            if row.channel == id && from <= row.program.begin && row.program.begin < to {
                let keep = row.program.clone();
                let ghost prev = r.deep_view();
                r.push(keep);
                proof {
                    assert(r.deep_view() =~= prev.push(row@.program));
                    assert(self@.live.take(i as int + 1).filter(pred).map_values(
                        |row: ProgramRowModel| row.program,
                    ) =~= prev.push(row@.program));
                }
            } else {
                proof {
                    assert(self@.live.take(i as int + 1).filter(pred).map_values(
                        |row: ProgramRowModel| row.program,
                    ) =~= r.deep_view());
                }
            }
            i += 1;
        }
        proof {
            assert(self@.live.take(self.programs.len() as int) =~= self@.live);
        }
        r
    }

    /// The most recent update-log entry, if the log is non-empty.
    #[verifier::loop_isolation(false)]
    pub fn get_last_update(&self) -> (r: Option<UpdateStatus>)
        ensures
            match r {
                Some(st) => spec_last_update(self@.log) == Some(st@),
                None => spec_last_update(self@.log) is None,
            },
    {
        let mut best: Option<UpdateStatus> = None;
        let mut i: usize = 0;
        while i < self.update_log.len()
            invariant
                i <= self.update_log.len(),
                match best {
                    Some(st) => spec_last_update(self@.log.take(i as int)) == Some(st@),
                    None => spec_last_update(self@.log.take(i as int)) is None,
                },
            decreases self.update_log.len() - i,
        {
            let entry = &self.update_log[i];
            proof {
                assert(self@.log.take(i as int + 1).drop_last() =~= self@.log.take(i as int));
                assert(self@.log.take(i as int + 1) =~= self@.log.take(i as int).push(entry@));
            }
            best = match best {
                None => Some(entry.clone()),
                Some(st) => if entry.time >= st.time {
                    Some(entry.clone())
                } else {
                    Some(st)
                },
            };
            i += 1;
        }
        proof {
            assert(self@.log.take(self.update_log.len() as int) =~= self@.log);
        }
        best
    }

    /// Records one ingest attempt, replacing any entry made at the same
    /// instant.
    #[verifier::loop_isolation(false)]
    pub fn insert_update_status(&mut self, entry: UpdateStatus)
        requires
            old(self).wf(),
        ensures
            final(self).wf(),
            final(self)@.log == old(self)@.log.filter(
                |e: UpdateStatusModel| e.time != entry@.time,
            ).push(entry@),
            final(self)@.channels == old(self)@.channels,
            final(self)@.live == old(self)@.live,
            final(self)@.staging == old(self)@.staging,
    {
        let ghost pred = |e: UpdateStatusModel| e.time != entry@.time;
        let mut kept: Vec<UpdateStatus> = Vec::new();
        let mut i: usize = 0;
        while i < self.update_log.len()
            invariant
                i <= self.update_log.len(),
                kept.deep_view() == self@.log.take(i as int).filter(pred),
            decreases self.update_log.len() - i,
        {
            let e = &self.update_log[i];
            proof {
                assert(self@.log.take(i as int + 1).drop_last() =~= self@.log.take(i as int));
                assert(self@.log.take(i as int + 1) =~= self@.log.take(i as int).push(e@));
                lemma_filter_push(self@.log.take(i as int), e@, pred);
            }
            if e.time != entry.time {
                let keep = e.clone();
                let ghost prev = kept.deep_view();
                kept.push(keep);
                proof {
                    assert(kept.deep_view() =~= prev.push(e@));
                }
            }
            i += 1;
        }
        proof {
            assert(self@.log.take(self.update_log.len() as int) =~= self@.log);
            lemma_filter_members(self@.log, pred);
            lemma_filter_log_unique(self@.log, pred);
        }
        let ghost prev = kept.deep_view();
        kept.push(entry);
        proof {
            assert(kept.deep_view() =~= prev.push(entry@));
        }
        self.update_log = kept;
    }

    /// The programs of channel `id` that end after `t`, in table order.
    #[verifier::loop_isolation(false)]
    fn eligible_programs(&self, id: i64, t: i64) -> (r: Vec<Program>)
        ensures
            r.deep_view() == spec_eligible(self@.live, id as int, t as int),
    {
        let ghost pred = |row: ProgramRowModel| row.channel == id as int && row.program.end
            > t as int;
        let mut r: Vec<Program> = Vec::new();
        let mut i: usize = 0;
        while i < self.programs.len()
            invariant
                i <= self.programs.len(),
                r.deep_view() == self@.live.take(i as int).filter(pred).map_values(
                    |row: ProgramRowModel| row.program,
                ),
            decreases self.programs.len() - i,
        {
            let row = &self.programs[i];
            proof {
                assert(self@.live.take(i as int + 1).drop_last() =~= self@.live.take(i as int));
                assert(self@.live.take(i as int + 1) =~= self@.live.take(i as int).push(row@));
                lemma_filter_push(self@.live.take(i as int), row@, pred);
            }
            if row.channel == id && row.program.end > t {
                let keep = row.program.clone();
                let ghost prev = r.deep_view();
                r.push(keep);
                proof {
                    assert(r.deep_view() =~= prev.push(row@.program));
                    assert(self@.live.take(i as int + 1).filter(pred).map_values(
                        |row: ProgramRowModel| row.program,
                    ) =~= prev.push(row@.program));
                }
            } else {
                proof {
                    assert(self@.live.take(i as int + 1).filter(pred).map_values(
                        |row: ProgramRowModel| row.program,
                    ) =~= r.deep_view());
                }
            }
            i += 1;
        }
        proof {
            assert(self@.live.take(self.programs.len() as int) =~= self@.live);
        }
        r
    }

    /// The "now playing" listing at `timestamp`: for every channel that
    /// still has a program ending after `timestamp`, its `count` such
    /// programs that end soonest, earliest end first — one entry per
    /// channel, in channel id order.
    #[verifier::loop_isolation(false)]
    pub fn get_at(&self, timestamp: i64, count: usize) -> (r: Vec<EpgNow>)
        ensures
            r.deep_view() == spec_get_at(self@, timestamp as int, count as int),
    {
        let ghost keepnow = |e: EpgNowModel| e.programs.len() > 0;
        let ghost mapfn = |c: ChannelRowModel| spec_now_entry(
            self@.live,
            c.id,
            timestamp as int,
            count as int,
        );
        let mut r: Vec<EpgNow> = Vec::new();
        let mut i: usize = 0;
        while i < self.channels.len()
            invariant
                i <= self.channels.len(),
                r.deep_view() == self@.channels.take(i as int).map_values(mapfn).filter(keepnow),
            decreases self.channels.len() - i,
        {
            let row = &self.channels[i];
            let mut progs = self.eligible_programs(row.id, timestamp);
            proof {
                assert(self@.channels.take(i as int + 1).map_values(mapfn).drop_last()
                    =~= self@.channels.take(i as int).map_values(mapfn));
                assert(self@.channels.take(i as int + 1).map_values(mapfn)
                    =~= self@.channels.take(i as int).map_values(mapfn).push(mapfn(row@)));
                lemma_filter_push(
                    self@.channels.take(i as int).map_values(mapfn),
                    mapfn(row@),
                    keepnow,
                );
            }
            let progs = k_smallest_by_end(progs, count);
            if progs.len() > 0 {
                let ghost prev = r.deep_view();
                r.push(EpgNow { channel_id: row.id, programs: progs });
                proof {
                    assert(r.deep_view() =~= prev.push(mapfn(row@)));
                }
            }
            i += 1;
        }
        proof {
            assert(self@.channels.take(self.channels.len() as int) =~= self@.channels);
        }
        r
    }

    /// Looks a channel up by its id.
    #[verifier::loop_isolation(false)]
    pub fn find_channel(&self, id: i64) -> (r: Option<ChannelInfo>)
        ensures
            match r {
                Some(c) => spec_find_id(self@.channels, id as int) matches Some(row) && row.info
                    == c@,
                None => spec_find_id(self@.channels, id as int) is None,
            },
    {
        let mut i: usize = 0;
        while i < self.channels.len()
            invariant
                i <= self.channels.len(),
                forall|j: int| 0 <= j < i ==> (#[trigger] self@.channels[j]).id != id as int,
            decreases self.channels.len() - i,
        {
            let row = &self.channels[i];
            proof {
                assert(self@.channels[i as int] == self.channels@[i as int]@);
            }
            if row.id == id {
                proof {
                    lemma_find_id_at(self@.channels, id as int, i as int);
                }
                return Some(row.info.clone());
            }
            i += 1;
        }
        proof {
            lemma_find_id_none(self@.channels, id as int);
        }
        None
    }

    /// Looks a channel up by its alias.
    #[verifier::loop_isolation(false)]
    pub fn get_channel_by_alias(&self, alias: &String) -> (r: Option<(i64, ChannelInfo)>)
        ensures
            match r {
                Some(p) => spec_find_alias(self@.channels, alias@) == Some(
                    ChannelRowModel { id: p.0 as int, info: p.1@ },
                ),
                None => spec_find_alias(self@.channels, alias@) is None,
            },
    {
        let mut i: usize = 0;
        while i < self.channels.len()
            invariant
                i <= self.channels.len(),
                forall|j: int| 0 <= j < i ==> (#[trigger] self@.channels[j]).info.alias != alias@,
            decreases self.channels.len() - i,
        {
            let row = &self.channels[i];
            if str_eq(&row.info.alias, alias) {
                proof {
                    lemma_find_alias_at(self@.channels, alias@, i as int);
                }
                return Some((row.id, row.info.clone()));
            }
            i += 1;
        }
        proof {
            lemma_find_alias_none(self@.channels, alias@);
        }
        None
    }
}

} // verus!
