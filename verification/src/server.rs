//! The engine: the store behind a read-through cache for the "now playing"
//! query.
//!
//! The cache holds one snapshot of the per-channel "now and next" lists,
//! valid for the window of instants on which every channel's leading
//! program is the same.  A query inside the window is served from the
//! snapshot; any other query rebuilds the snapshot from the store.  Every
//! ingest run clears the snapshot outright: its merge and prune move the
//! store even when the parse fails partway.

use vstd::prelude::*;

use crate::db::{spec_get_at, spec_range, DatabaseModel, ProgramsDatabase};
use crate::epg::{ChannelInfo, EpgNow, EpgNowModel, Program};
use crate::ingest::spec_ingest;
use crate::text::str_le;
use crate::xmltv::{ParseError, XmltvReader};

verus! {

/// Mathematical image of a [`LiveCache`].
#[verifier::ext_equal]
pub struct CacheModel {
    pub data: Seq<EpgNowModel>,
    pub begin: int,
    pub end: int,
}

/// The cached "now playing" snapshot with its validity window.
pub struct LiveCache {
    data: Vec<EpgNow>,
    begin: i64,
    end: i64,
}

impl View for LiveCache {
    type V = CacheModel;

    closed spec fn view(&self) -> CacheModel {
        CacheModel { data: self.data.deep_view(), begin: self.begin as int, end: self.end as int }
    }
}

/// The empty snapshot.
pub open spec fn spec_empty_cache() -> CacheModel {
    CacheModel { data: Seq::<EpgNowModel>::empty(), begin: 0, end: 0 }
}

/// The latest `begin` among the leading programs of the snapshot's
/// channels; nothing when no channel has one.
pub open spec fn spec_leading_begin(data: Seq<EpgNowModel>) -> Option<int>
    decreases data.len(),
{
    if data.len() == 0 {
        None
    } else {
        let rest = spec_leading_begin(data.drop_last());
        if data.last().programs.len() > 0 {
            let b = data.last().programs[0].begin;
            match rest {
                None => Some(b),
                Some(m) => Some(
                    if b >= m {
                        b
                    } else {
                        m
                    },
                ),
            }
        } else {
            rest
        }
    }
}

/// The earliest `end` among the leading programs of the snapshot's
/// channels; nothing when no channel has one.
pub open spec fn spec_leading_end(data: Seq<EpgNowModel>) -> Option<int>
    decreases data.len(),
{
    if data.len() == 0 {
        None
    } else {
        let rest = spec_leading_end(data.drop_last());
        if data.last().programs.len() > 0 {
            let e = data.last().programs[0].end;
            match rest {
                None => Some(e),
                Some(m) => Some(
                    if e <= m {
                        e
                    } else {
                        m
                    },
                ),
            }
        } else {
            rest
        }
    }
}

/// The snapshot built over `data`: the window is the intersection of the
/// channels' leading programs, and zero when no channel has one.
pub open spec fn spec_built_cache(data: Seq<EpgNowModel>) -> CacheModel {
    CacheModel {
        data,
        begin: match spec_leading_begin(data) {
            Some(b) => b,
            None => 0,
        },
        end: match spec_leading_end(data) {
            Some(e) => e,
            None => 0,
        },
    }
}

/// Whether the snapshot answers queries at `t` by itself.
pub open spec fn spec_cache_valid(c: CacheModel, t: int) -> bool {
    c.begin <= t <= c.end && c.data.len() > 0
}

/// The snapshot's first entry for channel `id`.
pub open spec fn spec_cache_entry(data: Seq<EpgNowModel>, id: int) -> Option<EpgNowModel>
    decreases data.len(),
{
    if data.len() == 0 {
        None
    } else if data[0].channel_id == id {
        Some(data[0])
    } else {
        spec_cache_entry(data.drop_first(), id)
    }
}

/// What a query returns from a snapshot: the whole snapshot, or, for a
/// requested id list, the entries of the requested channels in the
/// requested order, those absent left out.
pub open spec fn spec_serve(data: Seq<EpgNowModel>, ids: Option<Seq<i64>>) -> Seq<EpgNowModel>
    decreases (match ids {
        Some(list) => list.len(),
        None => 0,
    }),
{
    match ids {
        None => data,
        Some(list) => if list.len() == 0 {
            Seq::<EpgNowModel>::empty()
        } else {
            spec_serve(data, Some(list.drop_last())) + (match spec_cache_entry(
                data,
                list.last() as int,
            ) {
                Some(e) => seq![e],
                None => Seq::<EpgNowModel>::empty(),
            })
        },
    }
}

/// A scan that stops at the first entry computes [`spec_cache_entry`].
proof fn lemma_cache_entry_at(data: Seq<EpgNowModel>, id: int, i: int)
    requires
        0 <= i < data.len(),
        data[i].channel_id == id,
        forall|j: int| 0 <= j < i ==> data[j].channel_id != id,
    ensures
        spec_cache_entry(data, id) == Some(data[i]),
    decreases data.len(),
{
    if i > 0 {
        let t = data.drop_first();
        assert(forall|j: int| 0 <= j < t.len() ==> t[j] == data[j + 1]);
        lemma_cache_entry_at(t, id, i - 1);
    }
}

/// A scan that finds no entry leaves [`spec_cache_entry`] empty.
proof fn lemma_cache_entry_none(data: Seq<EpgNowModel>, id: int)
    requires
        forall|j: int| 0 <= j < data.len() ==> data[j].channel_id != id,
    ensures
        spec_cache_entry(data, id) is None,
    decreases data.len(),
{
    if data.len() > 0 {
        let t = data.drop_first();
        assert(forall|j: int| 0 <= j < t.len() ==> t[j] == data[j + 1]);
        lemma_cache_entry_none(t, id);
    }
}

impl LiveCache {
    /// An empty cache.
    pub fn new() -> (r: Self)
        ensures
            r@ == spec_empty_cache(),
    {
        let r = LiveCache { data: Vec::new(), begin: 0, end: 0 };
        proof {
            assert(r@ =~= spec_empty_cache());
        }
        r
    }

    /// Whether the snapshot answers queries at `t` by itself.
    pub fn contains_time(&self, t: i64) -> (r: bool)
        ensures
            r == spec_cache_valid(self@, t as int),
    {
        self.begin <= t && t <= self.end && self.data.len() > 0
    }

    /// Installs a freshly computed snapshot and its validity window.
    #[verifier::loop_isolation(false)]
    pub fn set_data(&mut self, data: Vec<EpgNow>)
        ensures
            final(self)@ == spec_built_cache(data.deep_view()),
    {
        let ghost dv = data.deep_view();
        let mut begin: i64 = 0;
        let mut end: i64 = 0;
        let mut got: bool = false;
        let mut i: usize = 0;
        while i < data.len()
            invariant
                i <= data@.len(),
                dv == data.deep_view(),
                got == (spec_leading_begin(dv.take(i as int)) is Some),
                got == (spec_leading_end(dv.take(i as int)) is Some),
                got ==> spec_leading_begin(dv.take(i as int)) == Some(begin as int)
                    && spec_leading_end(dv.take(i as int)) == Some(end as int),
                !got ==> begin == 0 && end == 0,
            decreases data@.len() - i,
        {
            let entry = &data[i];
            proof {
                assert(dv[i as int] == data@[i as int]@);
                assert(dv.take(i as int + 1).drop_last() =~= dv.take(i as int));
            }
            if entry.programs.len() > 0 {
                let b = entry.programs[0].begin;
                let e = entry.programs[0].end;
                proof {
                    assert(dv[i as int].programs[0] == data@[i as int].programs@[0]@);
                }
                if !got {
                    begin = b;
                    end = e;
                    got = true;
                } else {
                    if b >= begin {
                        begin = b;
                    }
                    if e <= end {
                        end = e;
                    }
                }
            }
            i += 1;
        }
        proof {
            assert(dv.take(data@.len() as int) =~= dv);
            assert(spec_leading_begin(dv) == (if got {
                Some(begin as int)
            } else {
                None::<int>
            }));
            assert(spec_leading_end(dv) == (if got {
                Some(end as int)
            } else {
                None::<int>
            }));
        }
        self.data = data;
        self.begin = begin;
        self.end = end;
        proof {
            assert(self@.data =~= dv);
            assert(self@ =~= spec_built_cache(dv));
        }
    }

    /// Forgets the snapshot.
    pub fn clear(&mut self)
        ensures
            final(self)@ == spec_empty_cache(),
    {
        self.data = Vec::new();
        self.begin = 0;
        self.end = 0;
        proof {
            assert(self@ =~= spec_empty_cache());
        }
    }

    /// Serves a query from the snapshot.
    #[verifier::loop_isolation(false)]
    pub fn serve(&self, ids: Option<&Vec<i64>>) -> (r: Vec<EpgNow>)
        ensures
            r.deep_view() == spec_serve(
                self@.data,
                match ids {
                    Some(v) => Some(v@),
                    None => None,
                },
            ),
    {
        match ids {
            None => {
                let mut r: Vec<EpgNow> = Vec::new();
                let mut i: usize = 0;
                while i < self.data.len()
                    invariant
                        i <= self.data@.len(),
                        r@.len() == i,
                        forall|j: int| 0 <= j < i ==> #[trigger] r@[j]@ == self.data@[j]@,
                    decreases self.data@.len() - i,
                {
                    r.push(self.data[i].clone());
                    i += 1;
                }
                proof {
                    assert(r.deep_view() =~= self@.data);
                }
                r
            },
            Some(list) => {
                let mut r: Vec<EpgNow> = Vec::new();
                let mut i: usize = 0;
                while i < list.len()
                    invariant
                        i <= list@.len(),
                        r.deep_view() == spec_serve(self@.data, Some(list@.take(i as int))),
                    decreases list@.len() - i,
                {
                    proof {
                        assert(list@.take(i as int + 1).drop_last() =~= list@.take(i as int));
                        assert(list@.take(i as int + 1).last() == list@[i as int]);
                    }
                    match self.find_entry(list[i]) {
                        Some(e) => {
                            let ghost prev = r.deep_view();
                            r.push(e);
                            proof {
                                assert(r.deep_view() =~= prev.push(
                                    spec_cache_entry(self@.data, list@[i as int] as int).unwrap(),
                                ));
                                assert(r.deep_view() =~= spec_serve(
                                    self@.data,
                                    Some(list@.take(i as int + 1)),
                                ));
                            }
                        },
                        None => {
                            proof {
                                assert(r.deep_view() =~= spec_serve(
                                    self@.data,
                                    Some(list@.take(i as int + 1)),
                                ));
                            }
                        },
                    }
                    i += 1;
                }
                proof {
                    assert(list@.take(list@.len() as int) =~= list@);
                }
                r
            },
        }
    }

    /// The snapshot's entry for one channel.
    #[verifier::loop_isolation(false)]
    fn find_entry(&self, id: i64) -> (r: Option<EpgNow>)
        ensures
            match r {
                Some(e) => spec_cache_entry(self@.data, id as int) == Some(e@),
                None => spec_cache_entry(self@.data, id as int) is None,
            },
    {
        let mut i: usize = 0;
        while i < self.data.len()
            invariant
                i <= self.data@.len(),
                forall|j: int|
                    0 <= j < i ==> (#[trigger] self@.data[j]).channel_id != id as int,
            decreases self.data@.len() - i,
        {
            proof {
                assert(self@.data[i as int] == self.data@[i as int]@);
            }
            if self.data[i].channel_id == id {
                proof {
                    lemma_cache_entry_at(self@.data, id as int, i as int);
                }
                return Some(self.data[i].clone());
            }
            i += 1;
        }
        proof {
            lemma_cache_entry_none(self@.data, id as int);
        }
        None
    }
}

/// Mathematical image of an [`EpgServer`].
#[verifier::ext_equal]
pub struct ServerModel {
    pub db: DatabaseModel,
    pub cache: CacheModel,
}

/// The engine: the store and the snapshot cache.
pub struct EpgServer {
    db: ProgramsDatabase,
    cache: LiveCache,
}

impl View for EpgServer {
    type V = ServerModel;

    closed spec fn view(&self) -> ServerModel {
        ServerModel { db: self.db@, cache: self.cache@ }
    }
}

/// How many programs per channel the "now playing" snapshot carries: the
/// one airing and the next.
pub const NOW_COUNT: usize = 2;

/// What a "now playing" query at `t` is answered from: the valid snapshot,
/// or the freshly computed listing.
pub open spec fn spec_now_data(m: ServerModel, t: int) -> Seq<EpgNowModel> {
    if spec_cache_valid(m.cache, t) {
        m.cache.data
    } else {
        spec_get_at(m.db, t, NOW_COUNT as int)
    }
}

/// The snapshot left behind by a "now playing" query at `t`.
pub open spec fn spec_now_cache(m: ServerModel, t: int) -> CacheModel {
    if spec_cache_valid(m.cache, t) {
        m.cache
    } else {
        spec_built_cache(spec_get_at(m.db, t, NOW_COUNT as int))
    }
}

/// The id-ordered channel listing as plain pairs.
pub open spec fn spec_channel_pairs(channels: Seq<crate::db::ChannelRowModel>) -> Seq<
    (i64, crate::epg::ChannelInfoModel),
> {
    Seq::new(channels.len(), |j: int| (channels[j].id as i64, channels[j].info))
}

/// One channel pair placed into a name-ordered listing, after every pair
/// whose name comes no later: the insertion a stable sort repeats.
pub open spec fn spec_insert_by_name(
    s: Seq<(i64, crate::epg::ChannelInfoModel)>,
    p: (i64, crate::epg::ChannelInfoModel),
) -> Seq<(i64, crate::epg::ChannelInfoModel)>
    decreases s.len(),
{
    if s.len() == 0 {
        seq![p]
    } else if crate::text::spec_lex_le(s[0].1.name, p.1.name) {
        seq![s[0]] + spec_insert_by_name(s.drop_first(), p)
    } else {
        seq![p] + s
    }
}

/// The stable name-ordered rearrangement of a channel listing.
pub open spec fn spec_sort_by_name(s: Seq<(i64, crate::epg::ChannelInfoModel)>) -> Seq<
    (i64, crate::epg::ChannelInfoModel),
>
    decreases s.len(),
{
    if s.len() == 0 {
        Seq::<(i64, crate::epg::ChannelInfoModel)>::empty()
    } else {
        spec_insert_by_name(spec_sort_by_name(s.drop_last()), s.last())
    }
}

/// Inserting at the position between the no-later and the strictly-later
/// names is what [`spec_insert_by_name`] computes.
proof fn lemma_insert_by_name_at(
    s: Seq<(i64, crate::epg::ChannelInfoModel)>,
    p: (i64, crate::epg::ChannelInfoModel),
    pos: int,
)
    requires
        0 <= pos <= s.len(),
        forall|j: int|
            0 <= j < pos ==> crate::text::spec_lex_le((#[trigger] s[j]).1.name, p.1.name),
        forall|j: int|
            pos <= j < s.len() ==> !crate::text::spec_lex_le((#[trigger] s[j]).1.name, p.1.name),
    ensures
        spec_insert_by_name(s, p) == s.insert(pos, p),
    decreases s.len(),
{
    if s.len() == 0 {
        assert(spec_insert_by_name(s, p) =~= s.insert(pos, p));
    } else if crate::text::spec_lex_le(s[0].1.name, p.1.name) {
        assert(pos >= 1);
        let t = s.drop_first();
        assert(forall|j: int| 0 <= j < t.len() ==> t[j] == s[j + 1]);
        lemma_insert_by_name_at(t, p, pos - 1);
        assert(spec_insert_by_name(s, p) =~= s.insert(pos, p));
    } else {
        assert(pos == 0);
        assert(spec_insert_by_name(s, p) =~= s.insert(0, p));
    }
}

impl EpgServer {
    /// The store's shape invariant, carried through the engine.
    pub open spec fn wf(&self) -> bool {
        self.db_wf_holds()
    }

    /// Whether the store's invariant holds.
    pub closed spec fn db_wf_holds(&self) -> bool {
        self.db.wf()
    }

    /// An engine over an empty store.
    pub fn new() -> (r: Self)
        ensures
            r.wf(),
            r@.db.channels == Seq::<crate::db::ChannelRowModel>::empty(),
            r@.db.live == Seq::<crate::db::ProgramRowModel>::empty(),
            r@.db.staging == Seq::<crate::db::ProgramRowModel>::empty(),
            r@.db.log == Seq::<crate::update_status::UpdateStatusModel>::empty(),
            r@.cache == spec_empty_cache(),
    {
        EpgServer { db: ProgramsDatabase::open(), cache: LiveCache::new() }
    }

    /// One ingest run over a feed document.  The store moves as the ingest
    /// protocol says for the records the document yields — the staged
    /// prefix is merged even when the parse fails partway — and the
    /// snapshot is dropped unconditionally, since the merge and prune ran
    /// either way.
    pub fn update_data(&mut self, xmltv: &mut XmltvReader, now: i64, retention: i64) -> (r: Result<
        (),
        ParseError,
    >)
        requires
            old(self).wf(),
            old(xmltv).wf(),
            0 <= retention,
            i64::MIN <= now as int - retention as int,
        ensures
            final(self).wf(),
            final(xmltv).wf(),
            final(xmltv).doc() == old(xmltv).doc(),
            ({
                let (items, fail) = crate::xmltv::spec_reader_drain(
                    old(xmltv).doc(),
                    old(xmltv).cursor(),
                    old(xmltv).machine(),
                );
                &&& final(self)@.db == spec_ingest(
                    old(self)@.db,
                    items,
                    now as int - retention as int,
                )
                &&& match r {
                    Ok(()) => fail is None,
                    Err(e) => fail == Some(e),
                }
            }),
            final(self)@.cache == spec_empty_cache(),
    {
        let r = self.db.load_xmltv(xmltv, now, retention);
        self.cache.clear();
        r
    }

    /// The "now playing" listing at `time`, optionally narrowed to the
    /// requested channel ids: served from the snapshot when its window
    /// covers `time`, rebuilt from the store otherwise.
    pub fn get_now(&mut self, time: i64, ids: Option<&Vec<i64>>) -> (r: Vec<EpgNow>)
        requires
            old(self).wf(),
        ensures
            final(self).wf(),
            final(self)@.db == old(self)@.db,
            final(self)@.cache == spec_now_cache(old(self)@, time as int),
            r.deep_view() == spec_serve(
                spec_now_data(old(self)@, time as int),
                match ids {
                    Some(v) => Some(v@),
                    None => None,
                },
            ),
    {
        if self.cache.contains_time(time) {
            self.cache.serve(ids)
        } else {
            let data = self.db.get_at(time, NOW_COUNT);
            self.cache.set_data(data);
            self.cache.serve(ids)
        }
    }

    /// The programs of channel `id` beginning in `[from, to)`.
    pub fn get_range(&self, id: i64, from: i64, to: i64) -> (r: Vec<Program>)
        ensures
            r.deep_view() == spec_range(self@.db.live, id as int, from as int, to as int),
    {
        self.db.get_range(id, from, to)
    }

    /// Every channel with its id, in id order.
    pub fn list_channels(&self) -> (r: Vec<(i64, ChannelInfo)>)
        ensures
            r@.len() == self@.db.channels.len(),
            forall|j: int|
                0 <= j < r@.len() ==> #[trigger] r@[j].0 as int == self@.db.channels[j].id
                    && r@[j].1@ == self@.db.channels[j].info,
    {
        let r = self.db.get_channels();
        proof {
            assert(self@.db == self.db@);
            assert forall|j: int|
                0 <= j < r@.len() implies #[trigger] r@[j].0 as int == self@.db.channels[j].id
                && r@[j].1@ == self@.db.channels[j].info by {
                assert(r@[j].0 as int == self.db@.channels[j].id && r@[j].1@
                    == self.db@.channels[j].info);
            }
        }
        r
    }

    /// The channel with id `id`, if any.
    pub fn find_channel(&self, id: i64) -> (r: Option<ChannelInfo>)
        ensures
            match r {
                Some(c) => crate::db::spec_find_id(self@.db.channels, id as int) matches Some(row)
                    && row.info == c@,
                None => crate::db::spec_find_id(self@.db.channels, id as int) is None,
            },
    {
        self.db.find_channel(id)
    }

    /// The programs of channel `id` on one civil day, UTC: those beginning
    /// from the day's first second up to (but excluding) its last.
    pub fn get_epg_day(&self, id: i64, y: i64, m: i64, d: i64) -> (r: Vec<Program>)
        requires
            0 <= y < 10000,
            1 <= m <= 12,
            1 <= d <= 31,
        ensures
            r.deep_view() == spec_range(
                self@.db.live,
                id as int,
                crate::timestamp::spec_civil_to_unix(y as int, m as int, d as int, 0, 0, 0),
                crate::timestamp::spec_civil_to_unix(y as int, m as int, d as int, 23, 59, 59),
            ),
    {
        let day = crate::timestamp::days_from_civil(y, m, d);
        let a = day * 86400;
        let b = a + 86399;
        self.db.get_range(id, a, b)
    }

    /// Every channel with its id, ordered by display name (stably: channels
    /// sharing a name keep their id order), as [`spec_sort_by_name`]
    /// arranges the id-ordered listing.
    #[verifier::loop_isolation(false)]
    pub fn get_channels(&self) -> (r: Vec<(i64, ChannelInfo)>)
        ensures
            r.deep_view() == spec_sort_by_name(spec_channel_pairs(self@.db.channels)),
    {
        let pairs = self.db.get_channels();
        proof {
            self.db.lemma_ids_in_range();
            assert(pairs.deep_view() =~= spec_channel_pairs(self@.db.channels));
        }
        let ghost pairsv = pairs.deep_view();
        let mut out: Vec<(i64, ChannelInfo)> = Vec::new();
        let mut i: usize = 0;
        proof {
            assert(out.deep_view() =~= spec_sort_by_name(pairsv.take(0)));
        }
        while i < pairs.len()
            invariant
                i <= pairs@.len(),
                pairsv == pairs.deep_view(),
                out.deep_view() == spec_sort_by_name(pairsv.take(i as int)),
                forall|a: int, b: int|
                    0 <= a < b < out.deep_view().len() ==> crate::text::spec_lex_le(
                        (#[trigger] out.deep_view()[a]).1.name,
                        (#[trigger] out.deep_view()[b]).1.name,
                    ),
            decreases pairs@.len() - i,
        {
            let ghost outv = out.deep_view();
            let p = (pairs[i].0, pairs[i].1.clone());
            proof {
                assert(pairsv[i as int] == (pairs@[i as int].0, pairs@[i as int].1@));
                assert(p.deep_view() == pairsv[i as int]);
            }
            // The stable position: after every name that comes no later.
            let mut k: usize = 0;
            while k < out.len() && str_le(out[k].1.name.as_str(), p.1.name.as_str())
                invariant
                    k <= out@.len(),
                    outv == out.deep_view(),
                    forall|j: int|
                        0 <= j < k ==> crate::text::spec_lex_le(
                            (#[trigger] outv[j]).1.name,
                            p.deep_view().1.name,
                        ),
                decreases out@.len() - k,
            {
                proof {
                    assert(outv[k as int] == (out@[k as int].0, out@[k as int].1@));
                }
                k += 1;
            }
            proof {
                if k < out@.len() {
                    assert(outv[k as int] == (out@[k as int].0, out@[k as int].1@));
                }
                let pv = p.deep_view();
                assert forall|j: int|
                    k as int <= j < outv.len() implies !crate::text::spec_lex_le(
                    (#[trigger] outv[j]).1.name,
                    pv.1.name,
                ) by {
                    if crate::text::spec_lex_le(outv[j].1.name, pv.1.name) {
                        if j > k as int {
                            crate::text::lemma_lex_le_trans(
                                outv[k as int].1.name,
                                outv[j].1.name,
                                pv.1.name,
                            );
                        }
                        assert(false);
                    }
                }
                lemma_insert_by_name_at(outv, pv, k as int);
                outv.insert_ensures(k as int, pv);
                assert forall|a: int, b: int|
                    0 <= a < b < outv.insert(k as int, pv).len() implies crate::text::spec_lex_le(
                    (#[trigger] outv.insert(k as int, pv)[a]).1.name,
                    (#[trigger] outv.insert(k as int, pv)[b]).1.name,
                ) by {
                    let w = outv.insert(k as int, pv);
                    if b == k as int {
                        assert(w[a] == outv[a]);
                    } else if a == k as int {
                        assert(w[b] == outv[b - 1]);
                        crate::text::lemma_lex_le_total(outv[b - 1].1.name, pv.1.name);
                    } else if a < k as int && b > k as int {
                        assert(w[a] == outv[a] && w[b] == outv[b - 1]);
                    } else if b < k as int {
                        assert(w[a] == outv[a] && w[b] == outv[b]);
                    } else {
                        assert(w[a] == outv[a - 1] && w[b] == outv[b - 1]);
                    }
                }
            }
            out.insert(k, p);
            proof {
                assert(out.deep_view() =~= outv.insert(k as int, pairsv[i as int]));
                assert(pairsv.take(i as int + 1).drop_last() =~= pairsv.take(i as int));
                assert(pairsv.take(i as int + 1).last() == pairsv[i as int]);
            }
            i += 1;
        }
        proof {
            assert(pairsv.take(pairs@.len() as int) =~= pairsv);
        }
        out
    }

    /// Every channel's alias with its id, in id order; the out-of-crate
    /// layer may index it as it pleases.
    #[verifier::loop_isolation(false)]
    pub fn get_channels_alias(&self) -> (r: Vec<(String, i64)>)
        ensures
            r@.len() == self@.db.channels.len(),
            forall|j: int|
                0 <= j < r@.len() ==> (#[trigger] r@[j]).0@ == self@.db.channels[j].info.alias
                    && r@[j].1 as int == self@.db.channels[j].id,
    {
        let pairs = self.db.get_channels();
        let mut r: Vec<(String, i64)> = Vec::new();
        let mut i: usize = 0;
        while i < pairs.len()
            invariant
                i <= pairs@.len(),
                pairs@.len() == self@.db.channels.len(),
                forall|j: int|
                    0 <= j < pairs@.len() ==> (#[trigger] pairs@[j]).0 as int
                        == self@.db.channels[j].id && pairs@[j].1@ == self@.db.channels[j].info,
                r@.len() == i,
                forall|j: int|
                    0 <= j < i ==> (#[trigger] r@[j]).0@ == self@.db.channels[j].info.alias
                        && r@[j].1 as int == self@.db.channels[j].id,
            decreases pairs@.len() - i,
        {
            r.push((pairs[i].1.alias.clone(), pairs[i].0));
            i += 1;
        }
        r
    }

    /// Every channel's display name with its id, in id order.
    #[verifier::loop_isolation(false)]
    pub fn get_channels_name(&self) -> (r: Vec<(String, i64)>)
        ensures
            r@.len() == self@.db.channels.len(),
            forall|j: int|
                0 <= j < r@.len() ==> (#[trigger] r@[j]).0@ == self@.db.channels[j].info.name
                    && r@[j].1 as int == self@.db.channels[j].id,
    {
        let pairs = self.db.get_channels();
        let mut r: Vec<(String, i64)> = Vec::new();
        let mut i: usize = 0;
        while i < pairs.len()
            invariant
                i <= pairs@.len(),
                pairs@.len() == self@.db.channels.len(),
                forall|j: int|
                    0 <= j < pairs@.len() ==> (#[trigger] pairs@[j]).0 as int
                        == self@.db.channels[j].id && pairs@[j].1@ == self@.db.channels[j].info,
                r@.len() == i,
                forall|j: int|
                    0 <= j < i ==> (#[trigger] r@[j]).0@ == self@.db.channels[j].info.name
                        && r@[j].1 as int == self@.db.channels[j].id,
            decreases pairs@.len() - i,
        {
            r.push((pairs[i].1.name.clone(), pairs[i].0));
            i += 1;
        }
        r
    }

    /// The channel carrying `alias`, if any.
    pub fn find_channel_by_alias(&self, alias: &String) -> (r: Option<(i64, ChannelInfo)>)
        ensures
            match r {
                Some(p) => crate::db::spec_find_alias(self@.db.channels, alias@) == Some(
                    crate::db::ChannelRowModel { id: p.0 as int, info: p.1@ },
                ),
                None => crate::db::spec_find_alias(self@.db.channels, alias@) is None,
            },
    {
        self.db.get_channel_by_alias(alias)
    }

    /// The most recent update-log entry.
    pub fn get_last_update(&self) -> (r: Option<crate::update_status::UpdateStatus>)
        ensures
            match r {
                Some(st) => crate::db::spec_last_update(self@.db.log) == Some(st@),
                None => crate::db::spec_last_update(self@.db.log) is None,
            },
    {
        self.db.get_last_update()
    }

    /// Records one ingest attempt.
    pub fn insert_update_status(&mut self, entry: crate::update_status::UpdateStatus)
        requires
            old(self).wf(),
        ensures
            final(self).wf(),
            final(self)@.db.log == old(self)@.db.log.filter(
                |e: crate::update_status::UpdateStatusModel| e.time != entry@.time,
            ).push(entry@),
            final(self)@.db.channels == old(self)@.db.channels,
            final(self)@.db.live == old(self)@.db.live,
            final(self)@.cache == old(self)@.cache,
    {
        self.db.insert_update_status(entry);
    }
}

/// Two "now playing" queries at the same instant, with no ingest between
/// them, answer alike: the first query leaves a state whose answer data at
/// that instant is what it itself was answered from.
pub proof fn lemma_get_now_idempotent(m: ServerModel, t: int)
    ensures
        spec_now_data(ServerModel { db: m.db, cache: spec_now_cache(m, t) }, t) == spec_now_data(
            m,
            t,
        ),
{
    let m2 = ServerModel { db: m.db, cache: spec_now_cache(m, t) };
    if spec_cache_valid(m.cache, t) {
    } else {
        let fresh = spec_get_at(m.db, t, NOW_COUNT as int);
        if spec_cache_valid(m2.cache, t) {
            assert(m2.cache.data == fresh);
        }
    }
}

/// After an ingest run the snapshot is empty, so the next "now playing"
/// query cannot reuse a stale snapshot: it is answered from the freshly
/// ingested store.
pub proof fn lemma_get_now_after_ingest(db: DatabaseModel, t: int)
    ensures
        spec_now_data(ServerModel { db, cache: spec_empty_cache() }, t) == spec_get_at(
            db,
            t,
            NOW_COUNT as int,
        ),
{
}

} // verus!