//! The engine's cross-cutting guarantees, stated and proved over the same
//! models its contracts use.

use vstd::prelude::*;

use crate::db::{
    aliases_unique, channels_sorted, spec_find_alias, spec_gc, spec_has_channel, spec_merge,
    spec_merge_keeps, spec_min_begin, spec_next_id, spec_prune, spec_range, ChannelRowModel,
    DatabaseModel, ProgramRowModel,
};
use crate::epg::ProgramModel;
use crate::ingest::{
    spec_alias_map, spec_ingest, spec_lookup, spec_parse_i64, spec_stage_items, spec_step,
    AliasEntryModel, StageModel,
};
use crate::seqsup::{lemma_filter_congruence, lemma_filter_members, lemma_filter_push};
use crate::xmltv::XmltvItemModel;

verus! {

/// The programs staged or live for one channel, in table order.
pub open spec fn rows_of(s: Seq<ProgramRowModel>, id: int) -> Seq<ProgramModel> {
    s.filter(|r: ProgramRowModel| r.channel == id).map_values(|r: ProgramRowModel| r.program)
}

/// Merge supersession: when the staging table has rows for channel `c`,
/// the merged live table keeps a pre-merge row of `c` only if it begins
/// strictly before the earliest staged instant of `c`, and carries every
/// staged row, in staging order, after the survivors.
pub proof fn lemma_merge_supersession(
    live: Seq<ProgramRowModel>,
    stg: Seq<ProgramRowModel>,
    c: int,
)
    requires
        spec_has_channel(stg, c),
    ensures
        ({
            let merged = spec_merge(live, stg);
            let kept = merged.len() - stg.len();
            &&& merged.len() >= stg.len()
            &&& merged.skip(kept as int) == stg
            &&& forall|k: int|
                0 <= k < kept && (#[trigger] merged[k]).channel == c ==> merged[k].program.begin
                    < spec_min_begin(stg, c)
        }),
{
    let pred = |r: ProgramRowModel| spec_merge_keeps(stg, r);
    let filtered = live.filter(pred);
    let merged = spec_merge(live, stg);
    lemma_filter_members(live, pred);
    assert(merged.skip(filtered.len() as int) =~= stg);
    assert forall|k: int|
        0 <= k < filtered.len() && (#[trigger] merged[k]).channel == c implies merged[k].program.begin
        < spec_min_begin(stg, c) by {
        assert(merged[k] == filtered[k]);
        assert(pred(filtered[k]));
    }
}

/// Whether a feed binds channels only through their aliases, never through
/// an alias that reads as an explicit id.
pub open spec fn no_numeric_aliases(items: Seq<XmltvItemModel>) -> bool {
    forall|i: int|
        0 <= i < items.len() ==> match #[trigger] items[i] {
            XmltvItemModel::Channel(c) => spec_parse_i64(c.alias) is None,
            XmltvItemModel::Program(_, _) => true,
        }
}

/// The programs a feed carries for alias `a`, in feed order.
pub open spec fn spec_feed_programs(items: Seq<XmltvItemModel>, a: Seq<char>) -> Seq<ProgramModel>
    decreases items.len(),
{
    if items.len() == 0 {
        Seq::<ProgramModel>::empty()
    } else {
        (match items[0] {
            XmltvItemModel::Program(a2, p) => if a2 == a {
                seq![p]
            } else {
                Seq::<ProgramModel>::empty()
            },
            XmltvItemModel::Channel(_) => Seq::<ProgramModel>::empty(),
        }) + spec_feed_programs(items.drop_first(), a)
    }
}

/// The resolver's transient state is coherent: the channel table is
/// well-formed, every channel's alias is bound to that channel's id, and
/// every binding points at an existing channel row.
pub open spec fn coherent(st: StageModel) -> bool {
    &&& channels_sorted(st.channels)
    &&& aliases_unique(st.channels)
    &&& forall|j: int|
        0 <= j < st.channels.len() ==> spec_lookup(
            st.aliases,
            (#[trigger] st.channels[j]).info.alias,
        ) == Some(st.channels[j].id)
    &&& forall|k: int|
        0 <= k < st.aliases.len() ==> exists|j: int|
            0 <= j < st.channels.len() && (#[trigger] st.channels[j]).id == (
            #[trigger] st.aliases[k]).id && st.channels[j].info.alias == st.aliases[k].alias
}

/// A binding's first occurrence carries the looked-up id.
proof fn lemma_lookup_element(s: Seq<AliasEntryModel>, a: Seq<char>, id: int)
    requires
        spec_lookup(s, a) == Some(id),
    ensures
        exists|k: int| 0 <= k < s.len() && (#[trigger] s[k]).alias == a && s[k].id == id,
    decreases s.len(),
{
    if s.len() > 0 {
        if s[0].alias == a {
            assert(s[0].alias == a && s[0].id == id);
        } else {
            let t = s.drop_first();
            assert(forall|j: int| 0 <= j < t.len() ==> t[j] == s[j + 1]);
            lemma_lookup_element(t, a, id);
            let k = choose|k: int| 0 <= k < t.len() && (#[trigger] t[k]).alias == a && t[k].id == id;
            assert(s[k + 1].alias == a && s[k + 1].id == id);
        }
    }
}

/// In a coherent state, two different aliases are never bound to the same
/// id.
proof fn lemma_coherent_injective(st: StageModel, a1: Seq<char>, a2: Seq<char>, id1: int, id2: int)
    requires
        coherent(st),
        spec_lookup(st.aliases, a1) == Some(id1),
        spec_lookup(st.aliases, a2) == Some(id2),
        a1 != a2,
    ensures
        id1 != id2,
{
    lemma_lookup_element(st.aliases, a1, id1);
    lemma_lookup_element(st.aliases, a2, id2);
    let k1 = choose|k: int|
        0 <= k < st.aliases.len() && (#[trigger] st.aliases[k]).alias == a1 && st.aliases[k].id
            == id1;
    let k2 = choose|k: int|
        0 <= k < st.aliases.len() && (#[trigger] st.aliases[k]).alias == a2 && st.aliases[k].id
            == id2;
    let j1 = choose|j: int|
        0 <= j < st.channels.len() && (#[trigger] st.channels[j]).id == st.aliases[k1].id
            && st.channels[j].info.alias == st.aliases[k1].alias;
    let j2 = choose|j: int|
        0 <= j < st.channels.len() && (#[trigger] st.channels[j]).id == st.aliases[k2].id
            && st.channels[j].info.alias == st.aliases[k2].alias;
    if id1 == id2 {
        if j1 != j2 {
            assert(st.channels[j1].id != st.channels[j2].id);
        }
        assert(st.channels[j1] == st.channels[j2]);
        assert(false);
    }
}

/// The map a well-formed store preloads is coherent with its channels.
pub proof fn lemma_initial_coherent(m: DatabaseModel)
    requires
        channels_sorted(m.channels),
        aliases_unique(m.channels),
    ensures
        coherent(
            StageModel {
                channels: m.channels,
                aliases: spec_alias_map(m.channels),
                staging: Seq::<ProgramRowModel>::empty(),
            },
        ),
{
    let st = StageModel {
        channels: m.channels,
        aliases: spec_alias_map(m.channels),
        staging: Seq::<ProgramRowModel>::empty(),
    };
    assert forall|j: int|
        0 <= j < st.channels.len() implies spec_lookup(
        st.aliases,
        (#[trigger] st.channels[j]).info.alias,
    ) == Some(st.channels[j].id) by {
        assert(st.aliases[j].alias == st.channels[j].info.alias && st.aliases[j].id
            == st.channels[j].id);
        crate::ingest::lemma_lookup_at(st.aliases, st.channels[j].info.alias, j);
        assert forall|k: int| 0 <= k < j implies (#[trigger] st.aliases[k]).alias
            != st.channels[j].info.alias by {
            assert(st.aliases[k].alias == st.channels[k].info.alias);
        }
        crate::ingest::lemma_lookup_at(st.aliases, st.channels[j].info.alias, j);
    }
    assert forall|k: int|
        0 <= k < st.aliases.len() implies exists|j: int|
        0 <= j < st.channels.len() && (#[trigger] st.channels[j]).id == (
        #[trigger] st.aliases[k]).id && st.channels[j].info.alias == st.aliases[k].alias by {
        assert(st.channels[k].id == st.aliases[k].id && st.channels[k].info.alias
            == st.aliases[k].alias);
    }
}

/// Every binding of a coherent state looks up to its own id.
proof fn lemma_coherent_binding_id(st: StageModel, k: int)
    requires
        coherent(st),
        0 <= k < st.aliases.len(),
    ensures
        spec_lookup(st.aliases, st.aliases[k].alias) == Some(st.aliases[k].id),
{
    let x = st.aliases[k].alias;
    crate::ingest::lemma_lookup_some(st.aliases, x, k);
    let v = spec_lookup(st.aliases, x).unwrap();
    lemma_lookup_element(st.aliases, x, v);
    let k2 = choose|k2: int|
        0 <= k2 < st.aliases.len() && (#[trigger] st.aliases[k2]).alias == x && st.aliases[k2].id
            == v;
    let j = choose|j: int|
        0 <= j < st.channels.len() && (#[trigger] st.channels[j]).id == st.aliases[k].id
            && st.channels[j].info.alias == st.aliases[k].alias;
    let j2 = choose|j2: int|
        0 <= j2 < st.channels.len() && (#[trigger] st.channels[j2]).id == st.aliases[k2].id
            && st.channels[j2].info.alias == st.aliases[k2].alias;
    if j != j2 {
        assert(st.channels[j].info.alias != st.channels[j2].info.alias);
    }
    assert(st.channels[j] == st.channels[j2]);
}

/// What one record adds to the staged rows of channel `id`, the channel
/// that alias `a` is bound to.
pub open spec fn spec_item_rows(item: XmltvItemModel, a: Seq<char>) -> Seq<ProgramModel> {
    match item {
        XmltvItemModel::Program(a2, p) => if a2 == a {
            seq![p]
        } else {
            Seq::<ProgramModel>::empty()
        },
        XmltvItemModel::Channel(_) => Seq::<ProgramModel>::empty(),
    }
}

/// One resolver step keeps the transient state coherent, keeps every
/// binding, and stages under channel `id` exactly the programs the record
/// carries for its alias `a`.
proof fn lemma_step_coherent(st: StageModel, item: XmltvItemModel, a: Seq<char>, id: int)
    requires
        coherent(st),
        spec_lookup(st.aliases, a) == Some(id),
        match item {
            XmltvItemModel::Channel(c) => spec_parse_i64(c.alias) is None,
            XmltvItemModel::Program(_, _) => true,
        },
    ensures
        coherent(spec_step(st, item)),
        spec_lookup(spec_step(st, item).aliases, a) == Some(id),
        rows_of(spec_step(st, item).staging, id) == rows_of(st.staging, id) + spec_item_rows(
            item,
            a,
        ),
{
    let st2 = spec_step(st, item);
    match item {
        XmltvItemModel::Channel(c) => {
            assert(st2.staging == st.staging);
            assert(rows_of(st2.staging, id) =~= rows_of(st.staging, id) + spec_item_rows(item, a));
            match spec_lookup(st.aliases, c.alias) {
                Some(cid) => {
                    let pred = |r: ChannelRowModel| r.id != cid && r.info.alias != c.alias;
                    let dropped = st.channels.filter(pred);
                    let newrow = ChannelRowModel { id: cid, info: c };
                    crate::db::lemma_upsert_channel_wf(st.channels, cid, c);
                    lemma_filter_members(st.channels, pred);
                    crate::db::lemma_insert_sorted_members(dropped, newrow);
                    crate::db::lemma_insert_sorted_keeps(dropped, newrow);
                    // Surviving rows keep their bindings; the new row's alias
                    // is bound to its id.
                    assert forall|j: int|
                        0 <= j < st2.channels.len() implies spec_lookup(
                        st2.aliases,
                        (#[trigger] st2.channels[j]).info.alias,
                    ) == Some(st2.channels[j].id) by {
                        if st2.channels[j] == newrow {
                        } else {
                            assert(dropped.contains(st2.channels[j]));
                            let k = choose|k: int|
                                0 <= k < dropped.len() && dropped[k] == st2.channels[j];
                            let m = choose|m: int|
                                0 <= m < st.channels.len() && st.channels[m] == dropped[k];
                            assert(spec_lookup(st.aliases, st.channels[m].info.alias) == Some(
                                st.channels[m].id,
                            ));
                        }
                    }
                    // Every binding still has its row.
                    assert forall|k: int|
                        0 <= k < st2.aliases.len() implies exists|j: int|
                        0 <= j < st2.channels.len() && (#[trigger] st2.channels[j]).id == (
                        #[trigger] st2.aliases[k]).id && st2.channels[j].info.alias
                        == st2.aliases[k].alias by {
                        let x = st.aliases[k].alias;
                        let xid = st.aliases[k].id;
                        lemma_coherent_binding_id(st, k);
                        let jrow = choose|j: int|
                            0 <= j < st.channels.len() && (#[trigger] st.channels[j]).id == xid
                                && st.channels[j].info.alias == x;
                        if x == c.alias {
                            // The binding's row is the row being replaced.
                            assert(spec_lookup(st.aliases, c.alias) == Some(xid));
                            assert(xid == cid);
                            assert(st2.channels.contains(newrow));
                            let jn = choose|j: int|
                                0 <= j < st2.channels.len() && st2.channels[j] == newrow;
                            assert(st2.channels[jn].id == xid && st2.channels[jn].info.alias == x);
                        } else {
                            lemma_coherent_injective(st, x, c.alias, xid, cid);
                            assert(pred(st.channels[jrow]));
                            st.channels.lemma_filter_contains(pred, jrow);
                            assert(dropped.contains(st.channels[jrow]));
                            assert(st2.channels.contains(st.channels[jrow]));
                            let jn = choose|j: int|
                                0 <= j < st2.channels.len() && st2.channels[j]
                                    == st.channels[jrow];
                            assert(st2.channels[jn].id == xid && st2.channels[jn].info.alias == x);
                        }
                    }
                },
                None => {
                    if spec_next_id(st.channels) <= i64::MAX {
                        let nid = spec_next_id(st.channels);
                        let newrow = ChannelRowModel { id: nid, info: c };
                        let newbind = AliasEntryModel { alias: c.alias, id: nid };
                        // The appended row keeps the order and alias
                        // uniqueness.
                        assert forall|i: int, j: int|
                            0 <= i < j < st2.channels.len() implies st2.channels[i].id
                            < st2.channels[j].id && st2.channels[i].info.alias
                            != st2.channels[j].info.alias by {
                            if j == st2.channels.len() - 1 {
                                assert(st2.channels[i] == st.channels[i]);
                                if st.channels.len() > 0 {
                                    assert(st.channels[i].id <= st.channels[st.channels.len()
                                        - 1].id);
                                }
                                if st.channels[i].info.alias == c.alias {
                                    assert(spec_lookup(
                                        st.aliases,
                                        st.channels[i].info.alias,
                                    ) is Some);
                                }
                            } else {
                                assert(st2.channels[i] == st.channels[i] && st2.channels[j]
                                    == st.channels[j]);
                            }
                        }
                        assert forall|j: int|
                            0 <= j < st2.channels.len() implies spec_lookup(
                            st2.aliases,
                            (#[trigger] st2.channels[j]).info.alias,
                        ) == Some(st2.channels[j].id) by {
                            crate::ingest::lemma_lookup_push(
                                st.aliases,
                                newbind,
                                st2.channels[j].info.alias,
                            );
                            if j < st.channels.len() {
                                assert(st2.channels[j] == st.channels[j]);
                                assert(spec_lookup(st.aliases, st.channels[j].info.alias) == Some(
                                    st.channels[j].id,
                                ));
                            } else {
                                assert(st2.channels[j] == newrow);
                            }
                        }
                        assert forall|k: int|
                            0 <= k < st2.aliases.len() implies exists|j: int|
                            0 <= j < st2.channels.len() && (#[trigger] st2.channels[j]).id == (
                            #[trigger] st2.aliases[k]).id && st2.channels[j].info.alias
                            == st2.aliases[k].alias by {
                            if k < st.aliases.len() {
                                assert(st2.aliases[k] == st.aliases[k]);
                                let j = choose|j: int|
                                    0 <= j < st.channels.len() && (#[trigger] st.channels[j]).id
                                        == st.aliases[k].id && st.channels[j].info.alias
                                        == st.aliases[k].alias;
                                assert(st2.channels[j] == st.channels[j]);
                                assert(st2.channels[j].id == st2.aliases[k].id
                                    && st2.channels[j].info.alias == st2.aliases[k].alias);
                            } else {
                                assert(st2.aliases[k] == newbind);
                                assert(st2.channels[st.channels.len() as int] == newrow);
                            }
                        }
                        crate::ingest::lemma_lookup_push(st.aliases, newbind, a);
                    }
                },
            }
        },
        XmltvItemModel::Program(a2, p) => {
            match spec_lookup(st.aliases, a2) {
                Some(id2) => {
                    let row = ProgramRowModel { channel: id2, program: p };
                    lemma_filter_push(
                        st.staging,
                        row,
                        |r: ProgramRowModel| r.channel == id,
                    );
                    if a2 == a {
                        assert(id2 == id);
                        assert(rows_of(st2.staging, id) =~= rows_of(st.staging, id)
                            + spec_item_rows(item, a));
                    } else {
                        lemma_coherent_injective(st, a, a2, id, id2);
                        assert(rows_of(st2.staging, id) =~= rows_of(st.staging, id)
                            + spec_item_rows(item, a));
                    }
                },
                None => {
                    assert(a2 != a);
                    assert(rows_of(st2.staging, id) =~= rows_of(st.staging, id) + spec_item_rows(
                        item,
                        a,
                    ));
                },
            }
        },
    }
}

/// Draining a feed through a coherent state keeps it coherent, keeps every
/// binding, and stages under channel `id` exactly the feed's programs for
/// the alias `a` bound to `id`, in feed order after what was already
/// staged.
pub proof fn lemma_run_coherent(st: StageModel, items: Seq<XmltvItemModel>, a: Seq<char>, id: int)
    requires
        coherent(st),
        spec_lookup(st.aliases, a) == Some(id),
        no_numeric_aliases(items),
    ensures
        coherent(spec_stage_items(st, items)),
        spec_lookup(spec_stage_items(st, items).aliases, a) == Some(id),
        rows_of(spec_stage_items(st, items).staging, id) == rows_of(st.staging, id)
            + spec_feed_programs(items, a),
    decreases items.len(),
{
    if items.len() == 0 {
        assert(rows_of(st.staging, id) + spec_feed_programs(items, a) =~= rows_of(st.staging, id));
    } else {
        lemma_step_coherent(st, items[0], a, id);
        let st1 = spec_step(st, items[0]);
        let rest = items.drop_first();
        assert(no_numeric_aliases(rest)) by {
            assert(forall|i: int| 0 <= i < rest.len() ==> rest[i] == items[i + 1]);
        }
        lemma_run_coherent(st1, rest, a, id);
        assert(spec_feed_programs(items, a) == spec_item_rows(items[0], a) + spec_feed_programs(
            rest,
            a,
        ));
        assert(rows_of(spec_stage_items(st, items).staging, id) =~= rows_of(st.staging, id)
            + spec_feed_programs(items, a));
    }
}

/// The empty store's image.
pub open spec fn spec_empty_db() -> DatabaseModel {
    DatabaseModel {
        channels: Seq::<ChannelRowModel>::empty(),
        live: Seq::<ProgramRowModel>::empty(),
        staging: Seq::<ProgramRowModel>::empty(),
        log: Seq::<crate::update_status::UpdateStatusModel>::empty(),
    }
}

/// A row of a channel listing with alias `a`, when aliases are unique, is
/// what the alias lookup finds.
proof fn lemma_find_alias_unique(s: Seq<ChannelRowModel>, row: ChannelRowModel)
    requires
        aliases_unique(s),
        s.contains(row),
    ensures
        spec_find_alias(s, row.info.alias) == Some(row),
    decreases s.len(),
{
    let j = choose|j: int| 0 <= j < s.len() && s[j] == row;
    if j == 0 {
    } else {
        let t = s.drop_first();
        assert(forall|k: int| 0 <= k < t.len() ==> t[k] == s[k + 1]);
        assert(t[j - 1] == row);
        assert(t.contains(row));
        lemma_find_alias_unique(t, row);
        assert(s[0].info.alias != row.info.alias);
    }
}

/// Round trip: parsing a feed whose first record describes a channel into
/// an empty store and then asking for that channel's programs over a window
/// that covers them returns exactly the feed's programs for that channel,
/// unchanged and in feed order.  The feed may describe other channels and
/// their programs freely; it binds channels by alias, not by explicit id,
/// and this channel's programs end at the retention horizon or later and
/// begin inside the queried window.
pub proof fn lemma_round_trip(
    items: Seq<XmltvItemModel>,
    horizon: int,
    from: int,
    to: int,
    a: Seq<char>,
)
    requires
        no_numeric_aliases(items),
        items.len() > 0,
        items[0] matches XmltvItemModel::Channel(c) && c.alias == a,
        spec_feed_programs(items, a).len() > 0,
        forall|k: int|
            0 <= k < spec_feed_programs(items, a).len() ==> (#[trigger] spec_feed_programs(
                items,
                a,
            )[k]).end >= horizon && from <= spec_feed_programs(items, a)[k].begin
                && spec_feed_programs(items, a)[k].begin < to,
    ensures
        ({
            let m2 = spec_ingest(spec_empty_db(), items, horizon);
            match spec_find_alias(m2.channels, a) {
                Some(row) => spec_range(m2.live, row.id, from, to) == spec_feed_programs(items, a),
                None => false,
            }
        }),
{
    let st0 = StageModel {
        channels: Seq::<ChannelRowModel>::empty(),
        aliases: spec_alias_map(Seq::<ChannelRowModel>::empty()),
        staging: Seq::<ProgramRowModel>::empty(),
    };
    assert(st0.aliases =~= Seq::<AliasEntryModel>::empty());
    assert(coherent(st0));
    let c = items[0]->Channel_0;
    // The first record inserts the channel under id 1 and binds its alias.
    let st1 = spec_step(st0, items[0]);
    assert(spec_lookup(st0.aliases, a) is None);
    assert(spec_next_id(st0.channels) == 1);
    lemma_step_coherent_first(st0, items[0]);
    assert(st1.channels =~= seq![ChannelRowModel { id: 1, info: c }]);
    assert(st1.aliases =~= seq![AliasEntryModel { alias: a, id: 1 }]);
    assert(spec_lookup(st1.aliases, a) == Some(1int));
    assert(coherent(st1)) by {
        assert forall|j: int|
            0 <= j < st1.channels.len() implies spec_lookup(
            st1.aliases,
            (#[trigger] st1.channels[j]).info.alias,
        ) == Some(st1.channels[j].id) by {}
        assert forall|k: int|
            0 <= k < st1.aliases.len() implies exists|j: int|
            0 <= j < st1.channels.len() && (#[trigger] st1.channels[j]).id == (
            #[trigger] st1.aliases[k]).id && st1.channels[j].info.alias
            == st1.aliases[k].alias by {
            assert(st1.channels[0].id == st1.aliases[0].id && st1.channels[0].info.alias
                == st1.aliases[0].alias);
        }
    }
    // Drain the rest of the feed.
    let rest = items.drop_first();
    assert(no_numeric_aliases(rest)) by {
        assert(forall|i: int| 0 <= i < rest.len() ==> rest[i] == items[i + 1]);
    }
    lemma_run_coherent(st1, rest, a, 1int);
    let st2 = spec_stage_items(st1, rest);
    assert(spec_stage_items(st0, items) == st2);
    let progs = spec_feed_programs(items, a);
    assert(spec_feed_programs(items, a) == spec_feed_programs(rest, a));
    assert(rows_of(st2.staging, 1) =~= progs);
    // The merge over the empty live table is the staging table itself.
    let merged = spec_merge(spec_empty_db().live, st2.staging);
    assert(spec_empty_db().live.filter(
        |r: ProgramRowModel| spec_merge_keeps(st2.staging, r),
    ) =~= Seq::<ProgramRowModel>::empty());
    assert(merged =~= st2.staging);
    // Pruning keeps every row of channel 1.
    let live = spec_prune(merged, horizon);
    let keep = |r: ProgramRowModel| r.program.end >= horizon;
    let ofid = |r: ProgramRowModel| r.channel == 1;
    assert forall|k: int|
        0 <= k < st2.staging.len() && (#[trigger] st2.staging[k]).channel == 1 implies progs.contains(
        st2.staging[k].program,
    ) by {
        st2.staging.lemma_filter_contains(ofid, k);
        let f = st2.staging.filter(ofid);
        let j = choose|j: int| 0 <= j < f.len() && f[j] == st2.staging[k];
        assert(progs[j] == st2.staging[k].program);
    }
    // The queried window selects exactly the rows of channel 1.
    let inrange = |r: ProgramRowModel| r.channel == 1 && from <= r.program.begin
        && r.program.begin < to;
    crate::seqsup::lemma_filter_filter(st2.staging, keep, inrange);
    assert(spec_range(live, 1, from, to) == st2.staging.filter(
        |r: ProgramRowModel| keep(r) && inrange(r),
    ).map_values(|r: ProgramRowModel| r.program));
    lemma_filter_congruence(st2.staging, |r: ProgramRowModel| keep(r) && inrange(r), ofid);
    assert(spec_range(live, 1, from, to) == progs);
    // The channel row survives garbage collection and the lookup finds it.
    let m2 = spec_ingest(spec_empty_db(), items, horizon);
    assert(m2.live == live);
    let chrow = choose|j: int|
        0 <= j < st2.channels.len() && (#[trigger] st2.channels[j]).id == 1
            && st2.channels[j].info.alias == a;
    lemma_lookup_element(st2.aliases, a, 1);
    let kb = choose|k: int|
        0 <= k < st2.aliases.len() && (#[trigger] st2.aliases[k]).alias == a && st2.aliases[k].id
            == 1;
    let jrow = choose|j: int|
        0 <= j < st2.channels.len() && (#[trigger] st2.channels[j]).id == st2.aliases[kb].id
            && st2.channels[j].info.alias == st2.aliases[kb].alias;
    let row = st2.channels[jrow];
    assert(spec_has_channel(live, 1)) by {
        assert(progs.len() > 0);
        assert(st2.staging.filter(ofid).len() > 0);
        crate::seqsup::lemma_filter_members(st2.staging, ofid);
        let r0 = st2.staging.filter(ofid)[0];
        assert(st2.staging.contains(r0) && r0.channel == 1);
        assert(r0.program.end >= horizon) by {
            assert(progs[0] == r0.program);
        }
        let k0 = choose|k: int| 0 <= k < st2.staging.len() && st2.staging[k] == r0;
        st2.staging.lemma_filter_contains(keep, k0);
        assert(live.contains(r0));
        let jl = choose|j: int| 0 <= j < live.len() && live[j] == r0;
        assert((live[jl]).channel == 1);
    }
    assert(m2.channels == spec_gc(st2.channels, live));
    st2.channels.lemma_filter_contains(|r: ChannelRowModel| spec_has_channel(live, r.id), jrow);
    assert(m2.channels.contains(row));
    crate::db::lemma_filter_channels_wf(
        st2.channels,
        |r: ChannelRowModel| spec_has_channel(live, r.id),
    );
    lemma_find_alias_unique(m2.channels, row);
}

/// The first record of a feed into an empty resolver inserts its channel
/// under id 1 and binds its alias.
proof fn lemma_step_coherent_first(st0: StageModel, item: XmltvItemModel)
    requires
        st0.channels == Seq::<ChannelRowModel>::empty(),
        st0.aliases == Seq::<AliasEntryModel>::empty(),
        st0.staging == Seq::<ProgramRowModel>::empty(),
        item matches XmltvItemModel::Channel(c) && spec_parse_i64(c.alias) is None,
    ensures
        spec_step(st0, item).channels == seq![
            ChannelRowModel { id: 1, info: item->Channel_0 },
        ],
        spec_step(st0, item).aliases == seq![
            AliasEntryModel { alias: item->Channel_0.alias, id: 1 },
        ],
        spec_step(st0, item).staging == Seq::<ProgramRowModel>::empty(),
{
    let c = item->Channel_0;
    assert(spec_lookup(st0.aliases, c.alias) is None);
    assert(spec_step(st0, item).channels =~= seq![ChannelRowModel { id: 1, info: c }]);
    assert(spec_step(st0, item).aliases =~= seq![AliasEntryModel { alias: c.alias, id: 1 }]);
}

/// Alias stability: re-ingesting a feed leaves every already-known channel
/// under its old id, provided the feed binds channels by alias only and the
/// channel keeps at least one live program past the horizon.  The ingested
/// listing also never carries two rows for one alias.
pub proof fn lemma_alias_stability(
    m: DatabaseModel,
    items: Seq<XmltvItemModel>,
    horizon: int,
    a: Seq<char>,
    id: int,
)
    requires
        channels_sorted(m.channels),
        aliases_unique(m.channels),
        no_numeric_aliases(items),
        spec_lookup(spec_alias_map(m.channels), a) == Some(id),
    ensures
        aliases_unique(spec_ingest(m, items, horizon).channels),
        spec_has_channel(spec_ingest(m, items, horizon).live, id) ==> (spec_find_alias(
            spec_ingest(m, items, horizon).channels,
            a,
        ) matches Some(row) && row.id == id),
{
    let st0 = StageModel {
        channels: m.channels,
        aliases: spec_alias_map(m.channels),
        staging: Seq::<ProgramRowModel>::empty(),
    };
    lemma_initial_coherent(m);
    lemma_run_coherent(st0, items, a, id);
    let st2 = spec_stage_items(st0, items);
    let m2 = spec_ingest(m, items, horizon);
    let gckeep = |r: ChannelRowModel| spec_has_channel(m2.live, r.id);
    crate::db::lemma_filter_channels_wf(st2.channels, gckeep);
    if spec_has_channel(m2.live, id) {
        lemma_lookup_element(st2.aliases, a, id);
        let kb = choose|k: int|
            0 <= k < st2.aliases.len() && (#[trigger] st2.aliases[k]).alias == a
                && st2.aliases[k].id == id;
        let jrow = choose|j: int|
            0 <= j < st2.channels.len() && (#[trigger] st2.channels[j]).id == st2.aliases[kb].id
                && st2.channels[j].info.alias == st2.aliases[kb].alias;
        let row = st2.channels[jrow];
        assert(gckeep(row));
        st2.channels.lemma_filter_contains(gckeep, jrow);
        assert(m2.channels.contains(row));
        lemma_find_alias_unique(m2.channels, row);
    }
}

} // verus!
