//! Rewriting a playlist against the guide's channel list: each entry whose
//! display name the caller renamed is re-bound to the channel carrying the
//! new name.

use vstd::prelude::*;

use crate::epg::{ChannelInfo, ChannelInfoModel};
use crate::m3u::{
    spec_entry_name, spec_set_tvg_id, Entry, EntryModel, Error, Playlist, PlaylistWriter,
};

verus! {

broadcast use vstd::string::group_string_axioms;

/// The first value bound to `key` in a rename list.
pub open spec fn spec_rename_of(m: Seq<(Seq<char>, Seq<char>)>, key: Seq<char>) -> Option<
    Seq<char>,
>
    decreases m.len(),
{
    if m.len() == 0 {
        None
    } else if m[0].0 == key {
        Some(m[0].1)
    } else {
        spec_rename_of(m.drop_first(), key)
    }
}

/// The alias of the last channel carrying `name`.
pub open spec fn spec_alias_of_name(channels: Seq<ChannelInfoModel>, name: Seq<char>) -> Option<
    Seq<char>,
>
    decreases channels.len(),
{
    if channels.len() == 0 {
        None
    } else if channels.last().name == name {
        Some(channels.last().alias)
    } else {
        spec_alias_of_name(channels.drop_last(), name)
    }
}

/// One entry after the rename pass: a renamed entry is re-bound to the
/// channel carrying its new name, a name renamed to nothing is unbound, and
/// everything else is kept as it stands.
pub open spec fn spec_replaced_entry(
    e: EntryModel,
    replace: Seq<(Seq<char>, Seq<char>)>,
    channels: Seq<ChannelInfoModel>,
) -> EntryModel {
    match spec_rename_of(replace, spec_entry_name(e.info)) {
        None => e,
        Some(nm) => if nm.len() == 0 {
            EntryModel { url: e.url, info: spec_set_tvg_id(e.info, Seq::<char>::empty()), group: e.group }
        } else {
            match spec_alias_of_name(channels, nm) {
                Some(tvg) => EntryModel {
                    url: e.url,
                    info: spec_set_tvg_id(e.info, tvg),
                    group: e.group,
                },
                None => e,
            }
        },
    }
}

/// The rewritten playlist text for a run of entries.
pub open spec fn spec_replaced_text(
    entries: Seq<EntryModel>,
    replace: Seq<(Seq<char>, Seq<char>)>,
    channels: Seq<ChannelInfoModel>,
) -> Seq<char>
    decreases entries.len(),
{
    if entries.len() == 0 {
        Seq::<char>::empty()
    } else {
        spec_replaced_text(entries.drop_last(), replace, channels) + Entry::spec_written(
            spec_replaced_entry(entries.last(), replace, channels),
        )
    }
}

/// A scan that stops at the first binding computes [`spec_rename_of`].
proof fn lemma_rename_at(m: Seq<(Seq<char>, Seq<char>)>, key: Seq<char>, i: int)
    requires
        0 <= i < m.len(),
        m[i].0 == key,
        forall|j: int| 0 <= j < i ==> (#[trigger] m[j]).0 != key,
    ensures
        spec_rename_of(m, key) == Some(m[i].1),
    decreases m.len(),
{
    if i > 0 {
        let t = m.drop_first();
        assert(forall|j: int| 0 <= j < t.len() ==> t[j] == m[j + 1]);
        lemma_rename_at(t, key, i - 1);
    }
}

/// A scan that finds no binding leaves [`spec_rename_of`] empty.
proof fn lemma_rename_none(m: Seq<(Seq<char>, Seq<char>)>, key: Seq<char>)
    requires
        forall|j: int| 0 <= j < m.len() ==> (#[trigger] m[j]).0 != key,
    ensures
        spec_rename_of(m, key) is None,
    decreases m.len(),
{
    if m.len() > 0 {
        let t = m.drop_first();
        assert(forall|j: int| 0 <= j < t.len() ==> t[j] == m[j + 1]);
        lemma_rename_none(t, key);
    }
}

/// The first value bound to `key` in a rename list.
#[verifier::loop_isolation(false)]
fn rename_of<'a>(m: &'a Vec<(String, String)>, key: &str) -> (r: Option<&'a String>)
    ensures
        match r {
            Some(v) => spec_rename_of(m.deep_view(), key@) == Some(v@),
            None => spec_rename_of(m.deep_view(), key@) is None,
        },
{
    let mut i: usize = 0;
    while i < m.len()
        invariant
            i <= m@.len(),
            forall|j: int| 0 <= j < i ==> (#[trigger] m.deep_view()[j]).0 != key@,
        decreases m@.len() - i,
    {
        proof {
            assert(m.deep_view()[i as int] == (m@[i as int].0@, m@[i as int].1@));
        }
        if crate::text::str_eq_str(m[i].0.as_str(), key) {
            proof {
                lemma_rename_at(m.deep_view(), key@, i as int);
            }
            return Some(&m[i].1);
        }
        i += 1;
    }
    proof {
        lemma_rename_none(m.deep_view(), key@);
    }
    None
}

/// The alias of the last channel carrying `name`.
#[verifier::loop_isolation(false)]
fn alias_of_name<'a>(channels: &'a Vec<ChannelInfo>, name: &str) -> (r: Option<&'a String>)
    ensures
        match r {
            Some(v) => spec_alias_of_name(channels.deep_view(), name@) == Some(v@),
            None => spec_alias_of_name(channels.deep_view(), name@) is None,
        },
{
    let mut i: usize = channels.len();
    proof {
        assert(channels.deep_view().take(channels@.len() as int) =~= channels.deep_view());
    }
    while i > 0
        invariant
            i <= channels@.len(),
            spec_alias_of_name(channels.deep_view(), name@) == spec_alias_of_name(
                channels.deep_view().take(i as int),
                name@,
            ),
        decreases i,
    {
        proof {
            assert(channels.deep_view()[i - 1] == channels@[i - 1]@);
            assert(channels.deep_view().take(i as int).drop_last() =~= channels.deep_view().take(
                i as int - 1,
            ));
            assert(channels.deep_view().take(i as int).last() == channels.deep_view()[i - 1]);
        }
        if crate::text::str_eq_str(channels[i - 1].name.as_str(), name) {
            return Some(&channels[i - 1].alias);
        }
        i -= 1;
    }
    proof {
        assert(channels.deep_view().take(0) =~= Seq::<ChannelInfoModel>::empty());
    }
    None
}

/// Rewrites a playlist: every entry whose display name the rename list
/// mentions is re-bound to the channel carrying the new name (or unbound,
/// when renamed to nothing), and the playlist is written back out; the
/// first unreadable line stops everything.
#[verifier::loop_isolation(false)]
pub fn replace_tvg(
    input: &str,
    replace: &Vec<(String, String)>,
    channels: &Vec<ChannelInfo>,
) -> (r: Result<String, Error>)
    ensures
        ({
            let parsed = Playlist::spec_parse_all(
                crate::m3u::PlaylistModel {
                    lines: crate::m3u::spec_split_lines(input@),
                    pos: 0,
                    in_body: false,
                    current: crate::m3u::spec_empty_entry(),
                    line_number: 0,
                },
            );
            match r {
                Ok(text) => parsed matches Ok(entries) && text@ == "#EXTM3U"@ + "\n"@
                    + spec_replaced_text(entries, replace.deep_view(), channels.deep_view()),
                Err(e) => parsed matches Err(em) && em == e@,
            }
        }),
{
    let mut playlist = Playlist::open(input);
    let entries = match playlist.parse_all() {
        Ok(entries) => entries,
        Err(e) => {
            return Err(e);
        },
    };
    let ghost entriesv = entries.deep_view();
    let mut writer = PlaylistWriter::new();
    let mut i: usize = 0;
    while i < entries.len()
        invariant
            i <= entries@.len(),
            entriesv == entries.deep_view(),
            writer@ == "#EXTM3U"@ + "\n"@ + spec_replaced_text(
                entriesv.take(i as int),
                replace.deep_view(),
                channels.deep_view(),
            ),
        decreases entries@.len() - i,
    {
        let mut entry = entries[i].clone();
        proof {
            assert(entriesv[i as int] == entries@[i as int]@);
            assert(entriesv.take(i as int + 1).drop_last() =~= entriesv.take(i as int));
            assert(entriesv.take(i as int + 1).last() == entriesv[i as int]);
        }
        match rename_of(replace, entry.name()) {
            Some(nm) => {
                if nm.as_str().is_empty() {
                    entry.set_tvg_id(crate::text::empty_str());
                } else {
                    match alias_of_name(channels, nm.as_str()) {
                        Some(tvg) => {
                            let tvg = tvg.clone();
                            entry.set_tvg_id(tvg.as_str());
                        },
                        None => {},
                    }
                }
            },
            None => {},
        }
        proof {
            assert(entry@ == spec_replaced_entry(
                entriesv[i as int],
                replace.deep_view(),
                channels.deep_view(),
            ));
        }
        writer.push(&entry);
        i += 1;
    }
    proof {
        assert(entriesv.take(entries@.len() as int) =~= entriesv);
    }
    Ok(writer.into_string())
}

} // verus!
