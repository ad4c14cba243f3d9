use epg_engine::db::ProgramsDatabase;
use epg_engine::epg::{ChannelInfo, Program};
use epg_engine::update_status::UpdateStatus;
use epg_engine::xmltv::XmltvItem;

fn prog(begin: i64, end: i64, title: &str) -> Program {
    Program { begin, end, title: String::from(title), description: String::new() }
}

fn info(alias: &str, name: &str) -> ChannelInfo {
    ChannelInfo { alias: String::from(alias), name: String::from(name), icon_url: String::new() }
}

#[test]
fn test_database() {
    let mut db = ProgramsDatabase::open();

    db.update_channel(1, &info("c1", "ch1"));
    db.update_channel(2, &info("c2", "ch2"));
    db.update_channel(3, &info("c3", "ch3"));

    let channels = db.get_channels();
    assert_eq!(channels.iter().map(|&(id, _)| id).collect::<Vec<_>>(), vec![1, 2, 3]);

    for program in vec![prog(10, 20, "a"), prog(20, 25, "b"), prog(25, 40, "c")] {
        db.insert_program(1, &program);
    }
    for program in vec![prog(6, 17, "x"), prog(17, 30, "y"), prog(30, 50, "z")] {
        db.insert_program(2, &program);
    }
    db.append_programs();

    let t = 10;
    let result = db.get_at(t, 2);
    {
        let mut ids = result.iter().map(|r| r.channel_id).collect::<Vec<_>>();
        ids.sort();
        assert_eq!(ids, vec![1, 2]);
    }

    for r in db.get_at(10, 2).iter() {
        println!("{:?}", r);
        assert!(r.programs.len() <= 2);
        let p1 = r.programs.first().unwrap();
        assert!(p1.begin <= t && t < p1.end);
        let p2 = r.programs.iter().take(2).last().unwrap();
        assert!(p2.begin > t);
    }
}

#[test]
fn test_update_log() {
    let mut db = ProgramsDatabase::open();
    assert_eq!(db.get_last_update(), None);

    let st1 = UpdateStatus::new_ok(1613902200, 0);
    db.insert_update_status(st1.clone());
    assert_eq!(db.get_last_update(), Some(st1));

    let st2 = UpdateStatus::new_fail(1613902500, "failure message".to_owned());
    db.insert_update_status(st2.clone());
    assert_eq!(db.get_last_update(), Some(st2));

    let st3 = UpdateStatus::new_fail(1613902500, "another failure message".to_owned());
    db.insert_update_status(st3.clone());
    assert_eq!(db.get_last_update(), Some(st3));
}

#[test]
fn merge_supersedes_from_earliest_staged_instant() {
    // A channel holds [10,20), [20,25), [25,40); new data starts at 6.
    let mut db = ProgramsDatabase::open();
    db.update_channel(1, &info("c1", "ch1"));
    for program in vec![prog(10, 20, "a"), prog(20, 25, "b"), prog(25, 40, "c")] {
        db.insert_program(1, &program);
    }
    db.append_programs();

    for program in vec![prog(6, 17, "n1"), prog(17, 30, "n2")] {
        db.insert_program(1, &program);
    }
    db.append_programs();

    let live = db.get_range(1, 0, 1000);
    // No pre-merge program with begin >= 6 survives; the staged ones do.
    assert_eq!(
        live.iter().map(|p| p.clone().title).collect::<Vec<_>>(),
        ["n1", "n2"]
    );
}

#[test]
fn merge_keeps_strictly_earlier_history() {
    let mut db = ProgramsDatabase::open();
    db.update_channel(1, &info("c1", "ch1"));
    for program in vec![prog(0, 5, "old"), prog(10, 20, "a")] {
        db.insert_program(1, &program);
    }
    db.append_programs();

    db.insert_program(1, &prog(10, 22, "new"));
    db.append_programs();

    let live = db.get_range(1, 0, 1000);
    assert_eq!(
        live.iter().map(|p| p.clone().title).collect::<Vec<_>>(),
        ["old", "new"]
    );
}

#[test]
fn scenario_feed_range_and_now() {
    // Channel alias "c1" named "Ch1", programs (10,20,"a"), (20,25,"b"),
    // (25,40,"c").
    let items = vec![
        XmltvItem::Channel(info("c1", "Ch1")),
        XmltvItem::Program((String::from("c1"), prog(10, 20, "a"))),
        XmltvItem::Program((String::from("c1"), prog(20, 25, "b"))),
        XmltvItem::Program((String::from("c1"), prog(25, 40, "c"))),
    ];
    let mut db = ProgramsDatabase::open();
    db.ingest_records(&items, 0, 0);

    let channels = db.get_channels();
    assert_eq!(channels.len(), 1);
    let c1_id = channels[0].0;
    assert_eq!(channels[0].1.name, "Ch1");

    let range = db.get_range(c1_id, 0, 100);
    assert_eq!(
        range.iter().map(|p| (p.begin, p.end, p.title.as_str())).collect::<Vec<_>>(),
        [(10, 20, "a"), (20, 25, "b"), (25, 40, "c")]
    );

    let now = db.get_at(10, 2);
    assert_eq!(now.len(), 1);
    assert_eq!(now[0].channel_id, c1_id);
    assert_eq!(now[0].programs[0], prog(10, 20, "a"));
}

#[test]
fn scenario_retention_prunes_old_program() {
    // A program on [5,8) ingested with the retention horizon at t=1000000.
    let items = vec![
        XmltvItem::Channel(info("c1", "Ch1")),
        XmltvItem::Program((String::from("c1"), prog(5, 8, "old"))),
    ];
    let mut db = ProgramsDatabase::open();
    db.ingest_records(&items, 1_000_000, 0);
    let channels = db.get_channels();
    for &(id, _) in channels.iter() {
        assert_eq!(db.get_range(id, 0, 2_000_000).len(), 0);
    }
    // The channel itself is gone too: it has no programs left.
    assert_eq!(channels.len(), 0);
}

#[test]
fn alias_stability_across_reingest() {
    let items = vec![
        XmltvItem::Channel(info("c1", "Ch1")),
        XmltvItem::Program((String::from("c1"), prog(10, 20, "a"))),
        XmltvItem::Channel(info("c2", "Ch2")),
        XmltvItem::Program((String::from("c2"), prog(15, 30, "b"))),
    ];
    let mut db = ProgramsDatabase::open();
    db.ingest_records(&items, 0, 0);
    let first = db.get_channels();
    db.ingest_records(&items, 0, 0);
    let second = db.get_channels();
    let ids1 = first.iter().map(|&(id, _)| id).collect::<Vec<_>>();
    let ids2 = second.iter().map(|&(id, _)| id).collect::<Vec<_>>();
    assert_eq!(ids1, ids2);
    assert_eq!(second.len(), 2);
    let aliases = second.iter().map(|(_, c)| c.alias.clone()).collect::<Vec<_>>();
    assert_eq!(aliases, ["c1", "c2"]);
}

#[test]
fn numeric_alias_claims_its_id() {
    let items = vec![
        XmltvItem::Channel(info("42", "Numeric")),
        XmltvItem::Program((String::from("42"), prog(10, 20, "a"))),
    ];
    let mut db = ProgramsDatabase::open();
    db.ingest_records(&items, 0, 0);
    let channels = db.get_channels();
    assert_eq!(channels.len(), 1);
    assert_eq!(channels[0].0, 42);
}

#[test]
fn unknown_alias_program_is_dropped() {
    let items = vec![
        XmltvItem::Channel(info("c1", "Ch1")),
        XmltvItem::Program((String::from("c1"), prog(10, 20, "a"))),
        XmltvItem::Program((String::from("ghost"), prog(30, 40, "b"))),
    ];
    let mut db = ProgramsDatabase::open();
    db.ingest_records(&items, 0, 0);
    let channels = db.get_channels();
    assert_eq!(channels.len(), 1);
    let id = channels[0].0;
    assert_eq!(db.get_range(id, 0, 100).len(), 1);
}

#[test]
fn round_trip_whole_window() {
    let feed = vec![(10, 20, "a"), (20, 25, "b"), (25, 40, "c")];
    let mut items = vec![XmltvItem::Channel(info("c1", "Ch1"))];
    for &(b, e, t) in feed.iter() {
        items.push(XmltvItem::Program((String::from("c1"), prog(b, e, t))));
    }
    let mut db = ProgramsDatabase::open();
    db.ingest_records(&items, 0, 0);
    let id = db.get_channels()[0].0;
    // Query over [min begin, max end].
    let got = db.get_range(id, 10, 41);
    assert_eq!(
        got.iter().map(|p| (p.begin, p.end, p.title.as_str())).collect::<Vec<_>>(),
        feed
    );
}

#[test]
fn find_channel_by_alias_roundtrip() {
    let mut db = ProgramsDatabase::open();
    db.update_channel(7, &info("seven", "Seven"));
    let found = db.get_channel_by_alias(&String::from("seven"));
    assert!(matches!(found, Some((7, _))));
    assert!(db.get_channel_by_alias(&String::from("eight")).is_none());
}

#[test]
fn format_time_renders_utc() {
    let st = UpdateStatus::new_ok(1613902200, 0);
    assert_eq!(st.format_time(), "2021-02-21 10:10:00");
    let epoch = UpdateStatus::new_ok(0, 0);
    assert_eq!(epoch.format_time(), "1970-01-01 00:00:00");
}

#[test]
fn get_at_picks_earliest_ending() {
    // Rows stand in the table out of end order; the "now" query still
    // serves the soonest-ending programs first.
    let mut db = ProgramsDatabase::open();
    db.update_channel(1, &info("c1", "ch1"));
    db.insert_program(1, &prog(0, 100, "long"));
    db.insert_program(1, &prog(0, 50, "short"));
    db.append_programs();

    let one = db.get_at(0, 1);
    assert_eq!(one[0].programs.len(), 1);
    assert_eq!(one[0].programs[0].title, "short");

    let two = db.get_at(0, 2);
    assert_eq!(
        two[0].programs.iter().map(|p| p.clone().title).collect::<Vec<_>>(),
        ["short", "long"]
    );
}
