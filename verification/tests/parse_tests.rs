use epg_engine::db::ProgramsDatabase;
use epg_engine::server::EpgServer;
use epg_engine::timestamp::to_timestamp;
use epg_engine::xmltv::{ParseError, XmltvItem, XmltvReader};

#[test]
fn test_date() {
    let hour = 3600;
    // 2020-05-30 18:10:00 at UTC+2, i.e. 16:10:00 UTC.
    assert_eq!(to_timestamp("20200530181000 +0200").unwrap(), 1590862200 - 2 * hour);
    // 2020-05-30 16:45:00 taken as UTC.
    assert_eq!(to_timestamp("20200530164500").unwrap(), 1590857100);
}

#[test]
fn date_rejects_malformed_input() {
    assert!(to_timestamp("").is_none());
    assert!(to_timestamp("garbage").is_none());
    assert!(to_timestamp("20201340000000").is_none());
    assert!(to_timestamp("20200530181000 +9999").is_none());
}

#[test]
fn date_clamps_before_epoch() {
    assert_eq!(to_timestamp("19600101000000").unwrap(), 0);
}

fn collect(reader: &mut XmltvReader) -> (Vec<XmltvItem>, Option<ParseError>) {
    let mut items = Vec::new();
    loop {
        match reader.next() {
            None => return (items, None),
            Some(Ok(item)) => items.push(item),
            Some(Err(e)) => return (items, Some(e)),
        }
    }
}

#[test]
fn parse_whole_feed() {
    let feed = "<?xml version=\"1.0\" encoding=\"utf-8\"?>\n\
        <tv>\n\
          <channel id=\"c1\">\n\
            <display-name>Channel &amp; One</display-name>\n\
            <icon src=\"http://icons.org/one.png\"/>\n\
          </channel>\n\
          <programme start=\"20200530160000\" stop=\"20200530170000\" channel=\"c1\">\n\
            <title>News</title>\n\
            <desc>Evening news</desc>\n\
          </programme>\n\
        </tv>\n";
    let mut reader = XmltvReader::new(feed);
    let (items, err) = collect(&mut reader);
    assert!(err.is_none());
    assert_eq!(items.len(), 2);
    match &items[0] {
        XmltvItem::Channel(c) => {
            assert_eq!(c.alias, "c1");
            assert_eq!(c.name, "Channel & One");
            assert_eq!(c.icon_url, "http://icons.org/one.png");
        },
        _ => panic!("expected a channel record"),
    }
    match &items[1] {
        XmltvItem::Program((alias, p)) => {
            assert_eq!(alias, "c1");
            assert_eq!(p.begin, to_timestamp("20200530160000").unwrap());
            assert_eq!(p.end, to_timestamp("20200530170000").unwrap());
            assert_eq!(p.title, "News");
            assert_eq!(p.description, "Evening news");
        },
        _ => panic!("expected a program record"),
    }
}

#[test]
fn parse_bad_timestamp_falls_back() {
    let feed = "<tv><channel id=\"c1\"></channel>\
        <programme start=\"oops\" stop=\"nope\" channel=\"c1\"><title>x</title></programme></tv>";
    let mut reader = XmltvReader::new(feed);
    let (items, err) = collect(&mut reader);
    assert!(err.is_none());
    match &items[1] {
        XmltvItem::Program((_, p)) => {
            assert_eq!(p.begin, 0);
            assert_eq!(p.end, 60);
        },
        _ => panic!("expected a program record"),
    }
}

#[test]
fn parse_unknown_attribute_is_an_offence() {
    let feed = "<tv><programme wat=\"1\" channel=\"c1\"></programme></tv>";
    let mut reader = XmltvReader::new(feed);
    let (_, err) = collect(&mut reader);
    assert_eq!(err, Some(ParseError::UnknownAttribute));
}

#[test]
fn parse_unexpected_markup_is_an_offence() {
    let feed = "<tv><channel id=\"c1\"><!-- hm --></channel></tv>";
    let mut reader = XmltvReader::new(feed);
    let (_, err) = collect(&mut reader);
    assert_eq!(err, Some(ParseError::UnexpectedMarkup));
}

#[test]
fn parse_malformed_markup_is_an_offence() {
    let feed = "<tv><channel id=\"c1\"></channel><pro";
    let mut reader = XmltvReader::new(feed);
    let (_, err) = collect(&mut reader);
    assert_eq!(err, Some(ParseError::Markup));
}

#[test]
fn partial_failure_keeps_parsed_records() {
    // Three valid channel+program pairs, then malformed markup: after the
    // failed ingest exactly those three programs are queryable.
    let mut feed = String::from("<tv>");
    for k in 1..=3 {
        feed.push_str(&format!(
            "<channel id=\"c{}\"><display-name>Ch{}</display-name></channel>\
             <programme start=\"2020053016000{}\" stop=\"20200530170000\" channel=\"c{}\">\
             <title>p{}</title></programme>",
            k, k, k, k, k
        ));
    }
    feed.push_str("<channel id=");
    let mut db = ProgramsDatabase::open();
    let mut reader = XmltvReader::new(&feed);
    let r = db.load_xmltv(&mut reader, 0, 0);
    assert!(r.is_err());
    let channels = db.get_channels();
    assert_eq!(channels.len(), 3);
    for &(id, _) in channels.iter() {
        assert_eq!(db.get_range(id, 0, i64::MAX).len(), 1);
    }
}

#[test]
fn cache_coherency_on_get_now() {
    let feed = "<tv><channel id=\"c1\"><display-name>One</display-name></channel>\
        <programme start=\"20200530160000\" stop=\"20200530170000\" channel=\"c1\">\
        <title>first</title></programme>\
        <programme start=\"20200530170000\" stop=\"20200530180000\" channel=\"c1\">\
        <title>second</title></programme></tv>";
    let t = to_timestamp("20200530163000").unwrap();
    let mut server = EpgServer::new();
    let mut reader = XmltvReader::new(feed);
    server.update_data(&mut reader, t, 0).unwrap();

    // Two queries at one instant with no ingest between them answer alike.
    let first = server.get_now(t, None);
    let second = server.get_now(t, None);
    assert_eq!(first.len(), second.len());
    for (a, b) in first.iter().zip(second.iter()) {
        assert_eq!(a.channel_id, b.channel_id);
        assert_eq!(a.programs, b.programs);
    }
    assert_eq!(first.len(), 1);
    assert_eq!(first[0].programs[0].title, "first");

    // After an ingest the next query sees the new data, not the snapshot.
    let feed2 = "<tv><channel id=\"c1\"><display-name>One</display-name></channel>\
        <programme start=\"20200530160000\" stop=\"20200530170000\" channel=\"c1\">\
        <title>replaced</title></programme></tv>";
    let mut reader2 = XmltvReader::new(feed2);
    server.update_data(&mut reader2, t, 0).unwrap();
    let third = server.get_now(t, None);
    assert_eq!(third[0].programs[0].title, "replaced");
}

#[test]
fn get_now_filters_requested_channels() {
    let feed = "<tv>\
        <channel id=\"c1\"><display-name>One</display-name></channel>\
        <channel id=\"c2\"><display-name>Two</display-name></channel>\
        <programme start=\"20200530160000\" stop=\"20200530170000\" channel=\"c1\">\
        <title>a</title></programme>\
        <programme start=\"20200530160000\" stop=\"20200530170000\" channel=\"c2\">\
        <title>b</title></programme></tv>";
    let t = to_timestamp("20200530163000").unwrap();
    let mut server = EpgServer::new();
    let mut reader = XmltvReader::new(feed);
    server.update_data(&mut reader, t, 0).unwrap();
    let ids = server.list_channels();
    assert_eq!(ids.len(), 2);
    let c2 = ids[1].0;
    let only = server.get_now(t, Some(&vec![c2]));
    assert_eq!(only.len(), 1);
    assert_eq!(only[0].channel_id, c2);
    assert_eq!(only[0].programs[0].title, "b");
}

#[test]
fn channel_indexes_list_aliases_and_names() {
    let feed = "<tv>\
        <channel id=\"c1\"><display-name>One</display-name></channel>\
        <channel id=\"c2\"><display-name>Two</display-name></channel>\
        <programme start=\"20200530160000\" stop=\"20200530170000\" channel=\"c1\">\
        <title>a</title></programme>\
        <programme start=\"20200530160000\" stop=\"20200530170000\" channel=\"c2\">\
        <title>b</title></programme></tv>";
    let t = to_timestamp("20200530163000").unwrap();
    let mut server = EpgServer::new();
    let mut reader = XmltvReader::new(feed);
    server.update_data(&mut reader, t, 0).unwrap();
    let by_alias = server.get_channels_alias();
    let by_name = server.get_channels_name();
    assert_eq!(by_alias.iter().map(|(a, _)| a.as_str()).collect::<Vec<_>>(), ["c1", "c2"]);
    assert_eq!(by_name.iter().map(|(n, _)| n.as_str()).collect::<Vec<_>>(), ["One", "Two"]);
    assert_eq!(by_alias[0].1, by_name[0].1);
    let found = server.find_channel_by_alias(&String::from("c2"));
    assert!(matches!(found, Some((_, _))));
}

#[test]
fn self_closing_top_level_yields_record() {
    // A self-closing element is an immediate start+end pair: its record is
    // emitted and parsing stays at the top level.
    let feed = "<tv><channel id=\"c1\"/>\
        <programme start=\"20200530160000\" stop=\"20200530170000\" channel=\"c1\"/></tv>";
    let mut reader = XmltvReader::new(feed);
    let (items, err) = collect(&mut reader);
    assert!(err.is_none());
    assert_eq!(items.len(), 2);
    assert!(matches!(&items[0], XmltvItem::Channel(c) if c.alias == "c1"));
    assert!(matches!(&items[1], XmltvItem::Program((alias, _)) if alias == "c1"));
}

#[test]
fn failed_ingest_still_invalidates_cache() {
    // The merge and prune run even when the parse fails partway, so the
    // snapshot is dropped either way.
    let feed = "<tv><channel id=\"c1\"><display-name>One</display-name></channel>\
        <programme start=\"20200530160000\" stop=\"20200530170000\" channel=\"c1\">\
        <title>old</title></programme></tv>";
    let t = to_timestamp("20200530163000").unwrap();
    let mut server = EpgServer::new();
    let mut reader = XmltvReader::new(feed);
    server.update_data(&mut reader, t, 0).unwrap();
    let before = server.get_now(t, None);
    assert_eq!(before[0].programs[0].title, "old");

    let feed2 = "<tv><channel id=\"c1\"><display-name>One</display-name></channel>\
        <programme start=\"20200530160000\" stop=\"20200530170000\" channel=\"c1\">\
        <title>fresh</title></programme><chan";
    let mut reader2 = XmltvReader::new(feed2);
    assert!(server.update_data(&mut reader2, t, 0).is_err());
    let after = server.get_now(t, None);
    assert_eq!(after[0].programs[0].title, "fresh");
}

#[test]
fn get_channels_sorts_by_name() {
    let feed = "<tv>\
        <channel id=\"z\"><display-name>Zeta</display-name></channel>\
        <channel id=\"a\"><display-name>Alpha</display-name></channel>\
        <programme start=\"20200530160000\" stop=\"20200530170000\" channel=\"z\">\
        <title>x</title></programme>\
        <programme start=\"20200530160000\" stop=\"20200530170000\" channel=\"a\">\
        <title>y</title></programme></tv>";
    let t = to_timestamp("20200530163000").unwrap();
    let mut server = EpgServer::new();
    let mut reader = XmltvReader::new(feed);
    server.update_data(&mut reader, t, 0).unwrap();
    let by_name = server.get_channels();
    assert_eq!(
        by_name.iter().map(|(_, c)| c.name.as_str()).collect::<Vec<_>>(),
        ["Alpha", "Zeta"]
    );
    // The id-ordered listing is unchanged.
    let by_id = server.list_channels();
    assert_eq!(
        by_id.iter().map(|(_, c)| c.name.as_str()).collect::<Vec<_>>(),
        ["Zeta", "Alpha"]
    );
    // Look channels up by id.
    let zid = by_id[0].0;
    assert_eq!(server.find_channel(zid).unwrap().name, "Zeta");
    assert!(server.find_channel(zid + 100).is_none());
}

#[test]
fn get_epg_day_selects_one_civil_day() {
    let feed = "<tv><channel id=\"c1\"><display-name>One</display-name></channel>\
        <programme start=\"20200530160000\" stop=\"20200530170000\" channel=\"c1\">\
        <title>inside</title></programme>\
        <programme start=\"20200531010000\" stop=\"20200531020000\" channel=\"c1\">\
        <title>next day</title></programme></tv>";
    let t = to_timestamp("20200530163000").unwrap();
    let mut server = EpgServer::new();
    let mut reader = XmltvReader::new(feed);
    server.update_data(&mut reader, t, 0).unwrap();
    let id = server.list_channels()[0].0;
    let day = server.get_epg_day(id, 2020, 5, 30);
    assert_eq!(
        day.iter().map(|p| p.title.as_str()).collect::<Vec<_>>(),
        ["inside"]
    );
}
