use epg_engine::epg::ChannelInfo;
use epg_engine::m3u::{Entry, Error, ErrorKind, Playlist, PlaylistWriter};
use epg_engine::playlist::replace_tvg;

#[test]
fn ok() {
    let data = "#EXTM3U\n\
        #EXTINF:0 tvg-logo=\"http://icons.org/qqq.png\" tvg-id=\"ch1\",Channel 1\n\
        #EXTGRP:Funny\n\
        http://url.com/foo/bar/1.m3u8\n\
        #EXTINF:0,Channel 2\n\
        \n\
        #EXTGRP:Serious\n\
        http://url.com/foo/bar/20.m3u8\n\
        #EXTINF:0,Other channel\n\
        #EXTGRP:Serious\n\
        http://url.com/foo/bar/300.m3u8\n\
        #EXTINF:0 group-title=\"Hilarious\",Foobar\n\
        http://url.com/foo/bar/1000.m3u8\n";
    let playlist = Playlist::open(data).parse_all().unwrap();

    // Test playlist parser
    assert_eq!(playlist.len(), 4);

    assert_eq!(
        playlist[0].info,
        "#EXTINF:0 tvg-logo=\"http://icons.org/qqq.png\" tvg-id=\"ch1\",Channel 1"
    );
    assert_eq!(playlist[0].url, "http://url.com/foo/bar/1.m3u8");
    assert_eq!(playlist[0].group, "#EXTGRP:Funny");

    assert_eq!(playlist[1].info, "#EXTINF:0,Channel 2");
    assert_eq!(playlist[1].url, "http://url.com/foo/bar/20.m3u8");
    assert_eq!(playlist[1].group, "#EXTGRP:Serious");

    assert_eq!(playlist[2].info, "#EXTINF:0,Other channel");
    assert_eq!(playlist[2].url, "http://url.com/foo/bar/300.m3u8");
    assert_eq!(playlist[2].group, "#EXTGRP:Serious");

    assert_eq!(playlist[3].info, "#EXTINF:0 group-title=\"Hilarious\",Foobar");
    assert_eq!(playlist[3].url, "http://url.com/foo/bar/1000.m3u8");
    assert_eq!(playlist[3].group, "");

    // Test entry parser

    assert_eq!(playlist[0].name(), "Channel 1");
    assert_eq!(playlist[0].group(), "Funny");
    assert_eq!(playlist[0].tvg_id(), "ch1");
    assert_eq!(playlist[0].tvg_logo(), "http://icons.org/qqq.png");

    assert_eq!(playlist[3].name(), "Foobar");
    assert_eq!(playlist[3].group(), "Hilarious");
    assert_eq!(playlist[3].tvg_id(), "");
    assert_eq!(playlist[3].tvg_logo(), "");
}

#[test]
fn bad_header() {
    let data = "#EXTINF:0,Foo\nhttp://url.com/foo/bar/20.m3u8\n";
    let playlist = Playlist::open(data).parse_all();
    assert!(matches!(playlist, Err(Error::M3UError((1, ErrorKind::InvalidHeader)))));
}

#[test]
fn no_info() {
    let data = "#EXTM3U\nhttp://url.com/foo/bar/20.m3u8\n";
    let playlist = Playlist::open(data).parse_all();
    assert!(matches!(playlist, Err(Error::M3UError((2, ErrorKind::ExpectedInfo)))));
}

#[test]
fn no_url() {
    let data = "#EXTM3U\n#EXTINF:0,Foo\n#EXTINF:0,Bar\n";
    let playlist = Playlist::open(data).parse_all();
    assert!(matches!(playlist, Err(Error::M3UError((3, ErrorKind::ExpectedUrl)))));
}

#[test]
fn bad_url() {
    let data = "#EXTM3U\n#EXTINF:0,Foobar\niptv.com/20.m3u8\n";
    let playlist = Playlist::open(data).parse_all();
    assert!(matches!(playlist, Err(Error::M3UError((3, ErrorKind::InvalidUrl)))));
}

#[test]
fn repeated_group_is_an_offence() {
    let data = "#EXTM3U\n#EXTINF:0,Foo\n#EXTGRP:One\n#EXTGRP:Two\nhttp://url.com/x.m3u8\n";
    let playlist = Playlist::open(data).parse_all();
    assert!(matches!(playlist, Err(Error::M3UError((4, ErrorKind::RepeatedGroup)))));
}

#[test]
fn tvg_id() {
    let data = "#EXTM3U\n\
        #EXTINF:0 tvg-id=\"fb\",Foobar\n\
        http://iptv.com/1.m3u8\n\
        #EXTINF:0,Channel\n\
        http://iptv.com/2.m3u8\n";
    let mut playlist = Playlist::open(data).parse_all().unwrap();
    let entry = &mut playlist[0];
    assert_eq!(entry.tvg_id(), "fb");
    entry.set_tvg_id("foobar");
    assert_eq!(entry.info, "#EXTINF:0 tvg-id=\"foobar\",Foobar");
    let entry = &mut playlist[1];
    assert_eq!(entry.tvg_id(), "");
    entry.set_tvg_id("ch");
    assert_eq!(entry.info, "#EXTINF:0 tvg-id=\"ch\",Channel");
}

#[test]
fn writer_roundtrip() {
    let data = "#EXTM3U\n#EXTGRP:Funny\n#EXTINF:0,Foo\nhttp://url.com/1.m3u8\n";
    let entries = Playlist::open(data).parse_all().unwrap();
    let mut writer = PlaylistWriter::new();
    for e in entries.iter() {
        writer.push(e);
    }
    assert_eq!(writer.into_string(), data);
}

#[test]
fn append_attributes_keeps_name() {
    let mut entry = Entry {
        url: String::from("http://url.com/1.m3u8"),
        info: String::from("#EXTINF:0,Some Name"),
        group: String::new(),
    };
    entry.append_attributes(&[("tvg-logo", "http://icons.org/a.png")]);
    assert_eq!(entry.info, "#EXTINF:0 tvg-logo=\"http://icons.org/a.png\",Some Name");
    assert_eq!(entry.name(), "Some Name");
    assert_eq!(entry.tvg_logo(), "http://icons.org/a.png");
}

#[test]
fn replace_tvg_rebinds_renamed_entries() {
    let input = "#EXTM3U\n\
        #EXTINF:0 tvg-id=\"old\",Some Show\n\
        http://url.com/1.m3u8\n\
        #EXTINF:0,Untouched\n\
        http://url.com/2.m3u8\n";
    let replace = vec![(String::from("Some Show"), String::from("Channel One"))];
    let channels = vec![ChannelInfo {
        alias: String::from("c1"),
        name: String::from("Channel One"),
        icon_url: String::new(),
    }];
    let out = replace_tvg(input, &replace, &channels).unwrap();
    assert_eq!(
        out,
        "#EXTM3U\n\
         #EXTINF:0 tvg-id=\"c1\",Some Show\n\
         http://url.com/1.m3u8\n\
         #EXTINF:0,Untouched\n\
         http://url.com/2.m3u8\n"
    );
}

#[test]
fn replace_tvg_unbinds_on_empty_rename() {
    let input = "#EXTM3U\n#EXTINF:0 tvg-id=\"old\",Some Show\nhttp://url.com/1.m3u8\n";
    let replace = vec![(String::from("Some Show"), String::new())];
    let channels: Vec<ChannelInfo> = Vec::new();
    let out = replace_tvg(input, &replace, &channels).unwrap();
    assert_eq!(out, "#EXTM3U\n#EXTINF:0 tvg-id=\"\",Some Show\nhttp://url.com/1.m3u8\n");
}
