use epg_engine::epg::{Channel, Program};

fn prog(begin: i64, end: i64, title: &str) -> Program {
    Program { begin, end, title: String::from(title), description: String::new() }
}

fn sample_channel() -> Channel {
    Channel {
        id: 0,
        name: String::new(),
        icon_url: String::new(),
        programs: vec![prog(10, 20, "a"), prog(20, 25, "b"), prog(25, 40, "c")],
    }
}

#[test]
fn channel_programs_at() {
    let channel = sample_channel();
    {
        let programs = channel.programs_at(15, 2);
        assert_eq!(programs.len(), 2);
        assert_eq!(programs[0].title, "a");
        assert_eq!(programs[1].title, "b");
    }
    {
        let programs = channel.programs_at(21, 2);
        assert_eq!(programs.len(), 2);
        assert_eq!(programs[0].title, "b");
        assert_eq!(programs[1].title, "c");
    }
    {
        let programs = channel.programs_at(0, 1);
        assert_eq!(programs.len(), 0);
    }
    {
        let programs = channel.programs_at(100, 1);
        assert_eq!(programs.len(), 0);
    }
}

#[test]
fn channel_insert_one() {
    {
        let mut channel = sample_channel();
        channel.insert_one(prog(45, 50, "x"));
        assert_eq!(channel.programs[3].title, "x")
    }
    {
        let mut channel = sample_channel();
        channel.insert_one(prog(0, 10, "x"));
        assert_eq!(channel.programs[0].title, "x")
    }
}

#[test]
fn channel_prepend() {
    {
        let mut channel = sample_channel();
        channel.prepend_old_programs(&vec![prog(0, 5, "x"), prog(5, 10, "y")], 0);
        assert_eq!(
            channel.programs.iter().map(|p| p.clone().title).collect::<Vec<_>>(),
            ["x", "y", "a", "b", "c"]
        );
    }
    {
        let mut channel = sample_channel();
        channel.prepend_old_programs(&vec![prog(6, 11, "x"), prog(10, 12, "y")], 0);
        assert_eq!(
            channel.programs.iter().map(|p| p.clone().title).collect::<Vec<_>>(),
            ["x", "a", "b", "c"]
        );
    }
    {
        let mut channel = sample_channel();
        channel.prepend_old_programs(&vec![prog(0, 5, "x"), prog(5, 10, "y")], 3);
        assert_eq!(
            channel.programs.iter().map(|p| p.clone().title).collect::<Vec<_>>(),
            ["y", "a", "b", "c"]
        );
    }
}

#[test]
fn channel_sort() {
    let mut channel = Channel {
        id: 0,
        name: String::new(),
        icon_url: String::new(),
        programs: vec![prog(25, 40, "c"), prog(10, 20, "a"), prog(20, 25, "b")],
    };
    channel.sort_programs();
    assert_eq!(
        channel.programs.iter().map(|p| p.begin).collect::<Vec<_>>(),
        [10, 20, 25]
    );
    assert_eq!(
        channel.programs.iter().map(|p| p.clone().title).collect::<Vec<_>>(),
        ["a", "b", "c"]
    );
}

#[test]
fn channel_programs_range() {
    let channel = sample_channel();
    let programs = channel.programs_range(10, 25);
    assert_eq!(
        programs.iter().map(|p| p.clone().title).collect::<Vec<_>>(),
        ["a", "b"]
    );
    assert_eq!(channel.programs_range(41, 100).len(), 0);
}

#[test]
fn channel_sort_is_stable() {
    let mut channel = Channel {
        id: 0,
        name: String::new(),
        icon_url: String::new(),
        programs: vec![prog(10, 20, "first"), prog(5, 8, "early"), prog(10, 25, "second")],
    };
    channel.sort_programs();
    assert_eq!(
        channel.programs.iter().map(|p| p.clone().title).collect::<Vec<_>>(),
        ["early", "first", "second"]
    );
}
