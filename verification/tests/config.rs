use edgehop::config::{default_cooldown, default_dwell, Channel, Config, Device, Edges};
use edgehop::desktop::Edge;

fn channel(number: u8) -> Channel {
    Channel::new(number).unwrap()
}

fn keyboard() -> Device {
    Device {
        name: "MX Keys S".into(),
        vendor_id: 0x046D,
        product_id: 0xB378,
        usage_page: 0xFF43,
        usage: 0x0202,
        device_index: 0xFF,
    }
}

#[test]
fn rejects_a_config_without_devices() {
    let config = Config {
        dwell: default_dwell(),
        cooldown: default_cooldown(),
        edges: Edges::default(),
        devices: vec![],
    };
    let error = config.checked("/home/me/config.toml").unwrap_err();
    assert!(error.ends_with("lists no devices"), "{error}");
    assert_eq!(error, "/home/me/config.toml lists no devices");
}

#[test]
fn accepts_a_config_with_devices() {
    let config = Config {
        dwell: 100,
        cooldown: 500,
        edges: Edges {
            left: Some(channel(1)),
            ..Edges::default()
        },
        devices: vec![keyboard()],
    };
    let checked = config.checked("config.toml").unwrap();
    assert_eq!(checked.devices, [keyboard()]);
    assert_eq!(checked.dwell, 100);
}

#[test]
fn defaults_timing() {
    assert_eq!(default_dwell(), 250);
    assert_eq!(default_cooldown(), 2000);
    assert_eq!(
        Edges::default(),
        Edges {
            left: None,
            right: None,
            top: None,
            bottom: None
        }
    );
}

#[test]
fn maps_each_edge_to_its_channel() {
    let edges = Edges {
        left: Some(channel(1)),
        right: Some(channel(2)),
        top: Some(channel(3)),
        bottom: None,
    };
    assert_eq!(edges.channel(Edge::Left), Some(channel(1)));
    assert_eq!(edges.channel(Edge::Right), Some(channel(2)));
    assert_eq!(edges.channel(Edge::Top), Some(channel(3)));
    assert_eq!(edges.channel(Edge::Bottom), None);
    assert_eq!(edges.configured(), [Edge::Left, Edge::Right, Edge::Top]);
}

#[test]
fn numbers_hosts_from_zero() {
    assert_eq!(channel(1).host_index(), 0);
    assert_eq!(channel(3).host_index(), 2);
}

#[test]
fn parses_channels_from_the_command_line() {
    assert_eq!("2".parse(), Ok(channel(2)));
    assert_eq!(
        "0".parse::<Channel>(),
        Err("Easy-Switch channel must be 1, 2 or 3, not 0".into())
    );
    assert_eq!(
        "two".parse::<Channel>(),
        Err(r#"Easy-Switch channel must be 1, 2 or 3, not "two""#.into())
    );
}

#[test]
fn parses_channels_as_rust_reads_numbers() {
    assert_eq!(Channel::parse("+3"), Ok(channel(3)));
    assert_eq!(Channel::parse("003"), Ok(channel(3)));
    assert_eq!(
        Channel::parse("256"),
        Err(r#"Easy-Switch channel must be 1, 2 or 3, not "256""#.into())
    );
    assert_eq!(
        Channel::parse("255"),
        Err("Easy-Switch channel must be 1, 2 or 3, not 255".into())
    );
    assert_eq!(
        Channel::parse(""),
        Err(r#"Easy-Switch channel must be 1, 2 or 3, not """#.into())
    );
    assert_eq!(
        Channel::parse("+"),
        Err(r#"Easy-Switch channel must be 1, 2 or 3, not "+""#.into())
    );
    assert_eq!(
        Channel::parse(" 2"),
        Err(r#"Easy-Switch channel must be 1, 2 or 3, not " 2""#.into())
    );
}

#[test]
fn rejects_channel_numbers_out_of_range() {
    assert_eq!(
        Channel::new(4),
        Err("Easy-Switch channel must be 1, 2 or 3, not 4".into())
    );
    assert_eq!(channel(2).get(), 2);
}

#[test]
fn displays_the_channel_number() {
    assert_eq!(channel(2).to_string(), "2");
}

#[test]
fn reads_back_each_channel_as_shown() {
    for number in 1..=3u8 {
        let shown = channel(number).to_string();
        assert_eq!(Channel::parse(&shown), Ok(channel(number)));
    }
}
