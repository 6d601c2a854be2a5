//! Domain types.

use glisser::model::{measured_from, now, parse_axis, Axis, Layer, PeerKind, Tier};

const DAY: i64 = 86_400;

#[test]
fn tier_boundaries() {
    let now = 1_000_000 * DAY;
    assert_eq!(Tier::of(now, now), Tier::T0);
    assert_eq!(Tier::of(now - 180 * DAY, now), Tier::T0);
    assert_eq!(Tier::of(now - 181 * DAY, now), Tier::T1);
    assert_eq!(Tier::of(now - 365 * DAY, now), Tier::T1);
    // Over a year old and everyday: kept.
    assert_eq!(Tier::of(now - 366 * DAY, now), Tier::T2);
}

#[test]
fn older_tiers_are_damped() {
    assert!(Tier::T2.multiplier() < Tier::T1.multiplier());
    assert!(Tier::T1.multiplier() < Tier::T0.multiplier());
}

#[test]
fn axis_names_round_trip() {
    for a in Axis::ALL {
        assert_eq!(Axis::parse(a.as_str()), Some(a));
    }
}

#[test]
fn a_day_counts_once_it_is_over() {
    let now = 1_000_000 * DAY;
    // One second short of the 181st day.
    assert_eq!(Tier::of(now - (181 * DAY - 1), now), Tier::T0);
    assert_eq!(Tier::of(now - (366 * DAY - 1), now), Tier::T1);
    // A message from the future is fresh.
    assert_eq!(Tier::of(now + 10 * DAY, now), Tier::T0);
}

#[test]
fn multipliers_are_in_hundredths() {
    assert_eq!(Tier::T0.multiplier(), 100);
    assert_eq!(Tier::T1.multiplier(), 85);
    assert_eq!(Tier::T2.multiplier(), 45);
}

#[test]
fn tier_names_round_trip() {
    for t in [Tier::T0, Tier::T1, Tier::T2] {
        assert_eq!(Tier::parse(t.as_str()), Some(t));
    }
    assert_eq!(Tier::parse("T3"), None);
    assert_eq!(Tier::parse(""), None);
    assert_eq!(Axis::parse("Politics"), None);
}

#[test]
fn age_never_hardens() {
    let now = 1_000_000 * DAY;
    let mut last = Tier::T0.order();
    for days in 0..400 {
        let t = Tier::of(now - days * DAY, now).order();
        assert!(last <= t);
        last = t;
    }
    assert_eq!(last, 2);
}

#[test]
fn export_types_name_peers() {
    assert_eq!(PeerKind::from_export_type("saved_messages"), PeerKind::SavedMessages);
    assert_eq!(PeerKind::from_export_type("personal_chat"), PeerKind::User);
    assert_eq!(PeerKind::from_export_type("bot_chat"), PeerKind::User);
    assert_eq!(PeerKind::from_export_type("replies"), PeerKind::User);
    assert_eq!(PeerKind::from_export_type("private_group"), PeerKind::Chat);
    assert_eq!(PeerKind::from_export_type("private_supergroup"), PeerKind::Megagroup);
    assert_eq!(PeerKind::from_export_type("public_supergroup"), PeerKind::Megagroup);
    assert_eq!(PeerKind::from_export_type("private_channel"), PeerKind::Channel);
    assert_eq!(PeerKind::from_export_type("public_channel"), PeerKind::Channel);
    assert_eq!(PeerKind::from_export_type("something new"), PeerKind::Megagroup);
    assert_eq!(PeerKind::from_export_type(""), PeerKind::Megagroup);
    assert_eq!(PeerKind::SavedMessages.as_str(), "saved_messages");
    assert_eq!(PeerKind::Megagroup.as_str(), "megagroup");
    assert_eq!(PeerKind::User.as_str(), "user");
    assert_eq!(PeerKind::Chat.as_str(), "chat");
    assert_eq!(PeerKind::Channel.as_str(), "channel");
}

#[test]
fn layers_have_names() {
    assert_eq!(Layer::Keyword.as_str(), "keyword");
    assert_eq!(Layer::Regex.as_str(), "regex");
    assert_eq!(Layer::Topology.as_str(), "structural");
}

#[test]
fn an_unknown_axis_is_named() {
    assert_eq!(parse_axis("lgbt"), Ok(Axis::Lgbt));
    assert_eq!(parse_axis("sports"), Err("unknown axis: sports".to_string()));
}

#[test]
fn ages_are_measured_from_the_reference_day() {
    assert_eq!(measured_from(Some("2020-01-01"), 7), Some(1_577_836_800));
    assert_eq!(measured_from(Some("1970-01-01"), 7), Some(0));
    assert_eq!(measured_from(Some("2020-13-01"), 7), None);
    assert_eq!(measured_from(Some("yesterday"), 7), None);
    assert_eq!(measured_from(None, 7), Some(7));
    // Without a configured reference it is the present, well after 2020.
    assert!(now().unwrap() > 1_577_836_800);
}
