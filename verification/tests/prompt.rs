//! The policy and its name.

use glisser::fnv::fnv_bytes;
use glisser::prompt::{assemble, build, en, profile, ru, text, Profile};

/// The policy has to read whole with an empty profile: no dangling
/// references to a block that is not there.
#[test]
fn policy_holds_together_without_a_profile() {
    for t in [&ru(), &en()] {
        let bare = t.policy.replace("{PROFILE}", "");
        assert!(!bare.contains("{PROFILE}"));
        assert!(!bare.to_lowercase().contains("профил"));
        assert!(!bare.to_lowercase().contains("profile"));
    }
}

#[test]
fn profile_lines_take_a_value() {
    for t in [&ru(), &en()] {
        for line in [t.occupation, t.account, t.travel] {
            assert!(line.contains("{}"), "{line}");
        }
    }
}

fn nobody() -> Profile {
    Profile { occupation: None, account_country: None, travel_country: None }
}

#[test]
fn a_policy_is_named_by_its_text() {
    assert_eq!(assemble(&nobody(), &ru()).id, "ru-55f0138f");
    assert_eq!(assemble(&nobody(), &en()).id, "en-b42d2c57");
    let somebody =
        Profile { occupation: Some("welder"), account_country: None, travel_country: Some("Turkey") };
    assert_eq!(assemble(&somebody, &ru()).id, "ru-471bb4d0");
    assert_eq!(assemble(&somebody, &en()).id, "en-a6fd171f");
}

#[test]
fn without_a_profile_the_place_closes_up() {
    for t in [ru(), en()] {
        assert_eq!(assemble(&nobody(), &t).text, t.policy.replace("{PROFILE}", ""));
    }
}

#[test]
fn set_fields_become_lines() {
    let t = en();
    let p = Profile { occupation: None, account_country: Some("Serbia"), travel_country: Some("Turkey") };
    let got = assemble(&p, &t).text;
    assert!(got.contains("=== OWNER PROFILE ==="));
    assert!(got.contains("- Foreign account: Serbia.\n"));
    assert!(got.contains("it works for the owner.\n\n=== WHAT COUNTS AS SHARP ==="));
    assert!(!got.contains("Occupation:"));
    assert!(!got.contains("{}"));
}

#[test]
fn the_configured_policy_is_built() {
    let p = build();
    assert_eq!(p.id, "ru-55f0138f");
    assert_eq!(p.text, assemble(&profile(), &text()).text);
    assert_eq!(text().tag, "ru");
    assert_eq!(text().tiers[2], "T2 — старше года, ЛОЯЛЬНО: только явно острое");
}

#[test]
fn the_fingerprint_is_fnv() {
    assert_eq!(fnv_bytes(b""), 2_166_136_261);
    assert_eq!(fnv_bytes(b"a"), 3_826_002_220);
    assert_eq!(fnv_bytes(b"foobar"), 3_214_735_720);
}
