//! The names and tables of the domain, and how messages age.

use crate::model::{start_of, Axis, Layer, PeerKind, Tier};
use crate::clock::day_start_of;
use vstd::prelude::*;

verus! {

/// What each kind of chat in an export is; one that is not known counts as a
/// supergroup, so that it is seen.
pub proof fn law_chat_types_are_told_apart(s: Seq<char>)
    ensures
        PeerKind::of_export_type("saved_messages"@) == PeerKind::SavedMessages,
        PeerKind::of_export_type("personal_chat"@) == PeerKind::User,
        PeerKind::of_export_type("bot_chat"@) == PeerKind::User,
        PeerKind::of_export_type("replies"@) == PeerKind::User,
        PeerKind::of_export_type("private_group"@) == PeerKind::Chat,
        PeerKind::of_export_type("private_channel"@) == PeerKind::Channel,
        PeerKind::of_export_type("public_channel"@) == PeerKind::Channel,
        s != "saved_messages"@ && s != "personal_chat"@ && s != "bot_chat"@ && s != "replies"@ && s
            != "private_group"@ && s != "private_channel"@ && s != "public_channel"@
            ==> PeerKind::of_export_type(s) == PeerKind::Megagroup,
{
    reveal_strlit("saved_messages");
    reveal_strlit("personal_chat");
    reveal_strlit("bot_chat");
    reveal_strlit("replies");
    reveal_strlit("private_group");
    reveal_strlit("private_channel");
    reveal_strlit("public_channel");
    assert("private_group"@.len() == 13 && "personal_chat"@.len() == 13);
    assert("private_group"@[1] != "personal_chat"@[1]);
    assert("saved_messages"@.len() == 14 && "public_channel"@.len() == 14);
    assert("saved_messages"@[0] != "public_channel"@[0]);
    assert("bot_chat"@.len() == 8 && "replies"@.len() == 7 && "private_channel"@.len() == 15);
}

/// What kinds, axes, tiers and layers are called.
pub proof fn law_names(kind: PeerKind, axis: Axis, tier: Tier, layer: Layer)
    ensures
        kind.name() == (match kind {
            PeerKind::User => "user"@,
            PeerKind::Chat => "chat"@,
            PeerKind::Channel => "channel"@,
            PeerKind::Megagroup => "megagroup"@,
            PeerKind::SavedMessages => "saved_messages"@,
        }),
        axis.name() == (match axis {
            Axis::Politics => "politics"@,
            Axis::Crypto => "crypto"@,
            Axis::CryptoHard => "crypto_hard"@,
            Axis::ForeignMedia => "foreign_media"@,
            Axis::Emigration => "emigration"@,
            Axis::Lgbt => "lgbt"@,
            Axis::ForeignFinance => "foreign_finance"@,
        }),
        tier.name() == (match tier {
            Tier::T0 => "T0"@,
            Tier::T1 => "T1"@,
            Tier::T2 => "T2"@,
        }),
        layer.name() == (match layer {
            Layer::Keyword => "keyword"@,
            Layer::Regex => "regex"@,
            Layer::Topology => "structural"@,
        }),
{
}

/// Age counts in whole days: a message is fresh up to and with half a year,
/// recent up to and with a year, and old after that; one from the future is
/// fresh.
pub proof fn law_ages_count_in_whole_days(age: int)
    ensures
        Tier::of_age(age) == Tier::T0 <==> age / 86_400 <= 180,
        Tier::of_age(age) == Tier::T1 <==> 180 < age / 86_400 <= 365,
        Tier::of_age(age) == Tier::T2 <==> age / 86_400 > 365,
        age < 0 ==> Tier::of_age(age) == Tier::T0,
{
}

/// What a tier weighs, in hundredths.
pub proof fn law_tiers_weigh(tier: Tier)
    ensures
        tier == Tier::T0 ==> tier.weight_factor() == 100,
        tier == Tier::T1 ==> tier.weight_factor() == 85,
        tier == Tier::T2 ==> tier.weight_factor() == 45,
{
}

/// A day begins at its start, and what is no day begins nowhere.
pub proof fn law_days_begin(day: Seq<char>)
    ensures
        day_start_of(day) matches Ok(at) ==> start_of(day) == Some(at),
        day_start_of(day) is Err ==> start_of(day) is None,
{
}

} // verus!
