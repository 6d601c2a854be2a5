//! Domain types shared by every stage of the pipeline.

use crate::clock::{current_second, day_start, day_start_of};
use crate::config::{
    REFERENCE_DATE, T0_DAYS, T0_MULTIPLIER, T1_DAYS, T1_MULTIPLIER, T2_MULTIPLIER,
};
use crate::text::{opt_view, same};
use vstd::prelude::*;

verus! {

/// Peer type. Decides what can be done with a dialog at all: a broadcast
/// channel holds no messages of ours — only unsubscribing removes us.
#[derive(Debug, Clone, Copy, PartialEq, Eq, Structural)]
pub enum PeerKind {
    User,
    Chat,
    Channel,
    Megagroup,
    SavedMessages,
}

impl PeerKind {
    pub open spec fn name(self) -> Seq<char> {
        match self {
            PeerKind::User => "user"@,
            PeerKind::Chat => "chat"@,
            PeerKind::Channel => "channel"@,
            PeerKind::Megagroup => "megagroup"@,
            PeerKind::SavedMessages => "saved_messages"@,
        }
    }

    pub fn as_str(self) -> (r: &'static str)
        ensures
            r@ == self.name(),
    {
        match self {
            PeerKind::User => "user",
            PeerKind::Chat => "chat",
            PeerKind::Channel => "channel",
            PeerKind::Megagroup => "megagroup",
            PeerKind::SavedMessages => "saved_messages",
        }
    }

    /// The peer behind a `type` value of the export.
    pub open spec fn of_export_type(s: Seq<char>) -> PeerKind {
        if s == "saved_messages"@ {
            PeerKind::SavedMessages
        } else if s == "personal_chat"@ || s == "bot_chat"@ || s == "replies"@ {
            PeerKind::User
        } else if s == "private_group"@ {
            PeerKind::Chat
        } else if s == "private_channel"@ || s == "public_channel"@ {
            PeerKind::Channel
        } else {
            PeerKind::Megagroup
        }
    }

    /// `type` values as Telegram Desktop writes them into the export.
    pub fn from_export_type(s: &str) -> (r: Self)
        ensures
            r == PeerKind::of_export_type(s@),
    {
        if same(s, "saved_messages") {
            PeerKind::SavedMessages
        } else if same(s, "personal_chat") || same(s, "bot_chat") || same(s, "replies") {
            PeerKind::User
        } else if same(s, "private_group") {
            PeerKind::Chat
        } else if same(s, "private_channel") || same(s, "public_channel") {
            PeerKind::Channel
        } else {
            // Supergroups, and every unknown type: a supergroup is deletable,
            // so it reaches the plan and is seen by a human.
            PeerKind::Megagroup
        }
    }
}

#[derive(Debug, Clone)]
pub struct Dialog {
    /// Raw id, without the -100 prefix.
    pub id: i64,
    pub kind: PeerKind,
    /// Needed to build an InputPeer for deletion. Absent from the export.
    pub access_hash: Option<i64>,
    pub title: String,
    pub username: Option<String>,
    pub archived: bool,
    pub msg_count: i64,
}

/// A dialog as plain values.
pub struct DialogView {
    pub id: i64,
    pub kind: PeerKind,
    pub access_hash: Option<i64>,
    pub title: Seq<char>,
    pub username: Option<Seq<char>>,
    pub archived: bool,
    pub msg_count: i64,
}

impl View for Dialog {
    type V = DialogView;

    open spec fn view(&self) -> DialogView {
        DialogView {
            id: self.id,
            kind: self.kind,
            access_hash: self.access_hash,
            title: self.title@,
            username: opt_view(self.username),
            archived: self.archived,
            msg_count: self.msg_count,
        }
    }
}

#[derive(Debug, Clone)]
pub struct Message {
    pub dialog_id: i64,
    /// Server-side id inside the chat.
    pub msg_id: i32,
    pub date: i64,
    pub from_id: Option<i64>,
    pub outgoing: bool,
    pub reply_to: Option<i32>,
    /// Album. Absent from the export.
    pub grouped_id: Option<i64>,
    pub fwd_from: Option<String>,
    pub media_type: Option<String>,
    pub file_path: Option<String>,
    pub text: String,
}

/// A message as plain values.
pub struct MessageView {
    pub dialog_id: i64,
    pub msg_id: i32,
    pub date: i64,
    pub from_id: Option<i64>,
    pub outgoing: bool,
    pub reply_to: Option<i32>,
    pub grouped_id: Option<i64>,
    pub fwd_from: Option<Seq<char>>,
    pub media_type: Option<Seq<char>>,
    pub file_path: Option<Seq<char>>,
    pub text: Seq<char>,
}

impl View for Message {
    type V = MessageView;

    open spec fn view(&self) -> MessageView {
        MessageView {
            dialog_id: self.dialog_id,
            msg_id: self.msg_id,
            date: self.date,
            from_id: self.from_id,
            outgoing: self.outgoing,
            reply_to: self.reply_to,
            grouped_id: self.grouped_id,
            fwd_from: opt_view(self.fwd_from),
            media_type: opt_view(self.media_type),
            file_path: opt_view(self.file_path),
            text: self.text@,
        }
    }
}

/// The plain values of a list of messages.
pub open spec fn message_views(v: Seq<Message>) -> Seq<MessageView> {
    Seq::new(v.len(), |i: int| v[i]@)
}

/// Detection axis.
#[derive(Debug, Clone, Copy, PartialEq, Eq, Hash, Structural)]
pub enum Axis {
    Politics,
    Crypto,
    /// Machine artifacts: addresses, BIP39, transaction hashes.
    CryptoHard,
    ForeignMedia,
    Emigration,
    Lgbt,
    /// Accounts and cards at foreign banks. Owning one is legal, but an
    /// undeclared one is an offence — and the fact itself reads as a bolt-hole.
    ForeignFinance,
}

impl Axis {
    pub open spec fn name(self) -> Seq<char> {
        match self {
            Axis::Politics => "politics"@,
            Axis::Crypto => "crypto"@,
            Axis::CryptoHard => "crypto_hard"@,
            Axis::ForeignMedia => "foreign_media"@,
            Axis::Emigration => "emigration"@,
            Axis::Lgbt => "lgbt"@,
            Axis::ForeignFinance => "foreign_finance"@,
        }
    }

    pub fn as_str(self) -> (r: &'static str)
        ensures
            r@ == self.name(),
    {
        match self {
            Axis::Politics => "politics",
            Axis::Crypto => "crypto",
            Axis::CryptoHard => "crypto_hard",
            Axis::ForeignMedia => "foreign_media",
            Axis::Emigration => "emigration",
            Axis::Lgbt => "lgbt",
            Axis::ForeignFinance => "foreign_finance",
        }
    }

    /// The axis of that name, if there is one.
    pub fn parse(s: &str) -> (r: Option<Self>)
        ensures
            match r {
                Some(a) => a.name() == s@,
                None => forall|a: Axis| (#[trigger] a.name()) != s@,
            },
    {
        let all: [Axis; 7] = Axis::ALL;
        let mut i: usize = 0;
        while i < 7
            invariant
                i <= 7,
                all == Axis::ALL,
                forall|k: int| 0 <= k < i ==> (#[trigger] Axis::ALL@[k]).name() != s@,
            decreases 7 - i,
        {
            if same(all[i].as_str(), s) {
                return Some(all[i]);
            }
            i += 1;
        }
        proof {
            assert forall|a: Axis| (#[trigger] a.name()) != s@ by {
                lemma_all_axes(a);
            }
        }
        None
    }

    pub const ALL: [Axis; 7] = [
        Axis::Politics,
        Axis::Crypto,
        Axis::CryptoHard,
        Axis::ForeignMedia,
        Axis::Emigration,
        Axis::Lgbt,
        Axis::ForeignFinance,
    ];
}

/// Every axis is in the list of all axes.
pub proof fn lemma_all_axes(a: Axis)
    ensures
        exists|k: int| 0 <= k < 7 && #[trigger] Axis::ALL@[k] == a,
{
    let k: int = match a {
        Axis::Politics => 0,
        Axis::Crypto => 1,
        Axis::CryptoHard => 2,
        Axis::ForeignMedia => 3,
        Axis::Emigration => 4,
        Axis::Lgbt => 5,
        Axis::ForeignFinance => 6,
    };
    assert(Axis::ALL@[k] == a);
}

/// The axis of that name, or the words for there being none.
pub fn parse_axis(s: &str) -> (r: Result<Axis, String>)
    ensures
        match r {
            Ok(a) => a.name() == s@,
            Err(why) => why@ == "unknown axis: "@ + s@ && forall|a: Axis|
                (#[trigger] a.name()) != s@,
        },
{
    match Axis::parse(s) {
        Some(a) => Ok(a),
        None => {
            let mut why: String = "unknown axis: ".to_owned();
            why.append(s);
            Err(why)
        },
    }
}

/// No two axes share a name, so a name read back gives the axis it was
/// written for.
pub proof fn law_axis_names_round_trip(a: Axis, b: Axis)
    ensures
        a.name() == b.name() ==> a == b,
{
    reveal_strlit("politics");
    reveal_strlit("crypto");
    reveal_strlit("crypto_hard");
    reveal_strlit("foreign_media");
    reveal_strlit("emigration");
    reveal_strlit("lgbt");
    reveal_strlit("foreign_finance");
    if a.name() == b.name() {
        assert(a.name().len() == b.name().len());
        assert(a.name()[0] == b.name()[0]);
    }
}

/// Time tier. The same term earns a different verdict depending on its age:
/// the recent is cut hard, the old and everyday is kept.
#[derive(Debug, Clone, Copy, PartialEq, Eq, PartialOrd, Ord, Structural)]
pub enum Tier {
    T0,
    T1,
    T2,
}

impl Tier {
    pub open spec fn name(self) -> Seq<char> {
        match self {
            Tier::T0 => "T0"@,
            Tier::T1 => "T1"@,
            Tier::T2 => "T2"@,
        }
    }

    pub fn as_str(self) -> (r: &'static str)
        ensures
            r@ == self.name(),
    {
        match self {
            Tier::T0 => "T0",
            Tier::T1 => "T1",
            Tier::T2 => "T2",
        }
    }

    /// The tier of that name, if there is one.
    pub fn parse(s: &str) -> (r: Option<Self>)
        ensures
            match r {
                Some(t) => t.name() == s@,
                None => forall|t: Tier| (#[trigger] t.name()) != s@,
            },
    {
        if same(s, "T0") {
            Some(Tier::T0)
        } else if same(s, "T1") {
            Some(Tier::T1)
        } else if same(s, "T2") {
            Some(Tier::T2)
        } else {
            None
        }
    }

    /// From the harshest tier up.
    pub open spec fn rank(self) -> int {
        match self {
            Tier::T0 => 0,
            Tier::T1 => 1,
            Tier::T2 => 2,
        }
    }

    pub fn order(self) -> (r: u8)
        ensures
            r == self.rank(),
    {
        match self {
            Tier::T0 => 0,
            Tier::T1 => 1,
            Tier::T2 => 2,
        }
    }

    /// The tier of a message of that age in seconds. A day counts once it is
    /// over, so a tier of `n` days reaches to the end of day `n`.
    pub open spec fn of_age(age: int) -> Tier {
        if age < (T0_DAYS + 1) * 86_400 {
            Tier::T0
        } else if age < (T1_DAYS + 1) * 86_400 {
            Tier::T1
        } else {
            Tier::T2
        }
    }

    pub fn of(msg_date: i64, now: i64) -> (r: Self)
        requires
            i64::MIN <= now - msg_date <= i64::MAX,
        ensures
            r == Tier::of_age(now - msg_date),
    {
        let age: i64 = now - msg_date;
        if age < (T0_DAYS + 1) * 86_400 {
            Tier::T0
        } else if age < (T1_DAYS + 1) * 86_400 {
            Tier::T1
        } else {
            Tier::T2
        }
    }

    pub open spec fn weight_factor(self) -> u64 {
        match self {
            Tier::T0 => T0_MULTIPLIER,
            Tier::T1 => T1_MULTIPLIER,
            Tier::T2 => T2_MULTIPLIER,
        }
    }

    /// Weight multiplier, in hundredths. It only decides whether a model call
    /// is worth spending, and in what order.
    pub fn multiplier(self) -> (r: u64)
        ensures
            r == self.weight_factor(),
    {
        match self {
            Tier::T0 => T0_MULTIPLIER,
            Tier::T1 => T1_MULTIPLIER,
            Tier::T2 => T2_MULTIPLIER,
        }
    }
}

/// No two tiers share a name.
pub proof fn law_tier_names_round_trip(a: Tier, b: Tier)
    ensures
        a.name() == b.name() ==> a == b,
{
    reveal_strlit("T0");
    reveal_strlit("T1");
    reveal_strlit("T2");
    if a.name() == b.name() {
        assert(a.name()[1] == b.name()[1]);
    }
}

/// The older the message, the softer: age never moves a message to a harsher
/// tier, and a softer tier weighs strictly less.
pub proof fn law_older_is_softer(young: int, old_age: int)
    requires
        young <= old_age,
    ensures
        Tier::of_age(young).rank() <= Tier::of_age(old_age).rank(),
        Tier::of_age(old_age).weight_factor() <= Tier::of_age(young).weight_factor(),
        Tier::of_age(young) != Tier::of_age(old_age) ==> Tier::of_age(old_age).weight_factor()
            < Tier::of_age(young).weight_factor(),
{
}

/// The point in time ages are measured from: the start of the reference day
/// where there is one, the present moment otherwise. None if the reference is
/// no date.
pub fn measured_from(reference: Option<&str>, present: i64) -> (r: Option<i64>)
    ensures
        r == (match reference {
            Some(day) => start_of(day@),
            None => Some(present),
        }),
{
    match reference {
        Some(day) => match day_start(day) {
            Ok(at) => Some(at),
            Err(_) => None,
        },
        None => Some(present),
    }
}

/// The second a day begins at, if the text is a day.
pub open spec fn start_of(day: Seq<char>) -> Option<i64> {
    match day_start_of(day) {
        Ok(at) => Some(at),
        Err(_) => None,
    }
}

/// The point in time ages are measured from, by the configured reference.
/// None only if the configured reference is no date.
pub fn now() -> (r: Option<i64>)
    ensures
        REFERENCE_DATE matches Some(day) ==> r == start_of(day@),
        REFERENCE_DATE is None ==> r is Some,
{
    measured_from(REFERENCE_DATE, current_second())
}

/// Layer the detection fired on.
#[derive(Debug, Clone, Copy, PartialEq, Eq, Structural)]
pub enum Layer {
    Keyword,
    Regex,
    /// Dialog topology: reply, album, forward.
    Topology,
}

impl Layer {
    pub open spec fn name(self) -> Seq<char> {
        match self {
            Layer::Keyword => "keyword"@,
            Layer::Regex => "regex"@,
            Layer::Topology => "structural"@,
        }
    }

    pub fn as_str(self) -> (r: &'static str)
        ensures
            r@ == self.name(),
    {
        match self {
            Layer::Keyword => "keyword",
            Layer::Regex => "regex",
            Layer::Topology => "structural",
        }
    }
}

#[derive(Debug, Clone)]
pub struct Hit {
    pub dialog_id: i64,
    pub msg_id: i32,
    pub axis: Axis,
    pub rule_id: String,
    pub term: String,
    /// How the match looked in the original text — evidence for the report.
    pub surface: Option<String>,
    pub layer: Layer,
    pub tier: Tier,
    /// Rule weight in thousandths × tier multiplier in hundredths.
    pub priority: u64,
    /// Whitelisted: kept despite the hit.
    pub protected: bool,
}

/// A hit as plain values.
pub struct HitView {
    pub dialog_id: i64,
    pub msg_id: i32,
    pub axis: Axis,
    pub rule_id: Seq<char>,
    pub term: Seq<char>,
    pub surface: Option<Seq<char>>,
    pub layer: Layer,
    pub tier: Tier,
    pub priority: u64,
    pub protected: bool,
}

impl View for Hit {
    type V = HitView;

    open spec fn view(&self) -> HitView {
        HitView {
            dialog_id: self.dialog_id,
            msg_id: self.msg_id,
            axis: self.axis,
            rule_id: self.rule_id@,
            term: self.term@,
            surface: opt_view(self.surface),
            layer: self.layer,
            tier: self.tier,
            priority: self.priority,
            protected: self.protected,
        }
    }
}

/// The plain values of a list of hits.
pub open spec fn hit_views(v: Seq<Hit>) -> Seq<HitView> {
    Seq::new(v.len(), |i: int| v[i]@)
}

} // verus!
