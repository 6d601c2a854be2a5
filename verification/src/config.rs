//! Configuration. Everything a user is expected to change lives here.
//!
//! This file is the config — edit it and rebuild. What ships is this file
//! with an empty profile, an empty whitelist and no ignored dialogs.

use crate::prompt::Lang;
use vstd::prelude::*;

verus! {

// --- owner ---------------------------------------------------------------
//
// Every field is optional and every one of them only ever *softens* the
// policy. Left as `None`, the line is simply absent from the prompt and the
// policy runs in its general, more conservative mode. Write the values in the
// language of `LANG`.

/// An exculpatory signal, never a reason to cut: if crypto is the owner's
/// job, their crypto talk stays. `None` — no excuse, personal ownership is
/// cut by the general rule.
pub const OCCUPATION: Option<&'static str> = None;

/// Cut ties to an account in this country. `None` — cut any sign of owning a
/// foreign account at all.
pub const ACCOUNT_COUNTRY: Option<&'static str> = None;

/// The cover story: talk that confirms this trip is protected. `None` — no
/// protected country, the emigration axis works in general terms.
pub const TRAVEL_COUNTRY: Option<&'static str> = None;

/// Language of the policy sent to the model and of the window rendered with
/// it.
pub const LANG: Lang = Lang::Ru;

// --- protected content ---------------------------------------------------
//
// Not «don't flag», but *keep*: talk of the trip confirms the cover story and
// works for the owner. An override term cancels the protection — explicit
// immigration vocabulary turns a holiday into «I am staying».
//
// Terms are matched against the corpus, so write them in the language the
// corpus is in.

pub const WHITELIST: [&'static str; 0] = [];

pub const WHITELIST_OVERRIDE: [&'static str; 16] = [
    "внж",
    "вид на жительство",
    "остаться навсегда",
    "остатьсянавсегд",
    "не вернус",
    "невернус",
    "переезжаю навсегда",
    "переезжаюнавсегд",
    "digital nomad",
    "цифровой кочевник",
    "продать квартиру",
    "продатьквартир",
    "релокейт",
    "релокац",
    "эмигрир",
    "иммигрир",
];

// --- time tiers ----------------------------------------------------------
//
// The same term earns a different verdict depending on its age: a brother-in-
// law who lived abroad a year ago is an asset, three months ago is a risk.
// T2 is damped on purpose — old everyday talk is the naturalness that
// protects.

pub const T0_DAYS: i64 = 180;

pub const T1_DAYS: i64 = 365;

/// Weight multipliers, in hundredths.
pub const T0_MULTIPLIER: u64 = 100;

pub const T1_MULTIPLIER: u64 = 85;

pub const T2_MULTIPLIER: u64 = 45;

/// Date the ages are counted from, `YYYY-MM-DD`. `None` — today.
pub const REFERENCE_DATE: Option<&'static str> = None;

// --- scan ----------------------------------------------------------------

/// ±N messages around a hit: the window that goes to the model.
pub const WINDOW: usize = 30;

/// Hits closer than this collapse into one window, so that a dense political
/// argument costs one call instead of two hundred.
pub const CLUSTER_GAP: usize = 30;

/// Summed priority a message needs to become an anchor. A priority is a
/// weight in thousandths times a multiplier in hundredths, so one whole point
/// is a hundred thousand.
pub const HIT_THRESHOLD: u64 = 100_000;

/// Ceiling when the model asks for more context around a window.
pub const MAX_WINDOW: i64 = 120;

/// Dialog kinds left out of triage. Bots and channels are deleted by hand in
/// seconds; model calls are expensive. Personal correspondence is the target.
pub const IGNORE_KINDS: [&'static str; 2] = ["megagroup", "chat"];

/// Individual dialogs left out of triage, by id.
pub const IGNORE_DIALOGS: [i64; 0] = [];

// --- deletion budget -----------------------------------------------------
//
// Exceeding it is not an error but a signal: the plan is destructive enough
// to have become a flag of its own.

/// Share of the whole corpus, in hundredths.
pub const MAX_DELETE_RATIO: u64 = 5;

/// Share of a single dialog, in hundredths.
pub const MAX_DIALOG_RATIO: u64 = 40;

} // verus!
