//! The shipped dictionary, one array per rule — extending one is an edit and
//! a rebuild.
//!
//! Terms are written as stems, without endings: the search runs as a substring
//! over the collapsed normalized text, so `войн` matches every inflection.
//! Latin terms are transliterated by the same normalization as the corpus, so
//! `bybit` in the dictionary meets `bybit` in the text; a Cyrillic spelling
//! («байбит») is a separate term with a different normal form.
//!
//! Weights are in thousandths.

use crate::dict::{RegexRule, RegexRuleView, Rule, RuleView};
use crate::model::Axis;
use crate::text::str_views;
use vstd::prelude::*;

verus! {

pub const EXCHANGES: [&'static str; 15] = [
    "bybit",
    "байбит",
    "binance",
    "бинанс",
    "okx",
    "kucoin",
    "bitget",
    "mexc",
    "huobi",
    "coinbase",
    "kraken",
    "gateio",
    "garantex",
    "обменник",
    "биржа крипт",
];

pub const WALLETS: [&'static str; 13] = [
    "metamask",
    "trust wallet",
    "cake wallet",
    "tonkeeper",
    "тонкипер",
    "phantom",
    "ledger",
    "trezor",
    "холодный кошел",
    "seed phrase",
    "сид фраз",
    "мнемоник",
    "приватный ключ",
];

pub const ASSETS_OPS: [&'static str; 19] = [
    "крипт",
    "биткоин",
    "bitcoin",
    "эфириум",
    "ethereum",
    "usdt",
    "юсдт",
    "tether",
    "тезер",
    "стейбл",
    "альткоин",
    "вывел на карт",
    "закинул на бирж",
    "фиат",
    "стейкинг",
    "деривы",
    "фьючерс",
    "ликвидац",
    "кошел",
];

pub const INTENT: [&'static str; 14] = [
    "релокац",
    "релокейт",
    "эмигрир",
    "иммигрир",
    "вид на жительств",
    "уехать навсегд",
    "не вернус",
    "валить из",
    "digital nomad",
    "цифровой кочевник",
    "второй паспорт",
    "получить гражданств",
    "нострифик",
    "релокант",
];

/// Resort countries are deliberately absent: they belong to the whitelist
/// in config.rs. Here only the directions a border officer reads as
/// relocation. The tier decides more than the term does: a relative who
/// lived in Serbia a year ago is ordinary life, three months ago is a risk.
pub const HOT_COUNTRIES: [&'static str; 16] = [
    "тбилиси",
    "батуми",
    "вгрузи",
    "ереван",
    "армени",
    "серби",
    "белград",
    "черногор",
    "будва",
    "казахстан",
    "алматы",
    "астана",
    "бишкек",
    "аргентин",
    "буэнос",
    "израил",
];

pub const EXIT_LOGISTICS: [&'static str; 5] = [
    "продать квартир",
    "продал квартир",
    "вывести деньг",
    "закрыть счет",
    "билет в один конец",
];

/// Kept under its own id so that a repeat run can pick up its windows with
/// `triage --since ... --new-rule leaving_question`.
pub const LEAVING_QUESTION: [&'static str; 2] = [
    "уедеш",
    "уезжаеш",
];

pub const KZ_BANKS: [&'static str; 11] = [
    // `каспи` dropped: it caught the Caspian Sea. Latin `kaspi` is safe.
    "kaspi",
    "халык",
    "фридом банк",
    "freedom bank",
    "жусан",
    "форте банк",
    "береке",
    "центркредит",
    "centercredit",
    "алтын банк",
    "нурбанк",
];

pub const PAYMENT_RAILS: [&'static str; 9] = [
    "payoneer",
    "пейонир",
    "revolut",
    "револют",
    "paysera",
    "пейсера",
    "monobank",
    "wise transfer",
    "transferwise",
    // `bunq` dropped: four letters, but a substring of the ordinary
    // word for a bunker.
];

pub const ACCOUNT_IDS: [&'static str; 6] = [
    "индивидуальный идентификационный номер",
    "казахстанский иин",
    "номер счета в банке",
    "реквизиты счета",
    "нерезидентск",
    "счет нерезидента",
    // `мультивалютн` dropped: it caught ads for a multi-currency
    // CRYPTO wallet, which is the crypto axis, not a foreign bank.
];

/// Wording that shows OWNERSHIP of a foreign account or card rather than
/// an abstract conversation about banks. This is what the axis is for.
pub const OWNERSHIP_TALK: [&'static str; 22] = [
    "зарубежный счет",
    "заграничный счет",
    "иностранный счет",
    "счет за границей",
    "счет в казахстане",
    "счет в армении",
    "счет в грузии",
    "счет в сербии",
    "открыл счет",
    "открыть счет",
    "казахская карта",
    "казахстанская карта",
    "иностранная карта",
    "зарубежная карта",
    "заграничная карта",
    "нероссийская карта",
    "карта казахстана",
    "карта нерезидента",
    "виртуальная карта",
    "оформил карту",
    "выпустил карту",
    "завел карту",
];

pub const PROXY_PAYMENTS: [&'static str; 8] = [
    "оплатить с моей карты",
    "оплачу своей картой",
    "скинь я оплачу",
    "оплати с казахской",
    "могу оплатить подписку",
    "оплатил подписку",
    "с моей карты оплат",
    "давай через мою карту",
];

/// Links count too: hrefs from message entities are folded into the text
/// at ingest, so a domain fires the same way a name does. One outlet is
/// named after the word for rain: only its full name and domain are listed.
pub const OUTLETS: [&'static str; 19] = [
    "медуз",
    "meduza",
    "медиазон",
    "mediazona",
    "новая газет",
    "радио свобод",
    "svoboda.org",
    "телеканал дожд",
    "tvrain",
    "the insider",
    "важные истор",
    "istories",
    "верстк",
    "вёрстк",
    "холод медиа",
    "настоящее врем",
    "эхо москв",
    "бибиси",
    "русская служба би-би-си",
];

pub const LGBT_TERMS: [&'static str; 8] = [
    "лгбт",
    "квир",
    "гомосексуал",
    "трансгендер",
    "небинарн",
    "каминг-аут",
    "однополый брак",
    "радужн",
];

pub const WAR: [&'static str; 19] = [
    "войн",
    "спецоперац",
    "мобилизац",
    "вторжен",
    "оккупац",
    "военкомат",
    "повестк",
    "дезертир",
    "уклонист",
    "срочник",
    "обстрел",
    "бомбёж",
    "бомбеж",
    "ракетн",
    "шахед",
    "хаймарс",
    "мясорубк",
    "окоп",
    "чвк вагнер",
];

pub const UKRAINE: [&'static str; 14] = [
    "украин",
    "зеленск",
    "киев",
    "харьков",
    "мариупол",
    "херсон",
    "донбасс",
    "донецк",
    "луганск",
    "азовсталь",
    "бахмут",
    "авдеевк",
    "запорожск",
    "одесс",
];

pub const OPPOSITION_PERSONS: [&'static str; 10] = [
    "навальн",
    "ходорковск",
    "каспаров",
    "яшин",
    "карамурза",
    "певчих",
    "жданов",
    "гудков",
    "милов",
    "чичваркин",
];

pub const BANNED_ORGS: [&'static str; 8] = [
    "умное голосован",
    "мемориал",
    "овдинфо",
    "либертарианск",
    "открытое пространств",
    "иноагент",
    "нежелательная организац",
    "экстремистск",
];

pub const REGIME_TALK: [&'static str; 11] = [
    "путин",
    "кремл",
    "росгвард",
    "силовик",
    "репресс",
    "политзаключ",
    "дискредитац",
    "цензур",
    "пропаганд",
    "диктатур",
    "автократ",
];

/// The rules of the shipped dictionary, as plain values.
pub open spec fn shipped_rules() -> Seq<RuleView> {
    seq![
        RuleView { axis: Axis::Crypto, id: "exchanges"@, weight: 2500, terms: str_views(EXCHANGES@) },
        RuleView { axis: Axis::Crypto, id: "wallets"@, weight: 2500, terms: str_views(WALLETS@) },
        RuleView { axis: Axis::Crypto, id: "assets_ops"@, weight: 2000, terms: str_views(ASSETS_OPS@) },
        RuleView { axis: Axis::Emigration, id: "intent"@, weight: 2000, terms: str_views(INTENT@) },
        RuleView { axis: Axis::Emigration, id: "hot_countries"@, weight: 1500, terms: str_views(HOT_COUNTRIES@) },
        RuleView { axis: Axis::Emigration, id: "exit_logistics"@, weight: 1500, terms: str_views(EXIT_LOGISTICS@) },
        RuleView { axis: Axis::Emigration, id: "leaving_question"@, weight: 1500, terms: str_views(LEAVING_QUESTION@) },
        RuleView { axis: Axis::ForeignFinance, id: "kz_banks"@, weight: 2000, terms: str_views(KZ_BANKS@) },
        RuleView { axis: Axis::ForeignFinance, id: "payment_rails"@, weight: 1500, terms: str_views(PAYMENT_RAILS@) },
        RuleView { axis: Axis::ForeignFinance, id: "account_ids"@, weight: 2000, terms: str_views(ACCOUNT_IDS@) },
        RuleView { axis: Axis::ForeignFinance, id: "ownership_talk"@, weight: 2500, terms: str_views(OWNERSHIP_TALK@) },
        RuleView { axis: Axis::ForeignFinance, id: "proxy_payments"@, weight: 1500, terms: str_views(PROXY_PAYMENTS@) },
        RuleView { axis: Axis::ForeignMedia, id: "outlets"@, weight: 2000, terms: str_views(OUTLETS@) },
        RuleView { axis: Axis::Lgbt, id: "terms"@, weight: 1500, terms: str_views(LGBT_TERMS@) },
        RuleView { axis: Axis::Politics, id: "war"@, weight: 2000, terms: str_views(WAR@) },
        RuleView { axis: Axis::Politics, id: "ukraine"@, weight: 2000, terms: str_views(UKRAINE@) },
        RuleView { axis: Axis::Politics, id: "opposition_persons"@, weight: 2500, terms: str_views(OPPOSITION_PERSONS@) },
        RuleView { axis: Axis::Politics, id: "banned_orgs"@, weight: 2500, terms: str_views(BANNED_ORGS@) },
        RuleView { axis: Axis::Politics, id: "regime_talk"@, weight: 1500, terms: str_views(REGIME_TALK@) },
    ]
}

fn rule(axis: Axis, id: &'static str, weight: u32, terms: &'static [&'static str]) -> (r: Rule)
    ensures
        r@ == (RuleView { axis, id: id@, weight, terms: str_views(terms@) }),
{
    Rule { axis, id, weight, terms }
}

/// The rules of the shipped dictionary.
pub fn rules() -> (r: Vec<Rule>)
    ensures
        crate::dict::rule_views(r@) == shipped_rules(),
{
    let out: Vec<Rule> = vec![
        rule(Axis::Crypto, "exchanges", 2500, &EXCHANGES),
        rule(Axis::Crypto, "wallets", 2500, &WALLETS),
        rule(Axis::Crypto, "assets_ops", 2000, &ASSETS_OPS),
        rule(Axis::Emigration, "intent", 2000, &INTENT),
        rule(Axis::Emigration, "hot_countries", 1500, &HOT_COUNTRIES),
        rule(Axis::Emigration, "exit_logistics", 1500, &EXIT_LOGISTICS),
        rule(Axis::Emigration, "leaving_question", 1500, &LEAVING_QUESTION),
        rule(Axis::ForeignFinance, "kz_banks", 2000, &KZ_BANKS),
        rule(Axis::ForeignFinance, "payment_rails", 1500, &PAYMENT_RAILS),
        rule(Axis::ForeignFinance, "account_ids", 2000, &ACCOUNT_IDS),
        rule(Axis::ForeignFinance, "ownership_talk", 2500, &OWNERSHIP_TALK),
        rule(Axis::ForeignFinance, "proxy_payments", 1500, &PROXY_PAYMENTS),
        rule(Axis::ForeignMedia, "outlets", 2000, &OUTLETS),
        rule(Axis::Lgbt, "terms", 1500, &LGBT_TERMS),
        rule(Axis::Politics, "war", 2000, &WAR),
        rule(Axis::Politics, "ukraine", 2000, &UKRAINE),
        rule(Axis::Politics, "opposition_persons", 2500, &OPPOSITION_PERSONS),
        rule(Axis::Politics, "banned_orgs", 2500, &BANNED_ORGS),
        rule(Axis::Politics, "regime_talk", 1500, &REGIME_TALK),
    ];
    assert(crate::dict::rule_views(out@) =~= shipped_rules());
    out
}

pub const ACRONYMS_CRYPTO: &'static str = r"(?i)\b(btc|eth|ton|usdt|p2p|nft|defi|dex|cex)\b";

/// crypto_hard is not lifted by the whitelist: a seed phrase stays a seed
/// phrase even inside holiday chatter.
pub const BTC_ADDRESS: &'static str = r"\b(bc1[ac-hj-np-z02-9]{11,71}|[13][a-km-zA-HJ-NP-Z1-9]{25,34})\b";

pub const ETH_ADDRESS: &'static str = r"\b0x[a-fA-F0-9]{40}\b";

pub const TON_ADDRESS: &'static str = r"\b[EU]Q[A-Za-z0-9_-]{46}\b";

pub const TRON_ADDRESS: &'static str = r"\bT[1-9A-HJ-NP-Za-km-z]{33}\b";

pub const TX_HASH: &'static str = r"\b[a-fA-F0-9]{64}\b";

/// 12 or 24 lowercase Latin words in a row. Knowingly noisy — ordinary
/// English prose of the same shape matches — but a false hit costs one LLM
/// call and a missed seed phrase costs everything.
pub const BIP39_LIKE: &'static str = r"\b([a-z]{3,8} ){11}[a-z]{3,8}\b";

pub const ACRONYMS_MIGRATION: &'static str = r"(?i)\b(внж|пмж|гринкард|green ?card)\b";

/// Card numbers are caught by shape, not by a list: a list of numbers in a
/// repository is still a list of card numbers. BIN Visa (4), Mastercard
/// (51-55, 22-27), any separators.
pub const CARD_NUMBER: &'static str = r"\b(?:4\d{3}|5[1-5]\d{2}|2[2-7]\d{2})[ \-]?\d{4}[ \-]?\d{4}[ \-]?\d{4}\b";

pub const KZ_IIN: &'static str = r"(?i)\b(?:иин|iin)\b[^\d]{0,12}\d{12}\b";

pub const IBAN: &'static str = r"\b(?:KZ|GE|AM|RS|TR|LT|EE|LV|PL|DE|NL|ES|PT|CY)\d{2}[A-Z0-9]{11,28}\b";

/// SWIFT/BIC needs a nearby keyword, or the shape catches any eight-letter
/// acronym in caps.
pub const SWIFT_BIC: &'static str = r"(?i)\b(?:swift|бик|bic)\b[^A-Za-z0-9]{0,10}[A-Z]{4}[A-Z]{2}[A-Z0-9]{2}\b";

pub const MEDIA_ACRONYMS: &'static str = r"(?i)\b(bbc|dw|rfe/rl|радио ?свобода)\b";

pub const LGBT_ACRONYMS: &'static str = r"(?i)\b(лгбт\+?|lgbt\+?|lgbtq\+?)\b";

/// Word boundaries keep a three-letter acronym out of longer words.
pub const ACRONYMS_WAR: &'static str = r"(?i)\b(сво|всу|тцк|днр|лнр|ципсо|чвк)\b";

pub const ACRONYMS_ORGS: &'static str = r"(?i)\b(фбк|фсб|мвд|ск ?рф)\b";

/// Matched against the raw text: machine artifacts must not be normalized,
/// and abbreviations need word boundaries the collapsed form cannot give.
pub open spec fn shipped_regexes() -> Seq<RegexRuleView> {
    seq![
        RegexRuleView { axis: Axis::Crypto, id: "acronyms_crypto"@, weight: 2000, pattern: ACRONYMS_CRYPTO@ },
        RegexRuleView { axis: Axis::CryptoHard, id: "btc_address"@, weight: 3000, pattern: BTC_ADDRESS@ },
        RegexRuleView { axis: Axis::CryptoHard, id: "eth_address"@, weight: 3000, pattern: ETH_ADDRESS@ },
        RegexRuleView { axis: Axis::CryptoHard, id: "ton_address"@, weight: 3000, pattern: TON_ADDRESS@ },
        RegexRuleView { axis: Axis::CryptoHard, id: "tron_address"@, weight: 3000, pattern: TRON_ADDRESS@ },
        RegexRuleView { axis: Axis::CryptoHard, id: "tx_hash"@, weight: 2000, pattern: TX_HASH@ },
        RegexRuleView { axis: Axis::CryptoHard, id: "bip39_like"@, weight: 3000, pattern: BIP39_LIKE@ },
        RegexRuleView { axis: Axis::Emigration, id: "acronyms_migration"@, weight: 2000, pattern: ACRONYMS_MIGRATION@ },
        RegexRuleView { axis: Axis::ForeignFinance, id: "card_number"@, weight: 3000, pattern: CARD_NUMBER@ },
        RegexRuleView { axis: Axis::ForeignFinance, id: "kz_iin"@, weight: 2000, pattern: KZ_IIN@ },
        RegexRuleView { axis: Axis::ForeignFinance, id: "iban"@, weight: 3000, pattern: IBAN@ },
        RegexRuleView { axis: Axis::ForeignFinance, id: "swift_bic"@, weight: 2000, pattern: SWIFT_BIC@ },
        RegexRuleView { axis: Axis::ForeignMedia, id: "media_acronyms"@, weight: 1500, pattern: MEDIA_ACRONYMS@ },
        RegexRuleView { axis: Axis::Lgbt, id: "lgbt_acronyms"@, weight: 1500, pattern: LGBT_ACRONYMS@ },
        RegexRuleView { axis: Axis::Politics, id: "acronyms_war"@, weight: 2000, pattern: ACRONYMS_WAR@ },
        RegexRuleView { axis: Axis::Politics, id: "acronyms_orgs"@, weight: 2500, pattern: ACRONYMS_ORGS@ },
    ]
}

fn regex_rule(
    axis: Axis,
    id: &'static str,
    weight: u32,
    pattern: &'static str,
) -> (r: RegexRule)
    ensures
        r@ == (RegexRuleView { axis, id: id@, weight, pattern: pattern@ }),
{
    RegexRule { axis, id, weight, pattern }
}

/// The regular expressions of the shipped dictionary.
pub fn regexes() -> (r: Vec<RegexRule>)
    ensures
        crate::dict::regex_rule_views(r@) == shipped_regexes(),
{
    let out: Vec<RegexRule> = vec![
        regex_rule(Axis::Crypto, "acronyms_crypto", 2000, ACRONYMS_CRYPTO),
        regex_rule(Axis::CryptoHard, "btc_address", 3000, BTC_ADDRESS),
        regex_rule(Axis::CryptoHard, "eth_address", 3000, ETH_ADDRESS),
        regex_rule(Axis::CryptoHard, "ton_address", 3000, TON_ADDRESS),
        regex_rule(Axis::CryptoHard, "tron_address", 3000, TRON_ADDRESS),
        regex_rule(Axis::CryptoHard, "tx_hash", 2000, TX_HASH),
        regex_rule(Axis::CryptoHard, "bip39_like", 3000, BIP39_LIKE),
        regex_rule(Axis::Emigration, "acronyms_migration", 2000, ACRONYMS_MIGRATION),
        regex_rule(Axis::ForeignFinance, "card_number", 3000, CARD_NUMBER),
        regex_rule(Axis::ForeignFinance, "kz_iin", 2000, KZ_IIN),
        regex_rule(Axis::ForeignFinance, "iban", 3000, IBAN),
        regex_rule(Axis::ForeignFinance, "swift_bic", 2000, SWIFT_BIC),
        regex_rule(Axis::ForeignMedia, "media_acronyms", 1500, MEDIA_ACRONYMS),
        regex_rule(Axis::Lgbt, "lgbt_acronyms", 1500, LGBT_ACRONYMS),
        regex_rule(Axis::Politics, "acronyms_war", 2000, ACRONYMS_WAR),
        regex_rule(Axis::Politics, "acronyms_orgs", 2500, ACRONYMS_ORGS),
    ];
    assert(crate::dict::regex_rule_views(out@) =~= shipped_regexes());
    out
}

} // verus!
