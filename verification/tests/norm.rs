//! Normalization: what the collapsed form keeps, folds and drops.

use glisser::norm::{
    chain, fold_char, leet, mark_starts, measure_words, to_letters, translit, Glyph, Normalized,
};
use glisser::norm_laws::is_separator;

#[test]
fn mixed_script_word_still_transliterates() {
    assert_eq!(n("красikov"), n("красиков"));
    assert_eq!(n("движenie"), n("движение"));
    assert_eq!(n("Дwиjение"), n("движение"));
    assert_eq!(n("ЕлиZаVета"), n("елизавета"));
}

#[test]
fn single_latin_letter_stays_homoglyph() {
    assert_eq!(n("путин"), n("пyтин"));
    assert_eq!(n("сурков"), n("cypкoв"));
    assert_eq!(n("россия"), n("poccия"));
}

#[test]
fn single_script_words_unchanged() {
    assert_eq!(n("put1n"), n("путин"));
    assert_eq!(n("navalny"), n("навалны"));
}

fn n(s: &str) -> String {
    Normalized::build(s).text
}

/// Terms go through the same normalization as the corpus, so only
/// normalized may be compared with normalized.
fn has(text: &str, term: &str) -> bool {
    n(text).contains(&n(term))
}

#[test]
fn separators_inside_word_collapse() {
    for s in ["в.о.й.н.а", "в-о-й-н-а", "в о й н а", "в_о_й_н_а"] {
        assert!(has(s, "война"), "{s}");
    }
}

#[test]
fn homoglyphs_fold() {
    assert_eq!(n("путин"), n("пyтин"));
}

#[test]
fn leet_folds_inside_words() {
    assert!(has("в0йна", "война"));
    assert!(has("3ло", "зло"));
    // `1` for `и` only works through transliteration: Cyrillic `и` and
    // Latin `i` are not confusables, skeleton does not fold them.
    assert!(has("put1n", "путин"));
}

#[test]
fn standalone_numbers_are_dropped() {
    // Otherwise leet turns «2024» into letters glued to its neighbours.
    assert_eq!(n("это было в 2024 году"), n("это было в году"));
}

#[test]
fn translit_maps_to_cyrillic() {
    assert!(has("voyna", "война"));
}

#[test]
fn substring_search_gives_morphology_for_free() {
    for form in ["антивоенный", "антивоенные", "антивоенного"]
    {
        assert!(has(form, "антивоен"), "{form}");
    }
}

#[test]
fn multiword_terms_collapse_into_one_run() {
    assert!(has("оформляю вид на жительство", "вид на жительств"));
}

#[test]
fn match_must_start_at_word_start() {
    // The collapsed form glues words together and the stem sits on the seam.
    for phrase in ["быстро копится", "глубоко копаешь", "покопаться"]
    {
        let nz = Normalized::build(phrase);
        let term = n("окоп");
        let byte = nz.text.find(&term).expect("substring must be there");
        let start = nz.text[..byte].chars().count();
        assert!(!nz.at_word_start(start), "{phrase}");
    }
    let nz = Normalized::build("сидели в окопах");
    let term = n("окоп");
    let byte = nz.text.find(&term).unwrap();
    assert!(nz.at_word_start(nz.text[..byte].chars().count()));
}

#[test]
fn single_word_term_must_not_cross_a_space() {
    // This stem matched across a space 264 times before the check.
    for phrase in ["пошли на кино", "мило в этом смысле", "бы ковать железо"]
    {
        let nz = Normalized::build(phrase);
        for term in ["наки", "милов", "быков"] {
            let t = n(term);
            if let Some(byte) = nz.text.find(&t) {
                let start = nz.text[..byte].chars().count();
                let end = start + t.chars().count();
                assert!(!nz.single_word_ok(start, end), "{phrase} / {term}");
            }
        }
    }
}

#[test]
fn letter_spaced_obfuscation_still_matches() {
    // `в о й н а` must cross spaces: every fragment is one letter.
    let nz = Normalized::build("началась в о й н а опять");
    let t = n("война");
    let byte = nz.text.find(&t).expect("substring is there");
    let start = nz.text[..byte].chars().count();
    assert!(nz.single_word_ok(start, start + t.chars().count()));
}

#[test]
fn word_start_survives_separator_obfuscation() {
    // In `в.о.й.н.а` every letter after a dot is a word start too.
    let nz = Normalized::build("началась в.о.й.н.а");
    let term = n("война");
    let byte = nz.text.find(&term).unwrap();
    assert!(nz.at_word_start(nz.text[..byte].chars().count()));
}

#[test]
fn distinct_words_stay_distinct() {
    assert!(!has("поехали на море", "война"));
}

#[test]
fn surface_maps_back_to_original() {
    let src = "начал в.о.й.н.а закончил";
    let nz = Normalized::build(src);
    let term = n("война");
    let byte = nz.text.find(&term).expect("no match");
    let start = nz.text[..byte].chars().count();
    let (a, b) = nz
        .surface(start, start + term.chars().count())
        .expect("no mapping");
    let got: String = src.chars().skip(a).take(b - a).collect();
    assert_eq!(got, "в.о.й.н.а");
}

#[test]
fn words_are_normalized_apart() {
    for (a, b) in [("kraken", "биржа"), ("в0йна", "put1n"), ("привет", "мир")] {
        assert_eq!(n(&format!("{a} {b}")), n(a) + &n(b));
        assert_eq!(n(&format!("{a}, {b}")), n(a) + &n(b));
    }
}

#[test]
fn numbers_leave_nothing() {
    assert_eq!(n("2024"), "");
    assert_eq!(n("2024-01-02 10:30"), "");
    assert_eq!(n(""), "");
}

#[test]
fn a_spaced_word_is_the_word() {
    for sep in [".", " ", "-", " . "] {
        let spaced: Vec<String> = "навальный".chars().map(|c| c.to_string()).collect();
        assert_eq!(n(&spaced.join(sep)), n("навальный"));
    }
}

#[test]
fn surface_is_a_range_of_the_source() {
    for src in ["привет мир", "put1n и bybit", "в.о.й.н.а!", "ЕлиZаVета 2024"] {
        let nz = Normalized::build(src);
        let len = nz.text.chars().count();
        assert_eq!(nz.map.len(), len);
        for start in 0..len {
            for end in start + 1..=len {
                let (a, b) = nz.surface(start, end).unwrap();
                assert!(a < b && b <= src.chars().count());
            }
        }
        assert_eq!(nz.surface(len, len + 1), None);
        assert_eq!(nz.surface(0, 0), None);
    }
}

#[test]
fn the_way_back_never_turns() {
    let nz = Normalized::build("Дwиjение shchuka и 3ло");
    for pair in nz.map.windows(2) {
        assert!(pair[0] <= pair[1]);
    }
}

#[test]
fn folding_drops_marks_and_case() {
    assert_eq!(fold_char('Ё'), vec!['ё']);
    assert_eq!(fold_char('A'), vec!['a']);
    // A combining acute accent alone folds to nothing.
    assert_eq!(fold_char('\u{301}'), Vec::<char>::new());
    // A ligature falls apart.
    assert_eq!(fold_char('ﬁ'), vec!['f', 'i']);
    // Full-width letters fold to plain ones.
    assert_eq!(fold_char('Ｗ'), vec!['w']);
}

#[test]
fn leet_maps_digits_to_letters() {
    assert_eq!(leet('0'), 'o');
    assert_eq!(leet('1'), 'i');
    assert_eq!(leet('@'), 'a');
    assert_eq!(leet('$'), 's');
    assert_eq!(leet('3'), 'з');
    assert_eq!(leet('4'), 'ч');
    assert_eq!(leet('6'), 'б');
    assert_eq!(leet('7'), 'т');
    assert_eq!(leet('8'), 'в');
    assert_eq!(leet('2'), '2');
    assert_eq!(leet('ж'), 'ж');
}

#[test]
fn longer_digraphs_win() {
    let t = |s: &str| -> String {
        let cs: Vec<char> = s.chars().collect();
        translit(&cs).into_iter().collect()
    };
    assert_eq!(t("shch"), "щ");
    assert_eq!(t("sch"), "щ");
    assert_eq!(t("sh"), "ш");
    assert_eq!(t("zhukov"), "жуков");
    assert_eq!(t("yandex"), "яндекс");
    assert_eq!(t("x"), "кс");
    assert_eq!(t("мир"), "мир");
    assert_eq!(t(""), "");
}

#[test]
fn lookalikes_share_a_skeleton() {
    // Latin `o` and Cyrillic `о` are one letter once skeletonized.
    assert_eq!(n("o"), n("о"));
    assert_ne!(n("о"), "");
}

#[test]
fn whitespace_has_no_word() {
    let nz = Normalized::build("на кино");
    // From the first word into the second: a space lies between.
    assert!(!nz.single_word_ok(0, 4));
    assert!(nz.single_word_ok(0, 2));
    assert!(!nz.single_word_ok(0, 100));
    assert!(!nz.at_word_start(100));
}

fn glyph(c: char, at: usize) -> Glyph {
    Glyph {
        c,
        at,
        word: c.is_alphanumeric() || leet(c).is_alphanumeric(),
        letter: c.is_alphabetic(),
        reads: leet(c).is_alphabetic(),
    }
}

#[test]
fn chains_are_collapsed_on_their_own() {
    let of = |s: &str| -> Vec<Glyph> { s.chars().enumerate().map(|(i, c)| glyph(c, i)).collect() };
    // A number leaves nothing, a separator ends a chain.
    assert_eq!(chain(&of("2024 мы")), vec![('м', 5), ('ы', 6)]);
    // Leet first: the whole of `put1n` is one Latin segment.
    assert_eq!(
        chain(&of("put1n")),
        vec![('п', 0), ('у', 1), ('т', 2), ('и', 3), ('н', 4)]
    );
    // Look-alikes alone are left to the skeleton.
    assert_eq!(chain(&of("сop")), vec![('с', 0), ('o', 1), ('p', 2)]);
    // Two letters become one, and the places are spread.
    assert_eq!(chain(&of("shum")), vec![('ш', 0), ('у', 1), ('м', 2)]);
    // A digit that stands for no letter is left out.
    assert_eq!(chain(&of("д2а")), vec![('д', 0), ('а', 2)]);
    // A symbol that stands for a letter holds a chain together.
    assert_eq!(chain(&of("м@ма")), vec![('м', 0), ('a', 1), ('м', 2), ('а', 3)]);
    assert_eq!(chain(&Vec::new()), vec![]);
}

#[test]
fn words_are_told_from_flags() {
    assert_eq!(
        mark_starts(&vec![true, true, false, true, false, false]),
        vec![true, false, false, true, false, false]
    );
    assert_eq!(
        measure_words(&vec![false, false, true, false, true, true]),
        vec![2, 2, 0, 1, 0, 0]
    );
    assert_eq!(measure_words(&vec![false; 70_000])[0], u16::MAX);
}

#[test]
fn symbols_used_for_letters_are_read() {
    assert_eq!(n("м@ма"), n("мама"));
    assert_eq!(n("$лава"), n("sлава"));
    // A price is still a number.
    assert_eq!(n("за 100$ и 2@"), n("за и"));
}

#[test]
fn the_normal_form_is_letters_only() {
    for s in ["абвгдеёжзийклмнопрстуфхцчшщъыьэюя", "abcdefghijklmnopqrstuvwxyz", "№ 5, café — ёлка №②", "ノート", "қазақ"] {
        assert!(n(s).chars().all(char::is_alphabetic), "{s}");
    }
    // `ё`, `й`, `ъ` and `ы` are two letters each.
    assert_eq!(n("абвгдеёжзийклмнопрстуфхцчшщъыьэюя").chars().count(), 37);
    assert_ne!(n("бомба"), n("ома"));
}

#[test]
fn marks_tell_letters_apart() {
    assert_ne!(n("бомбёж"), n("бомбеж"));
    assert!(!has("воинский", "войн"));
    assert!(!has("воин", "войн"));
    assert!(has("войны", "войн"));
    assert_ne!(n("қ"), n("к"));
    // A look-alike with the same mark is the same letter.
    assert_eq!(n("\u{451}"), n("\u{eb}"));
    assert_eq!(n("\u{463}"), n("\u{180}"));
    // The letter under the mark comes first.
    assert!(has("стой", "стои"));
    assert!(has("всё", "все"));
}

#[test]
fn a_skeleton_is_written_in_letters() {
    assert_eq!(to_letters(&['r', 'n', '\u{306}']), vec!['r', 'n', '\u{20306}']);
    assert_eq!(to_letters(&['6']), vec!['\u{20036}']);
    assert_eq!(to_letters(&['\u{1f600}']), vec!['\u{20160}']);
    assert_eq!(to_letters(&[]), Vec::<char>::new());
}

#[test]
fn a_blank_is_a_separator() {
    for c in [' ', '\n', '-', '.', '/'] {
        assert!(is_separator(c), "{c:?}");
    }
    for c in ['a', 'ж', '7', '@', '$', '\u{301}'] {
        assert!(!is_separator(c), "{c:?}");
    }
}

#[test]
fn the_way_back_goes_on_behind_a_separator() {
    let (a, b) = (Normalized::build("shum"), Normalized::build("и дождь"));
    let both = Normalized::build("shum и дождь");
    let mut map = a.map.clone();
    map.extend(b.map.iter().map(|at| at + 5));
    assert_eq!(both.map, map);
    assert_eq!(both.text, format!("{}{}", a.text, b.text));
}
