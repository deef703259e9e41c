use permissive_search::chars_of;
use permissive_search::lookalikes::{all, qwerty_misclicks, variants};

#[test]
fn misclicks_of_a_middle_key() {
    // 's' sits between 'a' and 'd': shift-toggled face first, then the
    // eight unshifted neighbours, then the same eight shifted
    let expected = vec![
        'S', 'q', 'w', 'e', 'a', 'd', 'z', 'x', 'c', 'Q', 'W', 'E', 'A', 'D', 'Z', 'X', 'C',
    ];
    assert_eq!(qwerty_misclicks('s'), expected);
}

#[test]
fn misclicks_of_a_corner_key() {
    // '1' is the top-left key: no neighbours above or to the left
    assert_eq!(qwerty_misclicks('1'), vec!['!', '2', 'q', 'w', '@', 'Q', 'W']);
}

#[test]
fn misclicks_of_a_shifted_character() {
    // 'A' is found on the shifted layout; neighbours still come in both
    // shift states, unshifted first
    let expected = vec!['a', 'q', 'w', 's', 'z', 'x', 'Q', 'W', 'S', 'Z', 'X'];
    assert_eq!(qwerty_misclicks('A'), expected);
}

#[test]
fn misclicks_of_punctuation() {
    // '/' is the bottom-right key of the layout
    let expected = vec!['?', 'l', ';', '.', 'L', ':', '>'];
    assert_eq!(qwerty_misclicks('/'), expected);
}

#[test]
fn characters_off_the_layout_have_no_misclicks() {
    assert_eq!(qwerty_misclicks(' '), Vec::<char>::new());
    assert_eq!(qwerty_misclicks('\u{e9}'), Vec::<char>::new());
    assert_eq!(qwerty_misclicks('\n'), Vec::<char>::new());
}

#[test]
fn adjacency_entries_listed_by_the_table() {
    // explicit entries of the built-in layout, checked both ways where the
    // table lists both — asserted entry by entry, not as a symmetry law
    assert!(qwerty_misclicks('a').contains(&'s'));
    assert!(qwerty_misclicks('s').contains(&'a'));
    assert!(qwerty_misclicks('q').contains(&'w'));
    assert!(qwerty_misclicks('w').contains(&'q'));
    assert!(qwerty_misclicks('s').contains(&'S'));
    assert!(qwerty_misclicks('S').contains(&'s'));
    // diagonal neighbours count too
    assert!(qwerty_misclicks('s').contains(&'e'));
    assert!(qwerty_misclicks('e').contains(&'s'));
    // keys two apart are not adjacent
    assert!(!qwerty_misclicks('a').contains(&'d'));
    assert!(!qwerty_misclicks('q').contains(&'z'));
}

#[test]
fn variants_of_a_latin_vowel() {
    let expected = chars_of("\u{e2}\u{e3}\u{e4}\u{e0}\u{e1}\u{105}\u{101}\u{c2}\u{c3}\u{c4}\u{c0}\u{c1}\u{104}\u{100}");
    assert_eq!(variants('a'), expected);
}

#[test]
fn variants_of_kana_are_asymmetric_as_listed() {
    // Hiragana and Katakana entries list each other, in their own orders
    assert_eq!(variants('\u{3042}'), vec!['\u{30a2}', '\u{3041}', '\u{30a1}']);
    assert_eq!(variants('\u{30a2}'), vec!['\u{3042}', '\u{3041}', '\u{30a1}']);
    assert_eq!(
        variants('\u{304b}'),
        vec!['\u{30ab}', '\u{304c}', '\u{30ac}', '\u{3095}', '\u{30f5}']
    );
    assert_eq!(
        variants('\u{30ab}'),
        vec!['\u{304b}', '\u{304c}', '\u{3095}', '\u{30f5}', '\u{30ac}']
    );
}

#[test]
fn variants_of_cyrillic_and_greek() {
    assert_eq!(variants('\u{435}'), vec!['\u{451}', '\u{401}']);
    assert_eq!(variants('\u{3b9}'), chars_of("\u{3af}\u{3ca}\u{390}\u{38a}\u{3aa}\u{390}"));
}

#[test]
fn characters_without_an_entry_have_no_variants() {
    assert_eq!(variants('q'), Vec::<char>::new());
    assert_eq!(variants('7'), Vec::<char>::new());
    assert_eq!(variants('\u{e2}'), Vec::<char>::new());
}

#[test]
fn all_concatenates_misclicks_then_variants() {
    for ch in ['a', 's', '1', '\u{3042}', ' '] {
        let mut expected = qwerty_misclicks(ch);
        expected.extend(variants(ch));
        assert_eq!(all(ch), expected);
    }
}

#[test]
fn chars_of_collects_in_order() {
    assert_eq!(chars_of(""), Vec::<char>::new());
    assert_eq!(chars_of("h\u{e9}!"), vec!['h', '\u{e9}', '!']);
}
