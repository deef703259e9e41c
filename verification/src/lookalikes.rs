//! Lookalike-character tables: QWERTY keyboard adjacency and script/diacritic
//! variants. Each table maps a single character to a short, order-stable
//! sequence of characters the input character could plausibly stand for;
//! characters outside a table yield the empty sequence.

use vstd::prelude::*;

use crate::chars_of;
use crate::Lookalikes;

verus! {

/// The unshifted QWERTY layout: four rows of ten keys.
pub open spec fn plain_rows() -> Seq<Seq<char>> {
    seq!["1234567890"@, "qwertyuiop"@, "asdfghjkl;"@, "zxcvbnm,./"@]
}

/// The same physical keys with shift held down.
pub open spec fn shift_rows() -> Seq<Seq<char>> {
    seq!["!@#$%^&*()"@, "QWERTYUIOP"@, "ASDFGHJKL:"@, "ZXCVBNM<>?"@]
}

/// One of the two layouts, chosen by shift state.
pub open spec fn rows_of(shifted: bool) -> Seq<Seq<char>> {
    if shifted {
        shift_rows()
    } else {
        plain_rows()
    }
}

/// Both layouts have four rows of exactly ten characters.
pub proof fn lemma_rows_len()
    ensures
        plain_rows().len() == 4,
        shift_rows().len() == 4,
        forall|r: int| 0 <= r < 4 ==> (#[trigger] plain_rows()[r]).len() == 10,
        forall|r: int| 0 <= r < 4 ==> (#[trigger] shift_rows()[r]).len() == 10,
{
    reveal_strlit("1234567890");
    reveal_strlit("qwertyuiop");
    reveal_strlit("asdfghjkl;");
    reveal_strlit("zxcvbnm,./");
    reveal_strlit("!@#$%^&*()");
    reveal_strlit("QWERTYUIOP");
    reveal_strlit("ASDFGHJKL:");
    reveal_strlit("ZXCVBNM<>?");
    assert(plain_rows()[0].len() == 10);
    assert(plain_rows()[1].len() == 10);
    assert(plain_rows()[2].len() == 10);
    assert(plain_rows()[3].len() == 10);
    assert(shift_rows()[0].len() == 10);
    assert(shift_rows()[1].len() == 10);
    assert(shift_rows()[2].len() == 10);
    assert(shift_rows()[3].len() == 10);
}

/// The first position at or after `c` where `row` holds `ch`, if any.
pub open spec fn find_in_row(row: Seq<char>, ch: char, c: int) -> Option<int>
    decreases row.len() - c,
{
    if c >= row.len() {
        None
    } else if row[c] == ch {
        Some(c)
    } else {
        find_in_row(row, ch, c + 1)
    }
}

/// The first `(row, column)` at or after row `r`, scanning row-major, where
/// the layout holds `ch`, if any.
pub open spec fn find_in_rows(rows: Seq<Seq<char>>, ch: char, r: int) -> Option<(int, int)>
    decreases rows.len() - r,
{
    if r >= rows.len() {
        None
    } else {
        match find_in_row(rows[r], ch, 0) {
            Some(c) => Some((r, c)),
            None => find_in_rows(rows, ch, r + 1),
        }
    }
}

/// Where `ch` sits on the keyboard: its row, column, and whether it is the
/// shifted face of its key. The unshifted layout is consulted first.
pub open spec fn spec_locate(ch: char) -> Option<(int, int, bool)> {
    match find_in_rows(plain_rows(), ch, 0) {
        Some(rc) => Some((rc.0, rc.1, false)),
        None => match find_in_rows(shift_rows(), ch, 0) {
            Some(rc) => Some((rc.0, rc.1, true)),
            None => None,
        },
    }
}

/// The character of one layout cell as a singleton, or the empty sequence
/// when the cell is off the board.
pub open spec fn cell_or_empty(rows: Seq<Seq<char>>, r: int, c: int) -> Seq<char> {
    if 0 <= r < rows.len() && 0 <= c < rows[r].len() {
        seq![rows[r][c]]
    } else {
        Seq::<char>::empty()
    }
}

/// The up-to-eight physical neighbours of the key at `(r, c)`, diagonals
/// included, read from `rows` row by row.
pub open spec fn adjacent_in(rows: Seq<Seq<char>>, r: int, c: int) -> Seq<char> {
    cell_or_empty(rows, r - 1, c - 1) + cell_or_empty(rows, r - 1, c) + cell_or_empty(
        rows,
        r - 1,
        c + 1,
    ) + cell_or_empty(rows, r, c - 1) + cell_or_empty(rows, r, c + 1) + cell_or_empty(
        rows,
        r + 1,
        c - 1,
    ) + cell_or_empty(rows, r + 1, c) + cell_or_empty(rows, r + 1, c + 1)
}

/// All the characters `ch` could have been a misclick of: the shift-toggled
/// face of its own key first, then its physical neighbours on the unshifted
/// layout, then the same neighbours on the shifted layout. A character on
/// neither layout has no misclicks.
pub open spec fn misclicks_spec(ch: char) -> Seq<char> {
    match spec_locate(ch) {
        None => Seq::<char>::empty(),
        Some(rcs) => {
            let toggled = rows_of(!rcs.2)[rcs.0][rcs.1];
            seq![toggled] + adjacent_in(plain_rows(), rcs.0, rcs.1) + adjacent_in(
                shift_rows(),
                rcs.0,
                rcs.1,
            )
        },
    }
}

/// One row of one layout, as a string literal.
fn layout_row(shifted: bool, r: usize) -> (s: &'static str)
    requires
        r < 4,
    ensures
        s@ == rows_of(shifted)[r as int],
{
    if shifted {
        match r {
            0 => "!@#$%^&*()",
            1 => "QWERTYUIOP",
            2 => "ASDFGHJKL:",
            _ => "ZXCVBNM<>?",
        }
    } else {
        match r {
            0 => "1234567890",
            1 => "qwertyuiop",
            2 => "asdfghjkl;",
            _ => "zxcvbnm,./",
        }
    }
}

/// The character at one layout cell.
fn cell(shifted: bool, r: usize, c: usize) -> (ch: char)
    requires
        r < 4,
        c < 10,
    ensures
        ch == rows_of(shifted)[r as int][c as int],
{
    proof {
        lemma_rows_len();
    }
    layout_row(shifted, r).get_char(c)
}

/// Scans one layout row-major for `ch`, returning its row and column.
fn find_char(ch: char, shifted: bool) -> (found: Option<(usize, usize)>)
    ensures
        match found {
            Some(rc) => rc.0 < 4 && rc.1 < 10 && find_in_rows(rows_of(shifted), ch, 0) == Some(
                (rc.0 as int, rc.1 as int),
            ),
            None => find_in_rows(rows_of(shifted), ch, 0) is None,
        },
{
    proof {
        lemma_rows_len();
    }
    let ghost rows = rows_of(shifted);
    let mut r: usize = 0;
    while r < 4
        invariant
            r <= 4,
            rows == rows_of(shifted),
            rows.len() == 4,
            forall|i: int| 0 <= i < 4 ==> (#[trigger] rows[i]).len() == 10,
            find_in_rows(rows, ch, 0) == find_in_rows(rows, ch, r as int),
        decreases 4 - r,
    {
        let row = layout_row(shifted, r);
        let mut c: usize = 0;
        while c < 10
            invariant
                c <= 10,
                r < 4,
                rows == rows_of(shifted),
                rows.len() == 4,
                forall|i: int| 0 <= i < 4 ==> (#[trigger] rows[i]).len() == 10,
                row@ == rows[r as int],
                find_in_row(rows[r as int], ch, 0) == find_in_row(rows[r as int], ch, c as int),
                find_in_rows(rows, ch, 0) == find_in_rows(rows, ch, r as int),
            decreases 10 - c,
        {
            if row.get_char(c) == ch {
                proof {
                    assert(find_in_row(rows[r as int], ch, c as int) == Some(c as int));
                    assert(find_in_rows(rows, ch, r as int) == Some((r as int, c as int)));
                }
                return Some((r, c));
            }
            c += 1;
        }
        proof {
            assert(find_in_row(rows[r as int], ch, 10) is None);
            assert(find_in_rows(rows, ch, r as int) == find_in_rows(rows, ch, r as int + 1));
        }
        r += 1;
    }
    None
}

/// Appends the eight-neighbourhood of `(r, c)` in one layout to `out`,
/// skipping cells off the board.
#[verifier::rlimit(100)]
fn push_adjacent(shifted: bool, r: usize, c: usize, out: &mut Vec<char>)
    requires
        r < 4,
        c < 10,
    ensures
        final(out)@ == old(out)@ + adjacent_in(rows_of(shifted), r as int, c as int),
{
    proof {
        lemma_rows_len();
    }
    if r > 0 {
        if c > 0 {
            out.push(cell(shifted, r - 1, c - 1));
        }
        out.push(cell(shifted, r - 1, c));
        if c < 9 {
            out.push(cell(shifted, r - 1, c + 1));
        }
    }
    if c > 0 {
        out.push(cell(shifted, r, c - 1));
    }
    if c < 9 {
        out.push(cell(shifted, r, c + 1));
    }
    if r < 3 {
        if c > 0 {
            out.push(cell(shifted, r + 1, c - 1));
        }
        out.push(cell(shifted, r + 1, c));
        if c < 9 {
            out.push(cell(shifted, r + 1, c + 1));
        }
    }
    proof {
        assert(out@ =~= old(out)@ + adjacent_in(rows_of(shifted), r as int, c as int));
    }
}

/// Returns all characters that `ch` could've been a misclick of.
///
/// E.g. if the user typed in `a`, it could mean that they meant `a`, or
/// (assuming their keyboard is in the QWERTY layout) they've misclicked a
/// neighbouring key, in either shift state, or left shift pressed or
/// unpressed on the key itself.
pub fn qwerty_misclicks(ch: char) -> (out: Vec<char>)
    ensures
        out@ == misclicks_spec(ch),
{
    let mut out: Vec<char> = Vec::new();
    let located: (usize, usize, bool) = match find_char(ch, false) {
        Some(rc) => (rc.0, rc.1, false),
        None => match find_char(ch, true) {
            Some(rc) => (rc.0, rc.1, true),
            None => {
                return out;
            },
        },
    };
    let (r, c, shifted) = located;
    proof {
        assert(spec_locate(ch) == Some((r as int, c as int, shifted)));
    }
    out.push(cell(!shifted, r, c));
    push_adjacent(false, r, c, &mut out);
    push_adjacent(true, r, c, &mut out);
    proof {
        assert(out@ =~= misclicks_spec(ch));
    }
    out
}

/// The variants of `ch` with diacritics, and variants in other registers
/// (except for case): e.g. for a base Katakana character, its variants in
/// Hiragana, with Dakuten and Handakuten. The association is curated and
/// need not be symmetric. A character with no entry has no variants.
pub open spec fn variants_spec(ch: char) -> Seq<char> {
    match ch {
        // Latin
        'a' => "âãäàáąāÂÃÄÀÁĄĀ"@,
        'c' => "ćčçĆČÇ"@,
        'd' => "ďđðĎĐÐ"@,
        'e' => "êëèéęēÊËÈÉĘĒ"@,
        'g' => "ğģĞĢ"@,
        'h' => "ĥĤ"@,
        'i' => "îïìíīįĩıİÎÏÌÍĪĮĨIİ"@,
        'j' => "ĵĴ"@,
        'k' => "ķĶ"@,
        'l' => "ĺļľłĹĻĽŁ"@,
        'n' => "ñńňņÑŃŇŅ"@,
        'o' => "ôõöòóøōőÔÕÖÒÓØŌŐ"@,
        'r' => "řŕŗŘŔŖ"@,
        's' => "śšşșßŚŠŞȘẞ"@,
        't' => "ťţțŤŢȚ"@,
        'u' => "ûüùúūűÛÜÙÚŪŰ"@,
        'w' => "ŵŴ"@,
        'y' => "ŷÿýŶŸÝ"@,
        'z' => "žźżŽŹŻ"@,
        // Cyrillic
        'е' => "ёЁ"@,
        'и' => "йЙ"@,
        'і' => "їЇ"@,
        'у' => "ўЎ"@,
        'ь' => "ъЪ"@,
        // Greek
        'α' => "άΆ"@,
        'ε' => "έΈ"@,
        'η' => "ήΉ"@,
        'ι' => "ίϊΐΊΪΐ"@,
        'ο' => "όΌ"@,
        'υ' => "ύϋΰΎΫΰ"@,
        'ω' => "ώΏ"@,
        // Hiragana
        'あ' => "アぁァ"@,
        'い' => "イぃィ"@,
        'う' => "ウぅゥ"@,
        'え' => "エぇェ"@,
        'お' => "オぉォ"@,
        'か' => "カがガゕヵ"@,
        'き' => "キぎギ"@,
        'く' => "クぐグ"@,
        'け' => "ケげゲゖヶ"@,
        'こ' => "コごゴ"@,
        'さ' => "サざザ"@,
        'し' => "シじジ"@,
        'す' => "スずズ"@,
        'せ' => "セぜゼ"@,
        'そ' => "ソぞゾ"@,
        'た' => "タだダ"@,
        'ち' => "チぢヂ"@,
        'つ' => "ツづヅっッ"@,
        'て' => "テでデ"@,
        'と' => "トどド"@,
        'な' => "ナ"@,
        'に' => "ニ"@,
        'ぬ' => "ヌ"@,
        'ね' => "ネ"@,
        'の' => "ノ"@,
        'は' => "ハばバぱパ"@,
        'ひ' => "ヒびビぴピ"@,
        'ふ' => "フぶブぷプ"@,
        'へ' => "ヘべベぺペ"@,
        'ほ' => "ホぼボぽポ"@,
        'ま' => "マ"@,
        'み' => "ミ"@,
        'む' => "ム"@,
        'め' => "メ"@,
        'も' => "モ"@,
        'や' => "ヤゃャ"@,
        'ゆ' => "ユゅュ"@,
        'よ' => "ヨょョ"@,
        'ら' => "ラ"@,
        'り' => "リ"@,
        'る' => "ル"@,
        'れ' => "レ"@,
        'ろ' => "ロ"@,
        'わ' => "ワゎヮ"@,
        'を' => "ヲ"@,
        'ん' => "ン"@,
        // Katakana
        'ア' => "あぁァ"@,
        'イ' => "いぃィ"@,
        'ウ' => "うぅゥ"@,
        'エ' => "えぇェ"@,
        'オ' => "おぉォ"@,
        'カ' => "かがゕヵガ"@,
        'キ' => "きぎギ"@,
        'ク' => "くぐグ"@,
        'ケ' => "けげゖヶゲ"@,
        'コ' => "こごゴ"@,
        'サ' => "さざザ"@,
        'シ' => "しじジ"@,
        'ス' => "すずズ"@,
        'セ' => "せぜゼ"@,
        'ソ' => "そぞゾ"@,
        'タ' => "ただダ"@,
        'チ' => "ちぢヂ"@,
        'ツ' => "つづヅっッ"@,
        'テ' => "てでデ"@,
        'ト' => "とどド"@,
        'ナ' => "な"@,
        'ニ' => "に"@,
        'ヌ' => "ぬ"@,
        'ネ' => "ね"@,
        'ノ' => "の"@,
        'ハ' => "はばぱバパ"@,
        'ヒ' => "ひびぴビピ"@,
        'フ' => "ふぶぷブプ"@,
        'ヘ' => "へべぺベペ"@,
        'ホ' => "ほぼぽボポ"@,
        'マ' => "ま"@,
        'ミ' => "み"@,
        'ム' => "む"@,
        'メ' => "め"@,
        'モ' => "も"@,
        'ヤ' => "やゃャ"@,
        'ユ' => "ゆゅュ"@,
        'ヨ' => "よょョ"@,
        'ラ' => "ら"@,
        'リ' => "り"@,
        'ル' => "る"@,
        'レ' => "れ"@,
        'ロ' => "ろ"@,
        'ワ' => "わゎヮ"@,
        'ヲ' => "を"@,
        'ン' => "ん"@,
        _ => ""@,
    }
}

/// The variant table's entry for `ch`, as a string literal.
fn variants_str(ch: char) -> (s: &'static str)
    ensures
        s@ == variants_spec(ch),
{
    match ch {
        // Latin
        'a' => "âãäàáąāÂÃÄÀÁĄĀ",
        'c' => "ćčçĆČÇ",
        'd' => "ďđðĎĐÐ",
        'e' => "êëèéęēÊËÈÉĘĒ",
        'g' => "ğģĞĢ",
        'h' => "ĥĤ",
        'i' => "îïìíīįĩıİÎÏÌÍĪĮĨIİ",
        'j' => "ĵĴ",
        'k' => "ķĶ",
        'l' => "ĺļľłĹĻĽŁ",
        'n' => "ñńňņÑŃŇŅ",
        'o' => "ôõöòóøōőÔÕÖÒÓØŌŐ",
        'r' => "řŕŗŘŔŖ",
        's' => "śšşșßŚŠŞȘẞ",
        't' => "ťţțŤŢȚ",
        'u' => "ûüùúūűÛÜÙÚŪŰ",
        'w' => "ŵŴ",
        'y' => "ŷÿýŶŸÝ",
        'z' => "žźżŽŹŻ",
        // Cyrillic
        'е' => "ёЁ",
        'и' => "йЙ",
        'і' => "їЇ",
        'у' => "ўЎ",
        'ь' => "ъЪ",
        // Greek
        'α' => "άΆ",
        'ε' => "έΈ",
        'η' => "ήΉ",
        'ι' => "ίϊΐΊΪΐ",
        'ο' => "όΌ",
        'υ' => "ύϋΰΎΫΰ",
        'ω' => "ώΏ",
        // Hiragana
        'あ' => "アぁァ",
        'い' => "イぃィ",
        'う' => "ウぅゥ",
        'え' => "エぇェ",
        'お' => "オぉォ",
        'か' => "カがガゕヵ",
        'き' => "キぎギ",
        'く' => "クぐグ",
        'け' => "ケげゲゖヶ",
        'こ' => "コごゴ",
        'さ' => "サざザ",
        'し' => "シじジ",
        'す' => "スずズ",
        'せ' => "セぜゼ",
        'そ' => "ソぞゾ",
        'た' => "タだダ",
        'ち' => "チぢヂ",
        'つ' => "ツづヅっッ",
        'て' => "テでデ",
        'と' => "トどド",
        'な' => "ナ",
        'に' => "ニ",
        'ぬ' => "ヌ",
        'ね' => "ネ",
        'の' => "ノ",
        'は' => "ハばバぱパ",
        'ひ' => "ヒびビぴピ",
        'ふ' => "フぶブぷプ",
        'へ' => "ヘべベぺペ",
        'ほ' => "ホぼボぽポ",
        'ま' => "マ",
        'み' => "ミ",
        'む' => "ム",
        'め' => "メ",
        'も' => "モ",
        'や' => "ヤゃャ",
        'ゆ' => "ユゅュ",
        'よ' => "ヨょョ",
        'ら' => "ラ",
        'り' => "リ",
        'る' => "ル",
        'れ' => "レ",
        'ろ' => "ロ",
        'わ' => "ワゎヮ",
        'を' => "ヲ",
        'ん' => "ン",
        // Katakana
        'ア' => "あぁァ",
        'イ' => "いぃィ",
        'ウ' => "うぅゥ",
        'エ' => "えぇェ",
        'オ' => "おぉォ",
        'カ' => "かがゕヵガ",
        'キ' => "きぎギ",
        'ク' => "くぐグ",
        'ケ' => "けげゖヶゲ",
        'コ' => "こごゴ",
        'サ' => "さざザ",
        'シ' => "しじジ",
        'ス' => "すずズ",
        'セ' => "せぜゼ",
        'ソ' => "そぞゾ",
        'タ' => "ただダ",
        'チ' => "ちぢヂ",
        'ツ' => "つづヅっッ",
        'テ' => "てでデ",
        'ト' => "とどド",
        'ナ' => "な",
        'ニ' => "に",
        'ヌ' => "ぬ",
        'ネ' => "ね",
        'ノ' => "の",
        'ハ' => "はばぱバパ",
        'ヒ' => "ひびぴビピ",
        'フ' => "ふぶぷブプ",
        'ヘ' => "へべぺベペ",
        'ホ' => "ほぼぽボポ",
        'マ' => "ま",
        'ミ' => "み",
        'ム' => "む",
        'メ' => "め",
        'モ' => "も",
        'ヤ' => "やゃャ",
        'ユ' => "ゆゅュ",
        'ヨ' => "よょョ",
        'ラ' => "ら",
        'リ' => "り",
        'ル' => "る",
        'レ' => "れ",
        'ロ' => "ろ",
        'ワ' => "わゎヮ",
        'ヲ' => "を",
        'ン' => "ん",
        _ => "",
    }
}

/// Returns the variants of `ch` with diacritics and in other registers; see
/// [`variants_spec`] for the curated table.
pub fn variants(ch: char) -> (r: Vec<char>)
    ensures
        r@ == variants_spec(ch),
{
    chars_of(variants_str(ch))
}

/// The two tables combined: keyboard misclicks first, then script variants,
/// concatenated, not deduplicated.
pub open spec fn all_spec(ch: char) -> Seq<char> {
    misclicks_spec(ch) + variants_spec(ch)
}

/// Returns a vector that combines all lookalike tables defined in this
/// module, in [`all_spec`]'s order.
pub fn all(ch: char) -> (r: Vec<char>)
    ensures
        r@ == all_spec(ch),
{
    let mut r = qwerty_misclicks(ch);
    let mut v = variants(ch);
    r.append(&mut v);
    r
}

/// A lookalike source that tolerates nothing: every character stands only
/// for itself.
pub struct NoLookalikes;

impl Lookalikes for NoLookalikes {
    open spec fn spec_lookalikes(&self, ch: char) -> Seq<char> {
        Seq::<char>::empty()
    }

    fn push_lookalikes(&self, ch: char, dst: &mut Vec<char>) {
        proof {
            assert(dst@ =~= old(dst)@ + self.spec_lookalikes(ch));
        }
    }
}

/// A lookalike source that tolerates keyboard misclicks on a QWERTY layout.
pub struct QwertyMisclicks;

impl Lookalikes for QwertyMisclicks {
    open spec fn spec_lookalikes(&self, ch: char) -> Seq<char> {
        misclicks_spec(ch)
    }

    fn push_lookalikes(&self, ch: char, dst: &mut Vec<char>) {
        let mut v = qwerty_misclicks(ch);
        dst.append(&mut v);
    }
}

/// A lookalike source that tolerates script and diacritic variants.
pub struct ScriptVariants;

impl Lookalikes for ScriptVariants {
    open spec fn spec_lookalikes(&self, ch: char) -> Seq<char> {
        variants_spec(ch)
    }

    fn push_lookalikes(&self, ch: char, dst: &mut Vec<char>) {
        let mut v = variants(ch);
        dst.append(&mut v);
    }
}

/// A lookalike source that tolerates both misclicks and script variants.
pub struct AllLookalikes;

impl Lookalikes for AllLookalikes {
    open spec fn spec_lookalikes(&self, ch: char) -> Seq<char> {
        all_spec(ch)
    }

    fn push_lookalikes(&self, ch: char, dst: &mut Vec<char>) {
        let mut v = all(ch);
        dst.append(&mut v);
    }
}

} // verus!
