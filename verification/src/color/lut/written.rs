//! What is written in a file is what is read from it.

use crate::color::lut::parser;
use crate::color::lut::parser::Line;
use crate::ieee::decimal;
use crate::ieee::single::Single;
use crate::text;
use vstd::prelude::*;

verus! {

/// A word: some characters, none of them white space.
pub open spec fn is_word(w: Seq<char>) -> bool {
    w.len() > 0 && forall|i: int| 0 <= i < w.len() ==> !text::is_space(#[trigger] w[i])
}

/// Some words, with a space between each and the next.
pub open spec fn spaced(words: Seq<Seq<char>>) -> Seq<char>
    decreases words.len(),
{
    if words.len() == 0 {
        Seq::empty()
    } else if words.len() == 1 {
        words[0]
    } else {
        words[0] + (seq![' '] + spaced(words.drop_first()))
    }
}

/// Spaced words are told apart again.
pub proof fn law_spaced_words_are_told_apart(words: Seq<Seq<char>>)
    requires
        forall|i: int| 0 <= i < words.len() ==> is_word(#[trigger] words[i]),
    ensures
        text::words(spaced(words)) == words,
    decreases words.len(),
{
    if words.len() > 0 {
        let (w, rest) = (words[0], words.drop_first());
        assert(is_word(words[0]));
        assert forall|i: int| 0 <= i < rest.len() implies is_word(#[trigger] rest[i]) by {
            assert(rest[i] == words[i + 1]);
        }
        law_spaced_words_are_told_apart(rest);
        let s = spaced(words);
        let tail = if words.len() == 1 {
            Seq::<char>::empty()
        } else {
            seq![' '] + spaced(rest)
        };
        assert(s =~= w + tail);
        let n = w.len() as int;
        assert(s[0] == w[0] && !text::is_space(w[0]));
        let t = s.drop_first();
        assert forall|j: int| 0 <= j < n - 1 implies !text::is_space(#[trigger] t[j]) by {
            assert(t[j] == w[j + 1]);
        }
        if n - 1 < t.len() {
            assert(t[n - 1] == tail[0]);
        }
        text::lemma_word_length(t, n - 1);
        assert(s.take(n) =~= w);
        assert(s.skip(n) =~= tail);
        if words.len() > 1 {
            assert(tail.drop_first() =~= spaced(rest));
            assert(text::words(tail) == text::words(spaced(rest)));
        }
        assert(seq![w] + rest =~= words);
        assert(rest.len() == 0 ==> rest =~= Seq::empty());
    }
}

/// Some lines, with a line feed between each and the next.
pub open spec fn joined(lines: Seq<Seq<char>>) -> Seq<char>
    decreases lines.len(),
{
    if lines.len() == 0 {
        Seq::empty()
    } else if lines.len() == 1 {
        lines[0]
    } else {
        lines[0] + (seq!['\n'] + joined(lines.drop_first()))
    }
}

/// Joined lines are told apart again.
pub proof fn law_joined_lines_are_told_apart(lines: Seq<Seq<char>>)
    requires
        lines.len() > 0,
        forall|i: int, j: int|
            0 <= i < lines.len() && 0 <= j < lines[i].len() ==> #[trigger] lines[i][j] != '\n',
    ensures
        text::lines(joined(lines)) == lines,
    decreases lines.len(),
{
    let (first, rest) = (lines[0], lines.drop_first());
    let s = joined(lines);
    let n = first.len() as int;
    assert forall|j: int| 0 <= j < n implies #[trigger] s[j] != '\n' by {
        assert(s[j] == lines[0][j]);
    }
    if lines.len() == 1 {
        text::lemma_line_length(s, n);
        assert(seq![s] =~= lines);
    } else {
        assert forall|i: int, j: int| 0 <= i < rest.len() && 0 <= j < rest[i].len() implies
            #[trigger] rest[i][j] != '\n' by {
            assert(rest[i] == lines[i + 1]);
            assert(lines[i + 1][j] != '\n');
        }
        law_joined_lines_are_told_apart(rest);
        assert(s[n] == '\n');
        text::lemma_line_length(s, n);
        assert(s.take(n) =~= first);
        assert(s.skip(n + 1) =~= joined(rest));
        assert(seq![first] + rest =~= lines);
    }
}

/// The ends of spaced words.
proof fn lemma_ends(words: Seq<Seq<char>>)
    requires
        words.len() > 0,
        forall|i: int| 0 <= i < words.len() ==> is_word(#[trigger] words[i]),
    ensures
        ({
            let s = spaced(words);
            &&& s.len() > 0
            &&& s[0] == words[0][0]
            &&& !text::is_space(s[0])
            &&& !text::is_space(s.last())
        }),
    decreases words.len(),
{
    let s = spaced(words);
    let w = words[0];
    assert(is_word(words[0]));
    if words.len() > 1 {
        let rest = words.drop_first();
        assert forall|i: int| 0 <= i < rest.len() implies is_word(#[trigger] rest[i]) by {
            assert(rest[i] == words[i + 1]);
        }
        lemma_ends(rest);
        assert(s[0] == w[0]);
        assert(s.last() == spaced(rest).last());
    } else {
        assert(s.last() == w[w.len() - 1]);
    }
}

/// A line of spaced words has nothing to be cleaned off.
proof fn lemma_clean(words: Seq<Seq<char>>)
    requires
        words.len() > 0,
        forall|i: int| 0 <= i < words.len() ==> is_word(#[trigger] words[i]),
        words[0][0] != '\u{feff}',
    ensures
        parser::cleaned(spaced(words)) == spaced(words),
{
    lemma_ends(words);
    let s = spaced(words);
    assert(text::without_leading(s, '\u{feff}') == s);
    assert(text::trimmed(s) == s);
}

/// The keywords are words, and no two of them are one.
proof fn lemma_keywords()
    ensures
        is_word("DOMAIN_MIN"@),
        is_word("DOMAIN_MAX"@),
        is_word("LUT_1D_SIZE"@),
        is_word("LUT_3D_SIZE"@),
        "TITLE"@[0] == 'T' && "TITLE"@.len() == 5,
        "DOMAIN_MIN"@[0] == 'D' && "DOMAIN_MIN"@[8] == 'I' && "DOMAIN_MIN"@.len() == 10,
        "DOMAIN_MAX"@[0] == 'D' && "DOMAIN_MAX"@[8] == 'A' && "DOMAIN_MAX"@.len() == 10,
        "LUT_1D_SIZE"@[0] == 'L' && "LUT_1D_SIZE"@[4] == '1' && "LUT_1D_SIZE"@.len() == 11,
        "LUT_3D_SIZE"@[0] == 'L' && "LUT_3D_SIZE"@[4] == '3' && "LUT_3D_SIZE"@.len() == 11,
{
    reveal_strlit("TITLE");
    reveal_strlit("DOMAIN_MIN");
    reveal_strlit("DOMAIN_MAX");
    reveal_strlit("LUT_1D_SIZE");
    reveal_strlit("LUT_3D_SIZE");
}

/// The values of three words that are numbers.
proof fn lemma_values(a: Seq<char>, b: Seq<char>, c: Seq<char>, x: Single, y: Single, z: Single)
    requires
        decimal::parsed(a) == Some(x),
        decimal::parsed(b) == Some(y),
        decimal::parsed(c) == Some(z),
    ensures
        parser::values(seq![a, b, c]) == seq![x, y, z],
{
    let all = seq![a, b, c];
    assert(all.drop_first() =~= seq![b, c]);
    assert(seq![b, c].drop_first() =~= seq![c]);
    assert(seq![c].drop_first() =~= Seq::empty());
    assert(parser::values(Seq::<Seq<char>>::empty()) == Seq::<Single>::empty());
    assert(parser::values(seq![c]) =~= seq![z]);
    assert(parser::values(seq![b, c]) =~= seq![y, z]);
    assert(parser::values(all) =~= seq![x, y, z]);
}

/// The ends of the domain are read as they are written.
pub proof fn law_written_domain_is_read(
    a: Seq<char>,
    b: Seq<char>,
    c: Seq<char>,
    x: Single,
    y: Single,
    z: Single,
)
    requires
        is_word(a) && is_word(b) && is_word(c),
        decimal::parsed(a) == Some(x),
        decimal::parsed(b) == Some(y),
        decimal::parsed(c) == Some(z),
    ensures
        parser::says(spaced(seq!["DOMAIN_MIN"@, a, b, c])) == Line::DomainMin([x, y, z]),
        parser::says(spaced(seq!["DOMAIN_MAX"@, a, b, c])) == Line::DomainMax([x, y, z]),
{
    lemma_keywords();
    lemma_values(a, b, c, x, y, z);
    let (low, high) = (seq!["DOMAIN_MIN"@, a, b, c], seq!["DOMAIN_MAX"@, a, b, c]);
    assert(low.drop_first() =~= seq![a, b, c]);
    assert(high.drop_first() =~= seq![a, b, c]);
    law_spaced_words_are_told_apart(low);
    law_spaced_words_are_told_apart(high);
    lemma_ends(low);
    lemma_ends(high);
    lemma_clean(low);
    lemma_clean(high);
    assert(low[0] == "DOMAIN_MIN"@ && high[0] == "DOMAIN_MAX"@);
    assert([x, y, z] == [x, y, z]);
}

/// A row of three numbers is read as an entry, red first.
pub proof fn law_written_rows_are_read(
    a: Seq<char>,
    b: Seq<char>,
    c: Seq<char>,
    x: Single,
    y: Single,
    z: Single,
)
    requires
        is_word(a) && is_word(b) && is_word(c),
        decimal::is_digit(a[0]) || a[0] == '-' || a[0] == '+' || a[0] == '.',
        decimal::parsed(a) == Some(x),
        decimal::parsed(b) == Some(y),
        decimal::parsed(c) == Some(z),
    ensures
        parser::says(spaced(seq![a, b, c])) == Line::Row([x, y, z]),
{
    lemma_keywords();
    lemma_values(a, b, c, x, y, z);
    let row = seq![a, b, c];
    law_spaced_words_are_told_apart(row);
    lemma_ends(row);
    lemma_clean(row);
    assert(row[0] == a);
}

/// Sizes from 2 to 256 are read as they are written, and no others are taken.
pub proof fn law_written_size_is_read(word: Seq<char>, n: nat)
    requires
        is_word(word),
        parser::count(word) == Some(n),
    ensures
        2 <= n <= 256 ==> parser::says(spaced(seq!["LUT_1D_SIZE"@, word])) == Line::Curve(n),
        2 <= n <= 256 ==> parser::says(spaced(seq!["LUT_3D_SIZE"@, word])) == Line::Cube(n),
        !(2 <= n <= 256) ==> parser::says(spaced(seq!["LUT_1D_SIZE"@, word])) is BadSize,
        !(2 <= n <= 256) ==> parser::says(spaced(seq!["LUT_3D_SIZE"@, word])) is BadSize,
{
    lemma_keywords();
    let (curve, cube) = (seq!["LUT_1D_SIZE"@, word], seq!["LUT_3D_SIZE"@, word]);
    assert(curve.drop_first() =~= seq![word]);
    assert(cube.drop_first() =~= seq![word]);
    law_spaced_words_are_told_apart(curve);
    law_spaced_words_are_told_apart(cube);
    lemma_ends(curve);
    lemma_ends(cube);
    lemma_clean(curve);
    lemma_clean(cube);
    assert(curve[0] == "LUT_1D_SIZE"@ && cube[0] == "LUT_3D_SIZE"@);
}

/// A file of a size, a domain and rows, one line each, describes the table of that
/// size and domain whose entries are the rows in their order. It is sound exactly
/// where there are as many rows as entries.
pub proof fn law_plain_file_is_read(
    size: Seq<char>,
    low: Seq<char>,
    high: Seq<char>,
    rows: Seq<Seq<char>>,
    n: nat,
    cube: bool,
    min: [Single; 3],
    max: [Single; 3],
    entries: Seq<[Single; 3]>,
)
    requires
        parser::says(size) == if cube { Line::Cube(n) } else { Line::Curve(n) },
        parser::says(low) == Line::DomainMin(min),
        parser::says(high) == Line::DomainMax(max),
        rows.len() == entries.len(),
        forall|i: int| 0 <= i < rows.len() ==> parser::says(#[trigger] rows[i]) == Line::Row(entries[i]),
    ensures
        ({
            let lines = seq![size, low, high] + rows;
            let t = parser::table_in(lines);
            &&& parser::all_sound(lines)
            &&& t.size == n
            &&& t.cube == cube
            &&& t.domain_min == min
            &&& t.domain_max == max
            &&& t.data == entries
            &&& t.title is None
            &&& parser::fault_overall(lines) is None <==> rows.len() == if cube { n * n * n } else { n }
        }),
{
    let lines = seq![size, low, high] + rows;
    lemma_plain(size, low, high, rows, n, cube, min, max, entries);
    assert forall|i: int| 0 <= i < lines.len() implies (#[trigger] parser::fault_at(lines, i)) is None by {
        if i >= 3 {
            assert(lines[i] == rows[i - 3]);
        } else {
            assert(lines[i] == seq![size, low, high][i]);
        }
    }
}

proof fn lemma_plain(
    size: Seq<char>,
    low: Seq<char>,
    high: Seq<char>,
    rows: Seq<Seq<char>>,
    n: nat,
    cube: bool,
    min: [Single; 3],
    max: [Single; 3],
    entries: Seq<[Single; 3]>,
)
    requires
        parser::says(size) == if cube { Line::Cube(n) } else { Line::Curve(n) },
        parser::says(low) == Line::DomainMin(min),
        parser::says(high) == Line::DomainMax(max),
        rows.len() == entries.len(),
        forall|i: int| 0 <= i < rows.len() ==> parser::says(#[trigger] rows[i]) == Line::Row(entries[i]),
    ensures
        ({
            let lines = seq![size, low, high] + rows;
            &&& parser::curve_in(lines) == if cube { None } else { Some(n) }
            &&& parser::cube_in(lines) == if cube { Some(n) } else { None }
            &&& parser::domain_min_in(lines) == min
            &&& parser::domain_max_in(lines) == max
            &&& parser::rows_in(lines) == entries
            &&& parser::title_in(lines) is None
        }),
    decreases rows.len(),
{
    let lines = seq![size, low, high] + rows;
    if rows.len() == 0 {
        assert(lines =~= seq![size, low, high]);
        let (two, one) = (seq![size, low], seq![size]);
        assert(lines.drop_last() =~= two && lines.last() == high);
        assert(two.drop_last() =~= one && two.last() == low);
        assert(one.drop_last() =~= Seq::empty() && one.last() == size);
        reveal_with_fuel(parser::curve_in, 4);
        reveal_with_fuel(parser::cube_in, 4);
        reveal_with_fuel(parser::domain_min_in, 4);
        reveal_with_fuel(parser::domain_max_in, 4);
        reveal_with_fuel(parser::rows_in, 4);
        reveal_with_fuel(parser::title_in, 4);
        assert(entries =~= Seq::empty());
    } else {
        let (front, few) = (rows.drop_last(), entries.drop_last());
        assert forall|i: int| 0 <= i < front.len() implies parser::says(#[trigger] front[i])
            == Line::Row(few[i]) by {
            assert(front[i] == rows[i]);
        }
        lemma_plain(size, low, high, front, n, cube, min, max, few);
        assert(lines.drop_last() =~= seq![size, low, high] + front);
        let k = rows.len() - 1;
        assert(lines.last() == rows[k]);
        assert(few.push(entries[k]) =~= entries);
    }
}

} // verus!
