//! Reader for the Adobe Cube (`.cube`) text format.
//!
//! The format is a header of keywords followed by whitespace-separated RGB
//! triplets. It carries no indication of the color space it expects on the
//! input; that is the user's call.

use crate::color::lut::{Lut, LutData};
use crate::ieee::decimal;
use crate::ieee::single::Single;
use crate::text;
use vstd::prelude::*;
use vstd::string::*;

verus! {

/// Why a `.cube` file could not be read.
#[derive(Debug, Clone, PartialEq)]
pub enum LutParseError {
    /// The file could not be opened or read.
    Io(String),
    /// A `LUT_*_SIZE` line was present but the value made no sense.
    InvalidSize {
        /// What the file declared.
        found: String,
    },
    /// Neither `LUT_1D_SIZE` nor `LUT_3D_SIZE` was found.
    MissingSize,
    /// Both `LUT_1D_SIZE` and `LUT_3D_SIZE` were declared.
    ConflictingSize,
    /// A data line did not hold three parseable floats.
    InvalidData {
        /// 1-based line number, to point the user at it.
        line: usize,
        /// The offending text.
        text: String,
    },
    /// The number of data rows does not match the declared size.
    SizeMismatch {
        /// Rows the header implies.
        expected: usize,
        /// Rows actually found.
        found: usize,
    },
    /// A `DOMAIN_MIN`/`DOMAIN_MAX` line was malformed.
    InvalidDomain {
        /// 1-based line number.
        line: usize,
    },
}

/// What a [`LutParseError`] holds.
pub ghost enum Fault {
    Io(Seq<char>),
    InvalidSize(Seq<char>),
    MissingSize,
    ConflictingSize,
    InvalidData(nat, Seq<char>),
    SizeMismatch(nat, nat),
    InvalidDomain(nat),
}

impl View for LutParseError {
    type V = Fault;

    open spec fn view(&self) -> Fault {
        match self {
            LutParseError::Io(e) => Fault::Io(e@),
            LutParseError::InvalidSize { found } => Fault::InvalidSize(found@),
            LutParseError::MissingSize => Fault::MissingSize,
            LutParseError::ConflictingSize => Fault::ConflictingSize,
            LutParseError::InvalidData { line, text } => Fault::InvalidData(*line as nat, text@),
            LutParseError::SizeMismatch { expected, found } => Fault::SizeMismatch(
                *expected as nat,
                *found as nat,
            ),
            LutParseError::InvalidDomain { line } => Fault::InvalidDomain(*line as nat),
        }
    }
}

impl Fault {
    /// The text shown to the user.
    pub open spec fn message(self) -> Seq<char> {
        match self {
            Fault::Io(e) => "Could not read the file: "@ + e,
            Fault::InvalidSize(found) => "Invalid LUT size: "@ + found,
            Fault::MissingSize => "No LUT_1D_SIZE or LUT_3D_SIZE in the file"@,
            Fault::ConflictingSize => "The file declares both LUT_1D_SIZE and LUT_3D_SIZE"@,
            Fault::InvalidData(line, text) => "Line "@ + text::decimal(line)
                + " is not three numbers: "@ + text,
            Fault::SizeMismatch(expected, found) => "Expected "@ + text::decimal(expected)
                + " entries, found "@ + text::decimal(found) + " - the file looks truncated"@,
            Fault::InvalidDomain(line) => "Malformed DOMAIN on line "@ + text::decimal(line),
        }
    }
}

impl LutParseError {
    /// The text shown to the user.
    pub fn message(&self) -> (s: String)
        ensures
            s@ == self@.message(),
    {
        match self {
            LutParseError::Io(e) => {
                let mut s = "Could not read the file: ".to_string();
                s.append(e.as_str());
                s
            },
            LutParseError::InvalidSize { found } => {
                let mut s = "Invalid LUT size: ".to_string();
                s.append(found.as_str());
                s
            },
            LutParseError::MissingSize => "No LUT_1D_SIZE or LUT_3D_SIZE in the file".to_string(),
            LutParseError::ConflictingSize =>
            "The file declares both LUT_1D_SIZE and LUT_3D_SIZE".to_string(),
            LutParseError::InvalidData { line, text } => {
                let mut s = "Line ".to_string();
                text::push_decimal(&mut s, *line as u64);
                s.append(" is not three numbers: ");
                s.append(text.as_str());
                s
            },
            LutParseError::SizeMismatch { expected, found } => {
                let mut s = "Expected ".to_string();
                text::push_decimal(&mut s, *expected as u64);
                s.append(" entries, found ");
                text::push_decimal(&mut s, *found as u64);
                s.append(" - the file looks truncated");
                s
            },
            LutParseError::InvalidDomain { line } => {
                let mut s = "Malformed DOMAIN on line ".to_string();
                text::push_decimal(&mut s, *line as u64);
                s
            },
        }
    }
}

/// The values among some words; a word that is no number is passed over.
pub open spec fn values(words: Seq<Seq<char>>) -> Seq<Single>
    decreases words.len(),
{
    if words.len() == 0 {
        Seq::empty()
    } else {
        let first = decimal::parsed(words[0]);
        let rest = values(words.drop_first());
        match first {
            Some(v) => seq![v] + rest,
            None => rest,
        }
    }
}

/// The count that a word writes: an optional plus sign, then digits.
pub open spec fn count(s: Seq<char>) -> Option<nat> {
    let body = if s.len() > 0 && s[0] == '+' {
        s.skip(1)
    } else {
        s
    };
    if body.len() > 0 && decimal::run(body) == body.len() && decimal::digits_value(body)
        <= usize::MAX {
        Some(decimal::digits_value(body))
    } else {
        None
    }
}

/// What one line of a file says.
pub ghost enum Line {
    /// Nothing: blank, a comment, or a keyword that is not used.
    Silent,
    Title(Seq<char>),
    /// Size of a curve.
    Curve(nat),
    /// Edge of a cube.
    Cube(nat),
    DomainMin([Single; 3]),
    DomainMax([Single; 3]),
    Row([Single; 3]),
    BadSize(Seq<char>),
    BadDomain,
    BadRow(Seq<char>),
}

/// A line without byte order marks in front and without white space around it.
pub open spec fn cleaned(raw: Seq<char>) -> Seq<char> {
    text::trimmed(text::without_leading(raw, '\u{feff}'))
}

/// A size must leave something to interpolate and must not ask for terabytes.
pub open spec fn size_says(word: Seq<char>, cube: bool) -> Line {
    match count(word) {
        None => Line::BadSize(word),
        Some(n) => if n < 2 || n > 256 {
            Line::BadSize(text::decimal(n))
        } else if cube {
            Line::Cube(n)
        } else {
            Line::Curve(n)
        },
    }
}

pub open spec fn starts_number(c: char) -> bool {
    decimal::is_digit(c) || c == '-' || c == '+' || c == '.'
}

/// What a line says.
pub open spec fn says(raw: Seq<char>) -> Line {
    let line = cleaned(raw);
    let all = text::words(line);
    let key = all[0];
    let rest = all.drop_first();
    if line.len() == 0 || line[0] == '#' {
        Line::Silent
    } else if key == "TITLE"@ {
        Line::Title(text::unquoted(text::trimmed(line.skip(5))))
    } else if key == "LUT_1D_SIZE"@ || key == "LUT_3D_SIZE"@ {
        let word = if rest.len() > 0 {
            rest[0]
        } else {
            Seq::empty()
        };
        size_says(word, key == "LUT_3D_SIZE"@)
    } else if key == "DOMAIN_MIN"@ || key == "DOMAIN_MAX"@ {
        let v = values(rest);
        if v.len() != 3 {
            Line::BadDomain
        } else if key == "DOMAIN_MIN"@ {
            Line::DomainMin([v[0], v[1], v[2]])
        } else {
            Line::DomainMax([v[0], v[1], v[2]])
        }
    } else if starts_number(key[0]) {
        let v = values(all);
        if v.len() != 3 {
            Line::BadRow(line)
        } else {
            Line::Row([v[0], v[1], v[2]])
        }
    } else {
        Line::Silent
    }
}

/// The title that holds after some lines: the last one given.
pub open spec fn title_in(lines: Seq<Seq<char>>) -> Option<Seq<char>>
    decreases lines.len(),
{
    if lines.len() == 0 {
        None
    } else {
        match says(lines.last()) {
            Line::Title(t) => Some(t),
            _ => title_in(lines.drop_last()),
        }
    }
}

/// The size of a curve that holds after some lines.
pub open spec fn curve_in(lines: Seq<Seq<char>>) -> Option<nat>
    decreases lines.len(),
{
    if lines.len() == 0 {
        None
    } else {
        match says(lines.last()) {
            Line::Curve(n) => Some(n),
            _ => curve_in(lines.drop_last()),
        }
    }
}

/// The edge of a cube that holds after some lines.
pub open spec fn cube_in(lines: Seq<Seq<char>>) -> Option<nat>
    decreases lines.len(),
{
    if lines.len() == 0 {
        None
    } else {
        match says(lines.last()) {
            Line::Cube(n) => Some(n),
            _ => cube_in(lines.drop_last()),
        }
    }
}

/// The lower end of the domain that holds after some lines, 0 where none is given.
pub open spec fn domain_min_in(lines: Seq<Seq<char>>) -> [Single; 3]
    decreases lines.len(),
{
    if lines.len() == 0 {
        [Single::zero(), Single::zero(), Single::zero()]
    } else {
        match says(lines.last()) {
            Line::DomainMin(d) => d,
            _ => domain_min_in(lines.drop_last()),
        }
    }
}

/// The upper end of the domain that holds after some lines, 1 where none is given.
pub open spec fn domain_max_in(lines: Seq<Seq<char>>) -> [Single; 3]
    decreases lines.len(),
{
    if lines.len() == 0 {
        [Single::one(), Single::one(), Single::one()]
    } else {
        match says(lines.last()) {
            Line::DomainMax(d) => d,
            _ => domain_max_in(lines.drop_last()),
        }
    }
}

/// The data rows of some lines, in order.
pub open spec fn rows_in(lines: Seq<Seq<char>>) -> Seq<[Single; 3]>
    decreases lines.len(),
{
    if lines.len() == 0 {
        Seq::empty()
    } else {
        let before = rows_in(lines.drop_last());
        match says(lines.last()) {
            Line::Row(r) => before.push(r),
            _ => before,
        }
    }
}

/// What is wrong with the `i`-th line, counted from 0.
pub open spec fn fault_at(lines: Seq<Seq<char>>, i: int) -> Option<Fault> {
    match says(lines[i]) {
        Line::BadSize(found) => Some(Fault::InvalidSize(found)),
        Line::BadDomain => Some(Fault::InvalidDomain((i + 1) as nat)),
        Line::BadRow(text) => Some(Fault::InvalidData((i + 1) as nat, text)),
        _ => None,
    }
}

pub open spec fn all_sound(lines: Seq<Seq<char>>) -> bool {
    forall|i: int| 0 <= i < lines.len() ==> (#[trigger] fault_at(lines, i)) is None
}

/// What is wrong with a file whose lines are sound one by one.
pub open spec fn fault_overall(lines: Seq<Seq<char>>) -> Option<Fault> {
    let found = rows_in(lines).len();
    match (curve_in(lines), cube_in(lines)) {
        (Some(_), Some(_)) => Some(Fault::ConflictingSize),
        (None, None) => Some(Fault::MissingSize),
        (Some(n), None) => if found != n {
            Some(Fault::SizeMismatch(n, found))
        } else {
            None
        },
        (None, Some(n)) => if found != n * n * n {
            Some(Fault::SizeMismatch(n * n * n, found))
        } else {
            None
        },
    }
}

/// The first thing wrong with a file: the first line at fault or, with none,
/// what is wrong with the file as a whole.
pub open spec fn is_first_fault(lines: Seq<Seq<char>>, fault: Fault) -> bool {
    ||| exists|i: int|
        0 <= i < lines.len() && all_sound(lines.take(i)) && #[trigger] fault_at(lines, i) == Some(
            fault,
        )
    ||| all_sound(lines) && fault_overall(lines) == Some(fault)
}

/// The table that the lines of a sound file describe.
pub open spec fn table_in(lines: Seq<Seq<char>>) -> crate::color::lut::Table {
    crate::color::lut::Table {
        path: Seq::empty(),
        title: title_in(lines),
        domain_min: domain_min_in(lines),
        domain_max: domain_max_in(lines),
        cube: cube_in(lines) is Some,
        size: match cube_in(lines) {
            Some(n) => n,
            None => curve_in(lines)->Some_0,
        },
        data: rows_in(lines),
    }
}

/// A line as it was read.
enum Said {
    Silent,
    Title(String),
    Curve(usize),
    Cube(usize),
    DomainMin([Single; 3]),
    DomainMax([Single; 3]),
    Row([Single; 3]),
    BadSize(String),
    BadDomain,
    BadRow(String),
}

impl View for Said {
    type V = Line;

    closed spec fn view(&self) -> Line {
        match self {
            Said::Silent => Line::Silent,
            Said::Title(t) => Line::Title(t@),
            Said::Curve(n) => Line::Curve(*n as nat),
            Said::Cube(n) => Line::Cube(*n as nat),
            Said::DomainMin(d) => Line::DomainMin(*d),
            Said::DomainMax(d) => Line::DomainMax(*d),
            Said::Row(r) => Line::Row(*r),
            Said::BadSize(found) => Line::BadSize(found@),
            Said::BadDomain => Line::BadDomain,
            Said::BadRow(text) => Line::BadRow(text@),
        }
    }
}

/// The values among the words of `from..to`.
fn read_values(v: &Vec<char>, from: usize, to: usize) -> (r: Vec<Single>)
    requires
        from <= to <= v.len(),
    ensures
        r@ == values(text::words(v@.subrange(from as int, to as int))),
{
    let mut r: Vec<Single> = Vec::new();
    let ghost whole = values(text::words(v@.subrange(from as int, to as int)));
    let mut pos: usize = from;
    while pos < to
        invariant
            from <= pos <= to <= v.len(),
            whole == r@ + values(text::words(v@.subrange(pos as int, to as int))),
        decreases to - pos,
    {
        let (a, b) = text::next_word(v, pos, to);
        let ghost rest = text::words(v@.subrange(b as int, to as int));
        proof {
            if a < b {
                let word = v@.subrange(a as int, b as int);
                let all = seq![word] + rest;
                assert(all.drop_first() =~= rest);
                assert(all[0] == word);
            } else {
                assert(text::words(v@.subrange(pos as int, to as int)) == Seq::<Seq<char>>::empty());
                assert(v@.subrange(b as int, to as int) =~= Seq::empty());
            }
        }
        if a < b {
            let word = text::chars_in(v, a, b);
            let ghost before = r@;
            match decimal::parse_single(&word) {
                Some(value) => {
                    r.push(value);
                    proof {
                        assert(before + (seq![value] + values(rest)) =~= r@ + values(rest));
                    }
                },
                None => {},
            }
        }
        pos = b;
    }
    proof {
        assert(v@.subrange(pos as int, to as int) =~= Seq::empty());
        assert(r@ + Seq::empty() =~= r@);
    }
    r
}

/// [`count`] of the characters `from..to`.
fn read_count(v: &Vec<char>, from: usize, to: usize) -> (r: Option<usize>)
    requires
        from <= to <= v.len(),
    ensures
        match (count(v@.subrange(from as int, to as int)), r) {
            (Some(n), Some(m)) => n == m,
            (None, None) => true,
            _ => false,
        },
{
    let word = text::chars_in(v, from, to);
    let n = word.len();
    let start: usize = if n > 0 && word[0] == '+' {
        1
    } else {
        0
    };
    proof {
        assert(word@.skip(0) =~= word@);
        assert(word@.skip(start as int) =~= word@.subrange(start as int, n as int));
    }
    if start == n || decimal::digits_end(&word, start) != n {
        return None;
    }
    let value = decimal::capped_number(&word, start, n);
    if value > usize::MAX as i128 {
        None
    } else {
        Some(value as usize)
    }
}

/// Three values as a triplet.
fn triplet(v: &Vec<Single>) -> (r: Option<[Single; 3]>)
    ensures
        v.len() != 3 ==> r is None,
        v.len() == 3 ==> r == Some([v@[0], v@[1], v@[2]]),
{
    if v.len() != 3 {
        None
    } else {
        Some([v[0], v[1], v[2]])
    }
}

/// What a size line says, the words after the keyword being in `from..to`.
fn read_size(v: &Vec<char>, from: usize, to: usize, cube: bool) -> (r: Said)
    requires
        from <= to <= v.len(),
    ensures
        ({
            let rest = text::words(v@.subrange(from as int, to as int));
            r@ == size_says(
                if rest.len() > 0 {
                    rest[0]
                } else {
                    Seq::empty()
                },
                cube,
            )
        }),
{
    let (a, b) = text::next_word(v, from, to);
    proof {
        if a == b {
            assert(v@.subrange(a as int, b as int) =~= Seq::empty());
        }
    }
    match read_count(v, a, b) {
        None => Said::BadSize(text::text_of(v, a, b)),
        Some(n) => if n < 2 || n > 256 {
            let mut s = String::new();
            text::push_decimal(&mut s, n as u64);
            proof {
                assert(Seq::<char>::empty() + text::decimal(n as nat) =~= text::decimal(n as nat));
            }
            Said::BadSize(s)
        } else if cube {
            Said::Cube(n)
        } else {
            Said::Curve(n)
        },
    }
}

/// What the line in `from..to` says.
fn read_line(v: &Vec<char>, from: usize, to: usize) -> (r: Said)
    requires
        from <= to <= v.len(),
    ensures
        r@ == says(v@.subrange(from as int, to as int)),
{
    let start = text::skip_leading(v, from, to, '\u{feff}');
    let (a, b) = text::trim_range(v, start, to);
    let ghost line = v@.subrange(a as int, b as int);
    if a == b || v[a] == '#' {
        return Said::Silent;
    }
    let (ka, kb) = text::next_word(v, a, b);
    let ghost rest = text::words(v@.subrange(kb as int, b as int));
    proof {
        text::lemma_trimmed_first(v@.subrange(start as int, to as int));
        text::lemma_words_first(line);
        assert(ka < kb);
        let all = seq![v@.subrange(ka as int, kb as int)] + rest;
        assert(all.drop_first() =~= rest);
        assert(all[0] == v@.subrange(ka as int, kb as int));
    }
    if text::spells(v, ka, kb, "TITLE") {
        proof {
            reveal_strlit("TITLE");
            assert(kb - ka == 5);
            assert(line.skip(5) =~= v@.subrange(a + 5, b as int));
        }
        let (ta, tb) = text::trim_range(v, a + 5, b);
        let (qa, qb) = text::unquote_range(v, ta, tb);
        return Said::Title(text::text_of(v, qa, qb));
    }
    let curve = text::spells(v, ka, kb, "LUT_1D_SIZE");
    let cube = text::spells(v, ka, kb, "LUT_3D_SIZE");
    if curve || cube {
        return read_size(v, kb, b, cube);
    }
    let low = text::spells(v, ka, kb, "DOMAIN_MIN");
    let high = text::spells(v, ka, kb, "DOMAIN_MAX");
    if low || high {
        let found = read_values(v, kb, b);
        return match triplet(&found) {
            None => Said::BadDomain,
            Some(d) => if low {
                Said::DomainMin(d)
            } else {
                Said::DomainMax(d)
            },
        };
    }
    let c = v[ka];
    if ('0' <= c && c <= '9') || c == '-' || c == '+' || c == '.' {
        let found = read_values(v, a, b);
        match triplet(&found) {
            None => Said::BadRow(text::text_of(v, a, b)),
            Some(row) => Said::Row(row),
        }
    } else {
        Said::Silent
    }
}

/// What has been read so far.
struct Reading {
    title: Option<String>,
    curve: Option<usize>,
    cube: Option<usize>,
    domain_min: [Single; 3],
    domain_max: [Single; 3],
    rows: Vec<[Single; 3]>,
}

impl Reading {
    /// This is what the given lines say, and none of them is at fault.
    closed spec fn holds(&self, lines: Seq<Seq<char>>) -> bool {
        &&& all_sound(lines)
        &&& title_in(lines) == match self.title {
            Some(t) => Some(t@),
            None => None,
        }
        &&& curve_in(lines) == match self.curve {
            Some(n) => Some(n as nat),
            None => None,
        }
        &&& cube_in(lines) == match self.cube {
            Some(n) => Some(n as nat),
            None => None,
        }
        &&& self.curve matches Some(n) ==> 2 <= n <= 256
        &&& self.cube matches Some(n) ==> 2 <= n <= 256
        &&& domain_min_in(lines) == self.domain_min
        &&& domain_max_in(lines) == self.domain_max
        &&& rows_in(lines) == self.rows@
    }

    /// Takes in one more line, after `index` others.
    fn take_line(&mut self, said: Said, index: usize, Ghost(lines): Ghost<Seq<Seq<char>>>, Ghost(
        raw,
    ): Ghost<Seq<char>>) -> (r: Result<(), LutParseError>)
        requires
            old(self).holds(lines),
            said@ == says(raw),
            index == lines.len(),
            raw.len() > 0 ==> index < usize::MAX,
        ensures
            match r {
                Ok(_) => final(self).holds(lines.push(raw)),
                Err(e) => fault_at(lines.push(raw), lines.len() as int) == Some(e@),
            },
    {
        let ghost all = lines.push(raw);
        proof {
            assert(all.drop_last() =~= lines);
            assert(all.last() == raw);
            assert forall|i: int| 0 <= i < lines.len() implies (#[trigger] fault_at(all, i)) is None by {
                assert(fault_at(lines, i) is None);
                assert(all[i] == lines[i]);
            }
            if raw.len() == 0 {
                assert(cleaned(raw) =~= raw);
                assert(says(raw) is Silent);
            }
        }
        match said {
            Said::Silent => {},
            Said::Title(t) => {
                self.title = Some(t);
            },
            Said::Curve(n) => {
                self.curve = Some(n);
            },
            Said::Cube(n) => {
                self.cube = Some(n);
            },
            Said::DomainMin(d) => {
                self.domain_min = d;
            },
            Said::DomainMax(d) => {
                self.domain_max = d;
            },
            Said::Row(row) => {
                self.rows.push(row);
            },
            Said::BadSize(found) => {
                return Err(LutParseError::InvalidSize { found });
            },
            Said::BadDomain => {
                return Err(LutParseError::InvalidDomain { line: index + 1 });
            },
            Said::BadRow(text) => {
                return Err(LutParseError::InvalidData { line: index + 1, text });
            },
        }
        Ok(())
    }

    /// The table that all lines describe together.
    fn finish(self, Ghost(lines): Ghost<Seq<Seq<char>>>) -> (r: Result<Lut, LutParseError>)
        requires
            self.holds(lines),
        ensures
            match r {
                Ok(lut) => fault_overall(lines) is None && lut@ == table_in(lines),
                Err(e) => fault_overall(lines) == Some(e@),
            },
    {
        let found = self.rows.len();
        let data = match (self.curve, self.cube) {
            (Some(_), Some(_)) => {
                return Err(LutParseError::ConflictingSize);
            },
            (None, None) => {
                return Err(LutParseError::MissingSize);
            },
            (Some(n), None) => {
                if found != n {
                    return Err(LutParseError::SizeMismatch { expected: n, found });
                }
                LutData::Lut1D { size: n, data: self.rows }
            },
            (None, Some(n)) => {
                proof {
                    assert(n * n <= 256 * 256) by (nonlinear_arith)
                        requires
                            n <= 256,
                    ;
                    assert(n * n * n <= 256 * 256 * 256) by (nonlinear_arith)
                        requires
                            n <= 256,
                            n * n <= 256 * 256,
                    ;
                }
                let expected: usize = n * n * n;
                if found != expected {
                    return Err(LutParseError::SizeMismatch { expected, found });
                }
                LutData::Lut3D { size: n, data: self.rows }
            },
        };
        Ok(
            Lut {
                path: String::new(),
                title: self.title,
                domain_min: self.domain_min,
                domain_max: self.domain_max,
                data,
            },
        )
    }
}

/// Parses `.cube` content already in memory.
///
/// The first line at fault decides the error; without one, the file as a whole
/// may still be at fault. Of a repeated keyword the last line counts.
pub fn parse_cube_str(text: &str) -> (r: Result<Lut, LutParseError>)
    ensures
        match r {
            Ok(lut) => {
                let lines = text::lines(text@);
                &&& all_sound(lines)
                &&& fault_overall(lines) is None
                &&& lut@ == table_in(lines)
                &&& lut@.complete()
                &&& 2 <= lut@.size <= 256
            },
            Err(e) => is_first_fault(text::lines(text@), e@),
        },
{
    let v = text::chars_of(text);
    let ghost all = text::lines(v@);
    let zero = Single::zero();
    let one = Single::one();
    let mut reading = Reading {
        title: None,
        curve: None,
        cube: None,
        domain_min: [zero, zero, zero],
        domain_max: [one, one, one],
        rows: Vec::new(),
    };
    let ghost mut done: Seq<Seq<char>> = Seq::empty();
    let mut pos: usize = 0;
    let mut index: usize = 0;
    let mut more = true;
    proof {
        assert(v@.skip(0) =~= v@);
        assert(done + all =~= all);
    }
    while more
        invariant
            v@ == text@,
            all == text::lines(v@),
            reading.holds(done),
            more ==> pos <= v.len(),
            more ==> index <= pos,
            more ==> index == done.len(),
            all == done + if more {
                text::lines(v@.skip(pos as int))
            } else {
                Seq::empty()
            },
        decreases (if more {
            v.len() - pos + 1
        } else {
            0
        }),
    {
        let end = text::line_end(&v, pos);
        let said = read_line(&v, pos, end);
        let ghost raw = v@.subrange(pos as int, end as int);
        let ghost before = done;
        proof {
            done = before.push(raw);
            let rest = if end < v.len() {
                text::lines(v@.skip(end + 1))
            } else {
                Seq::empty()
            };
            assert(before + (seq![raw] + rest) =~= done + rest);
            assert(all.take(before.len() as int) =~= before);
            assert(all[before.len() as int] == raw);
        }
        match reading.take_line(said, index, Ghost(before), Ghost(raw)) {
            Ok(_) => {},
            Err(e) => {
                proof {
                    let i = before.len() as int;
                    assert(done[i] == all[i]);
                    assert(fault_at(all, i) == fault_at(done, i));
                }
                return Err(e);
            },
        }
        if end < v.len() {
            pos = end + 1;
            index = index + 1;
        } else {
            more = false;
        }
    }
    proof {
        assert(done + Seq::empty() =~= done);
    }
    reading.finish(Ghost(done))
}

/// Parses a `.cube` file that was read from `url`, given its text or the reason
/// why it could not be read.
pub fn parse_cube(url: &str, text: Result<String, String>) -> (r: Result<Lut, LutParseError>)
    ensures
        match (text, r) {
            (Err(reason), Err(e)) => e@ == Fault::Io(reason@),
            (Err(_), Ok(_)) => false,
            (Ok(t), Ok(lut)) => {
                let lines = text::lines(t@);
                &&& all_sound(lines)
                &&& fault_overall(lines) is None
                &&& lut@ == (crate::color::lut::Table { path: url@, ..table_in(lines) })
                &&& lut@.complete()
            },
            (Ok(t), Err(e)) => is_first_fault(text::lines(t@), e@),
        },
{
    match text {
        Err(reason) => Err(LutParseError::Io(reason)),
        Ok(t) => match parse_cube_str(t.as_str()) {
            Err(e) => Err(e),
            Ok(lut) => Ok(
                Lut {
                    path: url.to_string(),
                    title: lut.title,
                    domain_min: lut.domain_min,
                    domain_max: lut.domain_max,
                    data: lut.data,
                },
            ),
        },
    }
}

} // verus!
