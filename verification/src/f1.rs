//! The text lines of the Formula 1 screens: one line per driver of a
//! qualifying session or a race, in columns of fixed width.

use vstd::prelude::*;
use vstd::string::{StrSliceExecFns, StringExecFns};

verus! {

/// The ASCII transliteration of a text, character by character, as the
/// `unidecode` crate's table gives it.
pub uninterp spec fn unidecoded(text: Seq<char>) -> Seq<char>;

/// `unidecode::unidecode`: the transliteration of `text`.
#[verifier::external_body]
fn transliterate(text: &str) -> (ascii: String)
    ensures
        ascii@ == unidecoded(text@),
{
    unidecode::unidecode(text)
}

/// The character for the digit `d`, which is below ten.
pub open spec fn digit_char(d: nat) -> char {
    if d == 0 {
        '0'
    } else if d == 1 {
        '1'
    } else if d == 2 {
        '2'
    } else if d == 3 {
        '3'
    } else if d == 4 {
        '4'
    } else if d == 5 {
        '5'
    } else if d == 6 {
        '6'
    } else if d == 7 {
        '7'
    } else if d == 8 {
        '8'
    } else {
        '9'
    }
}

/// The decimal text of `v`, without a leading zero.
pub open spec fn decimal_chars(v: nat) -> Seq<char>
    decreases v,
{
    if v < 10 {
        seq![digit_char(v)]
    } else {
        decimal_chars(v / 10).push(digit_char(v % 10))
    }
}

/// `n` spaces.
pub open spec fn spaces(n: nat) -> Seq<char> {
    Seq::new(n, |i: int| ' ')
}

/// `text` at the left of a column of `width` characters: filled up with
/// spaces, and left as it is where it is longer.
pub open spec fn left_aligned(text: Seq<char>, width: nat) -> Seq<char> {
    if text.len() >= width {
        text
    } else {
        text + spaces((width - text.len()) as nat)
    }
}

/// `text` at the right of a column of `width` characters: after as many
/// spaces as fill it up, and left as it is where it is longer.
pub open spec fn right_aligned(text: Seq<char>, width: nat) -> Seq<char> {
    if text.len() >= width {
        text
    } else {
        spaces((width - text.len()) as nat) + text
    }
}

/// The one-character text of the digit `d`.
fn digit_str(d: u32) -> (text: &'static str)
    requires
        d < 10,
    ensures
        text@ == seq![digit_char(d as nat)],
{
    proof {
        reveal_strlit("0");
        reveal_strlit("1");
        reveal_strlit("2");
        reveal_strlit("3");
        reveal_strlit("4");
        reveal_strlit("5");
        reveal_strlit("6");
        reveal_strlit("7");
        reveal_strlit("8");
        reveal_strlit("9");
    }
    let text = if d == 0 {
        "0"
    } else if d == 1 {
        "1"
    } else if d == 2 {
        "2"
    } else if d == 3 {
        "3"
    } else if d == 4 {
        "4"
    } else if d == 5 {
        "5"
    } else if d == 6 {
        "6"
    } else if d == 7 {
        "7"
    } else if d == 8 {
        "8"
    } else {
        "9"
    };
    assert(text@ =~= seq![digit_char(d as nat)]);
    text
}

/// Appends the decimal text of `v` to `out`.
fn push_decimal(out: &mut String, v: u32)
    ensures
        final(out)@ == old(out)@ + decimal_chars(v as nat),
    decreases v,
{
    if v >= 10 {
        push_decimal(out, v / 10);
    }
    out.append(digit_str(v % 10));
    assert(out@ =~= old(out)@ + decimal_chars(v as nat));
}

/// Appends `n` spaces to `out`.
fn push_spaces(out: &mut String, n: usize)
    ensures
        final(out)@ == old(out)@ + spaces(n as nat),
{
    let mut i: usize = 0;
    proof {
        assert(out@ =~= old(out)@ + spaces(0));
    }
    while i < n
        invariant
            i <= n,
            out@ == old(out)@ + spaces(i as nat),
        decreases n - i,
    {
        proof {
            reveal_strlit(" ");
        }
        out.append(" ");
        i = i + 1;
        assert(out@ =~= old(out)@ + spaces(i as nat));
    }
}

/// Appends `text` to `out` at the left of a column of `width` characters.
fn push_left_aligned(out: &mut String, text: &str, width: usize)
    ensures
        final(out)@ == old(out)@ + left_aligned(text@, width as nat),
{
    let len = text.unicode_len();
    out.append(text);
    if len < width {
        push_spaces(out, width - len);
    }
    assert(out@ =~= old(out)@ + left_aligned(text@, width as nat));
}

/// Appends `text` to `out` at the right of a column of `width` characters.
fn push_right_aligned(out: &mut String, text: &str, width: usize)
    ensures
        final(out)@ == old(out)@ + right_aligned(text@, width as nat),
{
    let len = text.unicode_len();
    if len < width {
        push_spaces(out, width - len);
    }
    out.append(text);
    assert(out@ =~= old(out)@ + right_aligned(text@, width as nat));
}

/// A driver, by name.
pub struct Driver {
    pub given_name: String,
    pub family_name: String,
}

/// A constructor, by name.
pub struct Constructor {
    pub name: String,
}

/// One driver's result of a qualifying session: the place taken and the
/// best time of each part that the driver took part in.
pub struct QualifyingResult {
    pub position: u32,
    pub driver: Driver,
    pub constructor: Constructor,
    pub q1: Option<String>,
    pub q2: Option<String>,
    pub q3: Option<String>,
}

/// One driver's result of a race. `grid` is the starting place, zero for a
/// start from the pit lane; `points` is the text of the points scored.
pub struct RaceResult {
    pub position: u32,
    pub grid: u32,
    pub driver: Driver,
    pub constructor: Constructor,
    pub status: String,
    pub points: String,
}

/// The starting place that stands for a start from the pit lane.
pub const PIT_LANE_START: u32 = 20;

/// A driver's name as the screen shows it: given name and family name in
/// ASCII, with a space between.
pub open spec fn driver_name(driver: Driver) -> Seq<char> {
    unidecoded(driver.given_name@) + " "@ + unidecoded(driver.family_name@)
}

/// The time of the last part of qualifying that the driver took part in,
/// `N/A` where there is none.
pub open spec fn best_time(result: QualifyingResult) -> Seq<char> {
    match result.q3 {
        Some(time) => time@,
        None => match result.q2 {
            Some(time) => time@,
            None => match result.q1 {
                Some(time) => time@,
                None => "N/A"@,
            },
        },
    }
}

/// The line of one qualifying result: place, driver, best time and
/// constructor.
pub open spec fn qualifying_line(result: QualifyingResult) -> Seq<char> {
    right_aligned(decimal_chars(result.position as nat), 2) + ". "@ + left_aligned(
        driver_name(result.driver),
        16,
    ) + " "@ + left_aligned(best_time(result), 8) + "  "@ + result.constructor.name@ + "\n"@
}

/// How many characters of `name` come before its first space: all of them
/// where it has none.
pub open spec fn first_word_len(name: Seq<char>) -> nat
    decreases name.len(),
{
    if name.len() == 0 || name[0] == ' ' {
        0
    } else {
        1 + first_word_len(name.drop_first())
    }
}

/// `name` up to its first space.
pub open spec fn first_word(name: Seq<char>) -> Seq<char> {
    name.take(first_word_len(name) as int)
}

/// Whether `text` holds `part` somewhere in it.
pub open spec fn holds(text: Seq<char>, part: Seq<char>) -> bool {
    exists|i: int| 0 <= i <= text.len() - part.len() && #[trigger] text.subrange(i, i + part.len()) == part
}

/// Whether a race status is that of a driver who was classified: the one
/// who finished, or one who was lapped.
pub open spec fn finished(status: Seq<char>) -> bool {
    status == "Finished"@ || holds(status, "Lap"@)
}

/// The place a driver started from, the pit lane counting as the last.
pub open spec fn started(result: RaceResult) -> nat {
    if result.grid == 0 {
        PIT_LANE_START as nat
    } else {
        result.grid as nat
    }
}

/// The places lost (`-`) or won (`+`) between start and finish, a space
/// where there are none.
pub open spec fn direction(from: nat, to: nat) -> Seq<char> {
    if from < to {
        "-"@ + decimal_chars((to - from) as nat)
    } else if from == to {
        " "@
    } else {
        "+"@ + decimal_chars((from - to) as nat)
    }
}

/// The points column of a race result: the points, or `DNF` for a driver
/// who was not classified.
pub open spec fn points_text(result: RaceResult) -> Seq<char> {
    if finished(result.status@) {
        left_aligned(result.points@, 3)
    } else {
        "DNF"@
    }
}

/// The line of one race result: place, driver, constructor, starting place
/// with the places won or lost, and points.
pub open spec fn race_line(result: RaceResult) -> Seq<char> {
    right_aligned(decimal_chars(result.position as nat), 2) + ". "@ + left_aligned(
        driver_name(result.driver),
        18,
    ) + " "@ + left_aligned(first_word(result.constructor.name@), 10) + " "@ + right_aligned(
        decimal_chars(started(result)),
        2,
    ) + "("@ + left_aligned(direction(started(result), result.position as nat), 3) + ") "@
        + points_text(result) + "\n"@
}

/// The driver's name in ASCII: given name, a space, family name.
pub fn format_driver_name(driver: &Driver) -> (name: String)
    ensures
        name@ == driver_name(*driver),
{
    let mut name = transliterate(driver.given_name.as_str());
    let last_name = transliterate(driver.family_name.as_str());
    name.append(" ");
    name.append(last_name.as_str());
    name
}

/// The line of one qualifying result.
pub fn format_qualifying_position(position: &QualifyingResult) -> (line: String)
    ensures
        line@ == qualifying_line(*position),
{
    let driver_name = format_driver_name(&position.driver);
    let time = match &position.q3 {
        Some(time) => time.as_str(),
        None => match &position.q2 {
            Some(time) => time.as_str(),
            None => match &position.q1 {
                Some(time) => time.as_str(),
                None => "N/A",
            },
        },
    };
    let mut place = String::new();
    push_decimal(&mut place, position.position);
    let mut line = String::new();
    push_right_aligned(&mut line, place.as_str(), 2);
    line.append(". ");
    push_left_aligned(&mut line, driver_name.as_str(), 16);
    line.append(" ");
    push_left_aligned(&mut line, time, 8);
    line.append("  ");
    line.append(position.constructor.name.as_str());
    line.append("\n");
    assert(place@ =~= decimal_chars(position.position as nat));
    assert(line@ =~= qualifying_line(*position));
    line
}

/// Where the first `i` characters of `name` are no spaces and the next is
/// one, or `name` ends there, its first word has `i` characters.
proof fn lemma_first_word_len(name: Seq<char>, i: int)
    requires
        0 <= i <= name.len(),
        forall|j: int| 0 <= j < i ==> name[j] != ' ',
        i == name.len() || name[i] == ' ',
    ensures
        first_word_len(name) == i,
    decreases i,
{
    if i > 0 {
        let rest = name.drop_first();
        assert forall|j: int| 0 <= j < i - 1 implies rest[j] != ' ' by {
            assert(rest[j] == name[j + 1]);
        }
        lemma_first_word_len(rest, i - 1);
    }
}

/// The constructor's name up to its first space.
pub fn format_constructor_name(constructor: &Constructor) -> (name: String)
    ensures
        name@ == first_word(constructor.name@),
{
    let full = constructor.name.as_str();
    let len = full.unicode_len();
    let mut i: usize = 0;
    while i < len && full.get_char(i) != ' '
        invariant
            i <= len,
            len == full@.len(),
            forall|j: int| 0 <= j < i ==> full@[j] != ' ',
        decreases len - i,
    {
        i = i + 1;
    }
    proof {
        lemma_first_word_len(full@, i as int);
    }
    String::from_str(full.substring_char(0, i))
}

/// Whether `part` stands in `text` at the character `at`.
fn holds_at(text: &str, at: usize, part: &str) -> (found: bool)
    ensures
        found == (at + part@.len() <= text@.len() && text@.subrange(
            at as int,
            at + part@.len(),
        ) == part@),
{
    let n = text.unicode_len();
    let m = part.unicode_len();
    if at > n || m > n - at {
        return false;
    }
    let mut k: usize = 0;
    while k < m
        invariant
            k <= m,
            n == text@.len(),
            m == part@.len(),
            at + m <= n,
            forall|j: int| 0 <= j < k ==> text@[at + j] == part@[j],
        decreases m - k,
    {
        if text.get_char(at + k) != part.get_char(k) {
            assert(text@.subrange(at as int, at + m)[k as int] != part@[k as int]);
            return false;
        }
        k = k + 1;
    }
    assert(text@.subrange(at as int, at + m) =~= part@);
    true
}

/// Whether `text` holds `part` somewhere in it.
fn contains(text: &str, part: &str) -> (found: bool)
    ensures
        found == holds(text@, part@),
{
    let n = text.unicode_len();
    let m = part.unicode_len();
    if m > n {
        return false;
    }
    let last = n - m;
    let mut i: usize = 0;
    while i < last
        invariant
            i <= last,
            last == n - m,
            n == text@.len(),
            m == part@.len(),
            forall|j: int| 0 <= j < i ==> #[trigger] text@.subrange(j, j + part@.len()) != part@,
        decreases last - i,
    {
        if holds_at(text, i, part) {
            return true;
        }
        i = i + 1;
    }
    holds_at(text, last, part)
}

/// Whether `status` is that of a driver who was classified.
pub fn status_finished_race(status: &str) -> (classified: bool)
    ensures
        classified == finished(status@),
{
    let whole = "Finished";
    let same = status.unicode_len() == whole.unicode_len() && holds_at(status, 0, whole);
    proof {
        if status@.len() == whole@.len() {
            assert(status@.subrange(0, whole@.len() as int) =~= status@);
        }
    }
    same || contains(status, "Lap")
}

/// The line of one race result.
pub fn format_race_position(position: &RaceResult) -> (line: String)
    ensures
        line@ == race_line(*position),
{
    let driver_name = format_driver_name(&position.driver);
    // pit lane start
    let started = if position.grid == 0 {
        PIT_LANE_START
    } else {
        position.grid
    };
    let ended = position.position;
    let mut direction = String::new();
    if started < ended {
        direction.append("-");
        push_decimal(&mut direction, ended - started);
    } else if started == ended {
        direction.append(" ");
    } else {
        direction.append("+");
        push_decimal(&mut direction, started - ended);
    }
    assert(direction@ =~= self::direction(started as nat, ended as nat));
    let mut points = String::new();
    if status_finished_race(position.status.as_str()) {
        push_left_aligned(&mut points, position.points.as_str(), 3);
    } else {
        points.append("DNF");
    }
    assert(points@ =~= points_text(*position));
    let constructor = format_constructor_name(&position.constructor);
    let mut place = String::new();
    push_decimal(&mut place, ended);
    assert(place@ =~= decimal_chars(ended as nat));
    let mut grid = String::new();
    push_decimal(&mut grid, started);
    assert(grid@ =~= decimal_chars(started as nat));

    let mut line = String::new();
    push_right_aligned(&mut line, place.as_str(), 2);
    line.append(". ");
    push_left_aligned(&mut line, driver_name.as_str(), 18);
    line.append(" ");
    push_left_aligned(&mut line, constructor.as_str(), 10);
    line.append(" ");
    push_right_aligned(&mut line, grid.as_str(), 2);
    line.append("(");
    push_left_aligned(&mut line, direction.as_str(), 3);
    line.append(") ");
    line.append(points.as_str());
    line.append("\n");
    assert(line@ =~= race_line(*position));
    line
}

/// How many results of a qualifying session are shown in big type.
pub const BIG_POSITIONS: usize = 3;

/// The width of the blank line that ends a centred text, so that the lines
/// above it are centred on the screen and not on each other.
pub const BLANK_LINE_WIDTH: usize = 103;

/// The lines of `results`, one after the other.
pub open spec fn qualifying_lines(results: Seq<QualifyingResult>) -> Seq<char>
    decreases results.len(),
{
    if results.len() == 0 {
        Seq::empty()
    } else {
        qualifying_lines(results.drop_last()) + qualifying_line(results.last())
    }
}

/// The lines of `results`, one after the other.
pub open spec fn race_lines(results: Seq<RaceResult>) -> Seq<char>
    decreases results.len(),
{
    if results.len() == 0 {
        Seq::empty()
    } else {
        race_lines(results.drop_last()) + race_line(results.last())
    }
}

/// How many of `n` results are shown in big type: the first three.
pub open spec fn big_count(n: nat) -> nat {
    if n < BIG_POSITIONS {
        n
    } else {
        BIG_POSITIONS as nat
    }
}

/// The lines of the results from `from` up to `to`.
fn format_qualifying_positions(results: &[QualifyingResult], from: usize, to: usize) -> (text:
    String)
    requires
        from <= to <= results@.len(),
    ensures
        text@ == qualifying_lines(results@.subrange(from as int, to as int)),
{
    let mut positions = String::new();
    let mut i: usize = from;
    proof {
        assert(results@.subrange(from as int, from as int) =~= Seq::empty());
    }
    while i < to
        invariant
            from <= i <= to <= results@.len(),
            positions@ == qualifying_lines(results@.subrange(from as int, i as int)),
        decreases to - i,
    {
        let line = format_qualifying_position(&results[i]);
        positions.append(line.as_str());
        proof {
            let upto = results@.subrange(from as int, i + 1);
            assert(upto.drop_last() =~= results@.subrange(from as int, i as int));
            assert(upto.last() == results@[i as int]);
        }
        i = i + 1;
    }
    positions
}

/// The text in big type of a qualifying screen: the lines of the first
/// three results.
pub fn qualifying_big_text(results: &[QualifyingResult]) -> (text: String)
    ensures
        text@ == qualifying_lines(results@.take(big_count(results@.len()) as int)),
{
    let shown = if results.len() < BIG_POSITIONS {
        results.len()
    } else {
        BIG_POSITIONS
    };
    format_qualifying_positions(results, 0, shown)
}

/// The text in medium type of a qualifying screen: the lines of the results
/// after the first three.
pub fn qualifying_medium_text(results: &[QualifyingResult]) -> (text: String)
    ensures
        text@ == qualifying_lines(results@.skip(big_count(results@.len()) as int)),
{
    let shown = if results.len() < BIG_POSITIONS {
        results.len()
    } else {
        BIG_POSITIONS
    };
    format_qualifying_positions(results, shown, results.len())
}

/// The text in medium type of a race screen: the lines of all results.
pub fn race_results_text(results: &[RaceResult]) -> (text: String)
    ensures
        text@ == race_lines(results@),
{
    let mut positions = String::new();
    let mut i: usize = 0;
    proof {
        assert(results@.take(0) =~= Seq::empty());
    }
    while i < results.len()
        invariant
            i <= results@.len(),
            positions@ == race_lines(results@.take(i as int)),
        decreases results@.len() - i,
    {
        let line = format_race_position(&results[i]);
        positions.append(line.as_str());
        proof {
            let upto = results@.take(i + 1);
            assert(upto.drop_last() =~= results@.take(i as int));
            assert(upto.last() == results@[i as int]);
        }
        i = i + 1;
    }
    proof {
        assert(results@.take(i as int) =~= results@);
    }
    positions
}

/// The heading of the race screen: the race's name in a column of twenty
/// characters, and what the screen shows.
pub fn race_results_heading(race_name: &str) -> (text: String)
    ensures
        text@ == " "@ + left_aligned(race_name@, 20) + " Race Results"@,
{
    let mut text = String::new();
    text.append(" ");
    push_left_aligned(&mut text, race_name, 20);
    text.append(" Race Results");
    assert(text@ =~= " "@ + left_aligned(race_name@, 20) + " Race Results"@);
    text
}

/// The first text of the next-race screen: what it shows, the race's name,
/// and a blank line.
pub fn next_race_heading(race_name: &str) -> (text: String)
    ensures
        text@ == "Next race:\n"@ + race_name@ + "\n"@ + spaces(BLANK_LINE_WIDTH as nat),
{
    let mut text = String::new();
    text.append("Next race:\n");
    text.append(race_name);
    text.append("\n");
    push_spaces(&mut text, BLANK_LINE_WIDTH);
    assert(text@ =~= "Next race:\n"@ + race_name@ + "\n"@ + spaces(BLANK_LINE_WIDTH as nat));
    text
}

/// The second text of the next-race screen: the circuit, the place it lies
/// in, and a blank line.
pub fn next_race_venue(circuit_name: &str, locality: &str) -> (text: String)
    ensures
        text@ == circuit_name@ + "\n"@ + locality@ + "\n"@ + spaces(BLANK_LINE_WIDTH as nat),
{
    let mut text = String::new();
    text.append(circuit_name);
    text.append("\n");
    text.append(locality);
    text.append("\n");
    push_spaces(&mut text, BLANK_LINE_WIDTH);
    assert(text@ =~= circuit_name@ + "\n"@ + locality@ + "\n"@ + spaces(BLANK_LINE_WIDTH as nat));
    text
}

/// How many start lights the next-race screen shows.
pub const START_LIGHTS: i32 = 5;

/// The distance from one start light to the next.
pub const START_LIGHT_GAP: i32 = 60;

/// One start light of the next-race screen: a circle with a square in it,
/// each by the corner it is drawn from and its size.
#[derive(Clone, Copy, Debug, PartialEq, Eq)]
pub struct StartLight {
    pub circle_x: i32,
    pub circle_y: i32,
    pub circle_diameter: u32,
    pub square_x: i32,
    pub square_y: i32,
    pub square_length: u32,
}

/// Where the start light `i` stands, counted from the left and from zero.
pub open spec fn start_light_at(i: int) -> StartLight {
    StartLight {
        circle_x: (67 + i * START_LIGHT_GAP) as i32,
        circle_y: 48,
        circle_diameter: 48,
        square_x: (74 + i * START_LIGHT_GAP) as i32,
        square_y: 55,
        square_length: 34,
    }
}

/// The start light `i`, counted from the left and from zero.
pub fn start_light(i: i32) -> (light: StartLight)
    requires
        0 <= i < START_LIGHTS,
    ensures
        light == start_light_at(i as int),
{
    StartLight {
        circle_x: 67 + i * START_LIGHT_GAP,
        circle_y: 48,
        circle_diameter: 48,
        square_x: 74 + i * START_LIGHT_GAP,
        square_y: 55,
        square_length: 34,
    }
}

} // verus!
