//! The swarm command language: commands, programs and the compiler from text.
//!
//! A program is written one command per line: `MOVE`, `FIRE`, `NOOP` or
//! `TURN <angle>`. A keyword matches when the upper-case form of the word
//! (as `str::to_uppercase` gives it) spells it. Blank lines are skipped.
//! The angle of `TURN` is a floating-point numeral in degrees: an optional
//! sign, digits with an optional point, and an optional exponent (`e` or
//! `E`). It is judged as single precision reads it: it must be non-zero,
//! must not round below the least normal value (`2^-126 - 2^-150` or more)
//! or to infinity (below `2^128 - 2^103`), and must not round above `30`
//! (at most `30 + 2^-20`). It is stored in thousandths of a degree, rounded
//! to the nearest, halves away from zero, so a small turn may be stored as 0.
use crate::error::GenericError;
use vstd::prelude::*;

verus! {

/// The maximum number of commands that a compiled program may hold.
pub const MAX_NUM_COMMANDS: usize = 20;

/// The largest magnitude of a compiled turn, in thousandths of a degree.
pub const MAX_TURN: i64 = 30_000;

/// A preset arrangement of a swarm's members.
#[derive(Clone, Copy, Debug, PartialEq, Eq, Structural)]
pub enum Formation {
    /// Members take the offsets nearest the centre, in member order.
    GATHER,
    /// Members take the offsets farthest from the centre, in member order.
    SPREAD,
}

/// A single command of the swarm language.
#[derive(Clone, Copy, Debug, PartialEq, Eq, Structural)]
pub enum SwarmCommand {
    /// Move the swarm forward.
    MOVE,
    /// Fire one bullet from each member.
    FIRE,
    /// Rotate the swarm by an angle in thousandths of a degree.
    TURN(i64),
    /// Rearrange the members.
    FORMATION(Formation),
    /// Do nothing.
    NOOP,
}

/// Why a command or a program was rejected.
#[derive(Clone, Copy, Debug, PartialEq, Eq, Structural)]
pub enum CompileError {
    /// The line holds no word at all.
    EmptyCommand,
    /// The first word is not a keyword of the language.
    UnknownCommand,
    /// `TURN` does not have exactly one argument.
    MissingParameter,
    /// The angle of `TURN` exceeds the largest turn.
    ParameterOutOfRange,
    /// The angle of `TURN` is not a non-zero numeral.
    MalformedParameter,
    /// The program holds more than the maximum number of commands.
    TooLong,
}

// ----------------------------------------------------------------------
// Specification of the text format
// ----------------------------------------------------------------------

/// Unicode white space, as `char::is_whitespace` defines it.
pub open spec fn is_whitespace(c: char) -> bool {
    let u = c as u32;
    ||| 0x9 <= u <= 0xd
    ||| u == 0x20
    ||| u == 0x85
    ||| u == 0xa0
    ||| u == 0x1680
    ||| 0x2000 <= u <= 0x200a
    ||| u == 0x2028
    ||| u == 0x2029
    ||| u == 0x202f
    ||| u == 0x205f
    ||| u == 0x3000
}

/// The words of the lines read so far, the words of the current line, and
/// the current word.
pub struct Scan {
    pub lines: Seq<Seq<Seq<char>>>,
    pub words: Seq<Seq<char>>,
    pub word: Seq<char>,
}

/// Appends `word` to `words` unless it is empty.
pub open spec fn close_word(words: Seq<Seq<char>>, word: Seq<char>) -> Seq<Seq<char>> {
    if word.len() == 0 {
        words
    } else {
        words.push(word)
    }
}

/// Reads `s` left to right: a word ends at white space and, where
/// `by_line` holds, a line ends at `'\n'`.
pub open spec fn scan(s: Seq<char>, by_line: bool) -> Scan
    decreases s.len(),
{
    if s.len() == 0 {
        Scan { lines: seq![], words: seq![], word: seq![] }
    } else {
        let st = scan(s.drop_last(), by_line);
        let c = s.last();
        if by_line && c == '\n' {
            Scan { lines: st.lines.push(close_word(st.words, st.word)), words: seq![], word: seq![] }
        } else if is_whitespace(c) {
            Scan { lines: st.lines, words: close_word(st.words, st.word), word: seq![] }
        } else {
            Scan { lines: st.lines, words: st.words, word: st.word.push(c) }
        }
    }
}

/// The words of each line of `s`, in order.
pub open spec fn line_words(s: Seq<char>) -> Seq<Seq<Seq<char>>> {
    let st = scan(s, true);
    st.lines.push(close_word(st.words, st.word))
}

/// The words of `s`, line breaks counting as white space.
pub open spec fn words_of(s: Seq<char>) -> Seq<Seq<char>> {
    let st = scan(s, false);
    close_word(st.words, st.word)
}

/// The upper-case form of `s`, as `str::to_uppercase` gives it.
pub uninterp spec fn upper_of(s: Seq<char>) -> Seq<char>;

pub open spec fn is_digit(c: char) -> bool {
    '0' <= c <= '9'
}

pub open spec fn all_digits(s: Seq<char>) -> bool {
    forall|i: int| 0 <= i < s.len() ==> is_digit(s[i])
}

/// The number that a string of decimal digits denotes.
pub open spec fn digits_value(s: Seq<char>) -> int
    decreases s.len(),
{
    if s.len() == 0 {
        0
    } else {
        10 * digits_value(s.drop_last()) + (s.last() as int - '0' as int)
    }
}

/// `10` to the power `n`, for `n >= 0`.
pub open spec fn pow10(n: int) -> int
    decreases n,
{
    if n <= 0 {
        1
    } else {
        10 * pow10(n - 1)
    }
}

/// The position of the first `a` or `b` in `s` from `i` on, or its length.
pub open spec fn first_of(s: Seq<char>, a: char, b: char, i: int) -> int
    decreases s.len() - i,
{
    if i < 0 || i >= s.len() {
        s.len() as int
    } else if s[i] == a || s[i] == b {
        i
    } else {
        first_of(s, a, b, i + 1)
    }
}

/// The value of an exponent `[sign] digits`.
pub open spec fn exponent_value(x: Seq<char>) -> Option<int> {
    if x.len() > 0 && (x[0] == '-' || x[0] == '+') {
        let d = x.skip(1);
        if d.len() > 0 && all_digits(d) {
            Some(
                if x[0] == '-' {
                    -digits_value(d)
                } else {
                    digits_value(d)
                },
            )
        } else {
            None
        }
    } else if x.len() > 0 && all_digits(x) {
        Some(digits_value(x))
    } else {
        None
    }
}

/// An unsigned decimal numeral `digits ['.' digits] [('e' | 'E') exponent]`
/// with at least one digit before the exponent, as `(m, e)`: its value is
/// `m * 10^e`.
pub open spec fn decimal_parts(b: Seq<char>) -> Option<(int, int)> {
    let k = first_of(b, 'e', 'E', 0);
    let mantissa = b.take(k);
    let exponent = if k >= b.len() {
        Some(0int)
    } else {
        exponent_value(b.skip(k + 1))
    };
    let d = first_of(mantissa, '.', '.', 0);
    let ip = mantissa.take(d);
    let fp = if d < mantissa.len() {
        mantissa.skip(d + 1)
    } else {
        Seq::<char>::empty()
    };
    if exponent is Some && all_digits(ip) && all_digits(fp) && ip.len() + fp.len() > 0 {
        Some((digits_value(ip + fp), exponent->0 - fp.len()))
    } else {
        None
    }
}

/// `2` to the power `n`, for `n >= 0`.
pub open spec fn pow2(n: int) -> int
    decreases n,
{
    if n <= 0 {
        1
    } else {
        2 * pow2(n - 1)
    }
}

/// `m * 10^e < n * 10^q`.
pub open spec fn below(m: int, e: int, n: int, q: int) -> bool {
    let s = if e < q {
        e
    } else {
        q
    };
    m * pow10(e - s) < n * pow10(q - s)
}

/// `5` to the power `n`, for `n >= 0`.
pub open spec fn pow5(n: int) -> int
    decreases n,
{
    if n <= 0 {
        1
    } else {
        5 * pow5(n - 1)
    }
}

/// `2^-126 - 2^-150`, times `10^150`: the least magnitude that rounds to a
/// normal single-precision value.
pub open spec fn least_normal() -> int {
    (pow2(24) - 1) * pow5(150)
}

/// `2^128 - 2^103`: the least magnitude that rounds to single-precision
/// infinity.
pub open spec fn overflow_bound() -> int {
    340282356779733661637539395458142568448
}

/// `30 + 2^-20`, times `10^20`: the greatest magnitude that rounds to at
/// most `30` in single precision.
pub open spec fn turn_bound() -> int {
    3000000095367431640625
}

/// `m * 10^e` in thousandths, rounded to the nearest, halves away from zero.
pub open spec fn rounded_thousandths(m: int, e: int) -> int {
    if e + 3 >= 0 {
        m * pow10(e + 3)
    } else {
        (2 * m + pow10(-(e + 3))) / (2 * pow10(-(e + 3)))
    }
}

/// The magnitude in thousandths of a degree of a turn by `m * 10^e`
/// degrees, rounded to the nearest thousandth, halves away from zero. The
/// value is judged as single precision reads it: zero, a magnitude that
/// rounds below the least normal value, and one that rounds to infinity are
/// malformed; one that rounds above `30` is out of range.
pub open spec fn turn_magnitude(m: int, e: int) -> Result<i64, CompileError> {
    if m == 0 || below(m, e, least_normal(), -150) || !below(m, e, overflow_bound(), 0) {
        Err(CompileError::MalformedParameter)
    } else if below(turn_bound(), -20, m, e) {
        Err(CompileError::ParameterOutOfRange)
    } else {
        Ok(rounded_thousandths(m, e) as i64)
    }
}

/// The turn that the argument word `t` of `TURN` denotes: a decimal numeral
/// with an optional sign, its magnitude as `turn_magnitude` states it.
pub open spec fn turn_argument(t: Seq<char>) -> Result<i64, CompileError> {
    let signed = t.len() > 0 && (t[0] == '-' || t[0] == '+');
    let b = if signed {
        t.skip(1)
    } else {
        t
    };
    match decimal_parts(b) {
        None => Err(CompileError::MalformedParameter),
        Some((m, e)) => match turn_magnitude(m, e) {
            Err(x) => Err(x),
            Ok(v) => Ok(
                if signed && t[0] == '-' {
                    (-v) as i64
                } else {
                    v
                },
            ),
        },
    }
}

/// The command that the words of one line denote, given the upper-case
/// form `keyword` of the first word.
pub open spec fn command_for(keyword: Seq<char>, words: Seq<Seq<char>>) -> Result<
    SwarmCommand,
    CompileError,
> {
    if keyword == seq!['M', 'O', 'V', 'E'] {
        Ok(SwarmCommand::MOVE)
    } else if keyword == seq!['F', 'I', 'R', 'E'] {
        Ok(SwarmCommand::FIRE)
    } else if keyword == seq!['N', 'O', 'O', 'P'] {
        Ok(SwarmCommand::NOOP)
    } else if keyword == seq!['T', 'U', 'R', 'N'] {
        if words.len() != 2 {
            Err(CompileError::MissingParameter)
        } else {
            match turn_argument(words[1]) {
                Ok(v) => Ok(SwarmCommand::TURN(v)),
                Err(e) => Err(e),
            }
        }
    } else {
        Err(CompileError::UnknownCommand)
    }
}

/// The command that the words of one line denote: keywords match in any
/// case, as their upper-case form.
pub open spec fn command_of(words: Seq<Seq<char>>) -> Result<SwarmCommand, CompileError> {
    if words.len() == 0 {
        Err(CompileError::EmptyCommand)
    } else {
        command_for(upper_of(words[0]), words)
    }
}

/// Compiles lines, given as their words, first to last: blank lines are
/// skipped, the first bad line or the command past the maximum fails it all.
pub open spec fn compile_lines(lines: Seq<Seq<Seq<char>>>) -> Result<Seq<SwarmCommand>, CompileError>
    decreases lines.len(),
{
    if lines.len() == 0 {
        Ok(seq![])
    } else {
        match compile_lines(lines.drop_last()) {
            Err(e) => Err(e),
            Ok(cmds) => if lines.last().len() == 0 {
                Ok(cmds)
            } else {
                match command_of(lines.last()) {
                    Err(e) => Err(e),
                    Ok(c) => if cmds.len() >= MAX_NUM_COMMANDS {
                        Err(CompileError::TooLong)
                    } else {
                        Ok(cmds.push(c))
                    },
                }
            },
        }
    }
}

/// The commands that a program text compiles to, or why it does not.
pub open spec fn compile_text(s: Seq<char>) -> Result<Seq<SwarmCommand>, CompileError> {
    compile_lines(line_words(s))
}

/// The views of a sequence of character vectors.
pub open spec fn words_view(v: Seq<Vec<char>>) -> Seq<Seq<char>> {
    v.map_values(|w: Vec<char>| w@)
}

/// The views of a sequence of lines of words.
pub open spec fn lines_view(v: Seq<Vec<Vec<char>>>) -> Seq<Seq<Seq<char>>> {
    v.map_values(|l: Vec<Vec<char>>| words_view(l@))
}

// ----------------------------------------------------------------------
// Reading text
// ----------------------------------------------------------------------

/// Collects the characters of `s`.
pub fn chars_of(s: &str) -> (r: Vec<char>)
    ensures
        r@ == s@,
{
    let mut r: Vec<char> = Vec::new();
    for c in it: s.chars()
        invariant
            r@ == it.seq().take(it.index() as int),
    {
        r.push(c);
    }
    r
}

/// Whether `c` is white space, as `is_whitespace` states it.
pub fn is_whitespace_char(c: char) -> (r: bool)
    ensures
        r == is_whitespace(c),
{
    let u = c as u32;
    (0x9 <= u && u <= 0xd) || u == 0x20 || u == 0x85 || u == 0xa0 || u == 0x1680 || (0x2000 <= u
        && u <= 0x200a) || u == 0x2028 || u == 0x2029 || u == 0x202f || u == 0x205f || u == 0x3000
}

/// Splits text into words and, where `by_line` holds, into lines first.
pub fn split_text(s: &Vec<char>, by_line: bool) -> (r: Vec<Vec<Vec<char>>>)
    ensures
        by_line ==> lines_view(r@) == line_words(s@),
        !by_line ==> lines_view(r@) == seq![words_of(s@)],
{
    let mut lines: Vec<Vec<Vec<char>>> = Vec::new();
    let mut words: Vec<Vec<char>> = Vec::new();
    let mut word: Vec<char> = Vec::new();
    let n = s.len();
    for i in 0..n
        invariant
            n == s@.len(),
            lines_view(lines@) == scan(s@.take(i as int), by_line).lines,
            words_view(words@) == scan(s@.take(i as int), by_line).words,
            word@ == scan(s@.take(i as int), by_line).word,
    {
        let c = s[i];
        assert(s@.take(i + 1).drop_last() == s@.take(i as int));
        let ghost l0 = lines@;
        let ghost w0 = words@;
        let breaks_line = by_line && c == '\n';
        if breaks_line || is_whitespace_char(c) {
            if word.len() > 0 {
                let mut done: Vec<char> = Vec::new();
                std::mem::swap(&mut done, &mut word);
                let ghost dv = done@;
                words.push(done);
                assert(words_view(words@) =~= words_view(w0).push(dv));
            }
        }
        if breaks_line {
            let mut line: Vec<Vec<char>> = Vec::new();
            std::mem::swap(&mut line, &mut words);
            let ghost lv = line@;
            lines.push(line);
            assert(lines_view(lines@) =~= lines_view(l0).push(words_view(lv)));
            assert(words_view(words@) =~= seq![]);
        }
        if !breaks_line && !is_whitespace_char(c) {
            word.push(c);
        }
        assert(lines_view(lines@) == scan(s@.take(i + 1), by_line).lines);
        assert(words_view(words@) == scan(s@.take(i + 1), by_line).words);
    }
    assert(s@.take(n as int) == s@);
    let ghost l0 = lines@;
    let ghost w0 = words@;
    let ghost wv = word@;
    if word.len() > 0 {
        words.push(word);
        assert(words_view(words@) =~= words_view(w0).push(wv));
    }
    let ghost wl = words@;
    lines.push(words);
    assert(lines_view(lines@) =~= lines_view(l0).push(words_view(wl)));
    proof {
        if !by_line {
            lemma_scan_one_line(s@);
        }
    }
    lines
}

proof fn lemma_scan_one_line(s: Seq<char>)
    ensures
        scan(s, false).lines.len() == 0,
    decreases s.len(),
{
    if s.len() > 0 {
        lemma_scan_one_line(s.drop_last());
    }
}


// ----------------------------------------------------------------------
// Numerals
// ----------------------------------------------------------------------

proof fn lemma_pow10_add(a: int, b: int)
    requires
        a >= 0,
        b >= 0,
    ensures
        pow10(a + b) == pow10(a) * pow10(b),
        pow10(a) >= 1,
    decreases a,
{
    if a > 0 {
        lemma_pow10_add(a - 1, b);
        assert(pow10(a + b) == 10 * pow10(a - 1 + b));
        assert(10 * (pow10(a - 1) * pow10(b)) == (10 * pow10(a - 1)) * pow10(b)) by (nonlinear_arith);
    }
}

proof fn lemma_pow10_five()
    ensures
        pow10(1) == 10,
        pow10(5) == 100_000,
{
    assert(pow10(0) == 1);
    assert(pow10(1) == 10);
    assert(pow10(2) == 100);
    assert(pow10(3) == 1000);
    assert(pow10(4) == 10_000);
    assert(pow10(5) == 100_000);
}

proof fn lemma_pow10_bounds()
    ensures
        pow10(112) <= least_normal() < pow10(113),
        pow10(38) <= overflow_bound() < pow10(39),
        pow10(21) <= turn_bound() < pow10(22),
{
    lemma_pow10_values();
    reveal_with_fuel(pow10, 3);
    assert(pow10(2) == 100);
    assert(pow10(1) == 10);
    lemma_pow10_add(18, 3);
    lemma_pow10_add(18, 4);
    lemma_pow10_add(18, 18);
    lemma_pow10_add(36, 2);
    lemma_pow10_add(38, 1);
    lemma_pow10_add(36, 36);
    lemma_pow10_add(72, 36);
    lemma_pow10_add(108, 4);
    lemma_pow10_add(112, 1);
    assert(pow10(38) == 100_000_000_000_000_000_000_000_000_000_000_000_000);
    let t = 1_000_000_000_000_000_000_000_000_000_000_000_000int;
    assert(pow10(36) == t);
    assert(pow10(112) == t * t * t * 10_000);
    assert(pow10(113) == t * t * t * 100_000);
    lemma_least_normal_value();
    assert(t * t * t * 10_000 <= least_normal() < t * t * t * 100_000);
}

/// `least_normal` in groups of eighteen digits.
proof fn lemma_least_normal_value()
    ensures
        least_normal() == ((((((11754) * 1_000_000_000_000_000_000 + 942807573642917278) * 1_000_000_000_000_000_000 + 829910357665133228) * 1_000_000_000_000_000_000 + 589927589904276829) * 1_000_000_000_000_000_000 + 631184250030649651) * 1_000_000_000_000_000_000 + 730385585324256680) * 1_000_000_000_000_000_000 + 905818939208984375,
{
    lemma_pow5_150();
    lemma_pow2_24();
}

proof fn lemma_pow2_24()
    ensures
        pow2(24) == 16_777_216,
{
    reveal_with_fuel(pow2, 25);
}

proof fn lemma_pow10_mono(a: int, b: int)
    requires
        0 <= a <= b,
    ensures
        1 <= pow10(a) <= pow10(b),
{
    lemma_pow10_add(a, b - a);
    lemma_pow10_add(b - a, 0);
    assert(pow10(a) * pow10(b - a) >= pow10(a)) by (nonlinear_arith)
        requires
            pow10(b - a) >= 1,
            pow10(a) >= 1,
    ;
}

proof fn lemma_digits_concat(a: Seq<char>, b: Seq<char>)
    ensures
        digits_value(a + b) == digits_value(a) * pow10(b.len() as int) + digits_value(b),
    decreases b.len(),
{
    if b.len() == 0 {
        assert(a + b =~= a);
    } else {
        let b0 = b.drop_last();
        assert((a + b).drop_last() =~= a + b0);
        assert((a + b).last() == b.last());
        lemma_digits_concat(a, b0);
        let x = digits_value(a);
        let p = pow10(b0.len() as int);
        assert(10 * (x * p + digits_value(b0)) == x * (10 * p) + 10 * digits_value(b0)) by (nonlinear_arith);
    }
}

proof fn lemma_digits_bound(s: Seq<char>)
    requires
        all_digits(s),
    ensures
        0 <= digits_value(s) < pow10(s.len() as int),
    decreases s.len(),
{
    if s.len() > 0 {
        let s0 = s.drop_last();
        assert(is_digit(s[s.len() - 1]));
        lemma_digits_bound(s0);
    }
}

proof fn lemma_digits_zero(s: Seq<char>)
    requires
        all_digits(s),
    ensures
        (digits_value(s) == 0) == (forall|i: int| 0 <= i < s.len() ==> s[i] == '0'),
    decreases s.len(),
{
    if s.len() > 0 {
        let s0 = s.drop_last();
        assert(is_digit(s[s.len() - 1]));
        lemma_digits_zero(s0);
        lemma_digits_bound(s0);
        if digits_value(s) == 0 {
            assert forall|i: int| 0 <= i < s.len() implies s[i] == '0' by {
                if i < s.len() - 1 {
                    assert(s[i] == s0[i]);
                }
            }
        }
        if forall|i: int| 0 <= i < s.len() ==> s[i] == '0' {
            assert forall|i: int| 0 <= i < s0.len() implies s0[i] == '0' by {
                assert(s0[i] == s[i]);
            }
        }
    }
}

/// A digit string read from its first significant digit.
proof fn lemma_digits_leading(s: Seq<char>)
    requires
        all_digits(s),
        s.len() >= 1,
        s[0] != '0',
    ensures
        pow10(s.len() - 1) <= digits_value(s) < pow10(s.len() as int),
{
    let h = s.take(1);
    let rest = s.skip(1);
    assert(s =~= h + rest);
    lemma_digits_concat(h, rest);
    assert(h.drop_last() =~= Seq::<char>::empty());
    assert(h.last() == s[0]);
    assert(digits_value(Seq::<char>::empty()) == 0);
    assert(digits_value(h) == 10 * digits_value(h.drop_last()) + (s[0] as int - '0' as int));
    assert(digits_value(h) == s[0] as int - '0' as int);
    lemma_digits_bound(rest);
    lemma_digits_bound(s);
    lemma_pow10_add(0, rest.len() as int);
    assert(digits_value(h) * pow10(rest.len() as int) >= pow10(rest.len() as int)) by (nonlinear_arith)
        requires
            digits_value(h) >= 1,
            pow10(rest.len() as int) >= 1,
    ;
}

proof fn lemma_pow2_add(a: int, b: int)
    requires
        a >= 0,
        b >= 0,
    ensures
        pow2(a + b) == pow2(a) * pow2(b),
    decreases a,
{
    if a > 0 {
        lemma_pow2_add(a - 1, b);
        assert(pow2(a + b) == 2 * pow2(a - 1 + b));
        assert(2 * (pow2(a - 1) * pow2(b)) == (2 * pow2(a - 1)) * pow2(b)) by (nonlinear_arith);
    }
}

proof fn lemma_pow5_add(a: int, b: int)
    requires
        a >= 0,
        b >= 0,
    ensures
        pow5(a + b) == pow5(a) * pow5(b),
    decreases a,
{
    if a > 0 {
        lemma_pow5_add(a - 1, b);
        assert(pow5(a + b) == 5 * pow5(a - 1 + b));
        assert(5 * (pow5(a - 1) * pow5(b)) == (5 * pow5(a - 1)) * pow5(b)) by (nonlinear_arith);
    }
}

proof fn lemma_pow2_pow5(n: int)
    requires
        n >= 0,
    ensures
        pow2(n) * pow5(n) == pow10(n),
    decreases n,
{
    if n > 0 {
        lemma_pow2_pow5(n - 1);
        assert(pow2(n) * pow5(n) == 10 * (pow2(n - 1) * pow5(n - 1))) by (nonlinear_arith)
            requires
                pow2(n) == 2 * pow2(n - 1),
                pow5(n) == 5 * pow5(n - 1),
        ;
    }
}

/// `5^150` as a product of known powers.
proof fn lemma_pow5_150()
    ensures
        pow5(10) == 9_765_625,
        pow5(150) == pow5(10) * pow5(10) * pow5(10) * pow5(10) * pow5(10) * pow5(10) * pow5(10) * pow5(10)
            * pow5(10) * pow5(10) * pow5(10) * pow5(10) * pow5(10) * pow5(10) * pow5(10),
{
    reveal_with_fuel(pow5, 11);
    lemma_pow5_add(10, 10);
    lemma_pow5_add(20, 10);
    lemma_pow5_add(30, 10);
    lemma_pow5_add(40, 10);
    lemma_pow5_add(50, 10);
    lemma_pow5_add(60, 10);
    lemma_pow5_add(70, 10);
    lemma_pow5_add(80, 10);
    lemma_pow5_add(90, 10);
    lemma_pow5_add(100, 10);
    lemma_pow5_add(110, 10);
    lemma_pow5_add(120, 10);
    lemma_pow5_add(130, 10);
    lemma_pow5_add(140, 10);
}

/// The three bounds are the single-precision limits they stand for.
pub proof fn lemma_single_precision_bounds()
    ensures
        least_normal() * pow2(150) == (pow2(24) - 1) * pow10(150),
        overflow_bound() == pow2(128) - pow2(103),
        turn_bound() * pow2(20) == (30 * pow2(20) + 1) * pow10(20),
{
    lemma_pow2_pow5(150);
    assert(least_normal() * pow2(150) == (pow2(24) - 1) * (pow2(150) * pow5(150))) by (nonlinear_arith)
        requires
            least_normal() == (pow2(24) - 1) * pow5(150),
    ;
    reveal_with_fuel(pow2, 11);
    reveal_with_fuel(pow10, 11);
    assert(pow2(10) == 1024);
    assert(pow2(3) == 8);
    assert(pow10(10) == 10_000_000_000);
    lemma_pow2_add(10, 10);
    assert(pow2(20) == 1_048_576);
    lemma_pow2_add(20, 3);
    assert(pow2(23) == 8_388_608);
    lemma_pow2_add(20, 20);
    assert(pow2(40) == 1_099_511_627_776);
    lemma_pow2_add(40, 40);
    assert(pow2(80) == 1_208_925_819_614_629_174_706_176);
    lemma_pow2_add(80, 23);
    assert(pow2(103) == 10_141_204_801_825_835_211_973_625_643_008);
    lemma_pow2_add(103, 25);
    lemma_pow2_add(20, 5);
    assert(pow2(5) == 32);
    assert(pow2(25) == 33_554_432);
    assert(pow2(128) == 340_282_366_920_938_463_463_374_607_431_768_211_456);
    lemma_pow10_add(10, 10);
    assert(pow10(20) == 100_000_000_000_000_000_000);
}

/// Numbers whose first digits stand at different powers of ten compare
/// as those powers; at the same power, as their digit strings do.
proof fn lemma_below_by_place(m: int, l: int, e: int, n: int, k: int, q: int)
    requires
        l >= 1,
        k >= 1,
        pow10(l - 1) <= m < pow10(l),
        pow10(k - 1) <= n < pow10(k),
    ensures
        l - 1 + e < k - 1 + q ==> below(m, e, n, q),
        l - 1 + e > k - 1 + q ==> !below(m, e, n, q),
        l + e == k + q ==> (below(m, e, n, q) <==> m * pow10(k) < n * pow10(l)),
{
    let s = if e < q {
        e
    } else {
        q
    };
    let lhs = m * pow10(e - s);
    let rhs = n * pow10(q - s);
    lemma_pow10_add(l, e - s);
    lemma_pow10_add(l - 1, e - s);
    lemma_pow10_add(k, q - s);
    lemma_pow10_add(k - 1, q - s);
    lemma_pow10_add(e - s, 0);
    lemma_pow10_add(q - s, 0);
    assert(lhs < pow10(l) * pow10(e - s)) by (nonlinear_arith)
        requires
            m < pow10(l),
            pow10(e - s) >= 1,
            lhs == m * pow10(e - s),
    ;
    assert(lhs >= pow10(l - 1) * pow10(e - s)) by (nonlinear_arith)
        requires
            m >= pow10(l - 1),
            pow10(e - s) >= 1,
            lhs == m * pow10(e - s),
    ;
    assert(rhs < pow10(k) * pow10(q - s)) by (nonlinear_arith)
        requires
            n < pow10(k),
            pow10(q - s) >= 1,
            rhs == n * pow10(q - s),
    ;
    assert(rhs >= pow10(k - 1) * pow10(q - s)) by (nonlinear_arith)
        requires
            n >= pow10(k - 1),
            pow10(q - s) >= 1,
            rhs == n * pow10(q - s),
    ;
    if l - 1 + e < k - 1 + q {
        lemma_pow10_mono(l + e - s, k - 1 + q - s);
    }
    if l - 1 + e > k - 1 + q {
        lemma_pow10_mono(k + q - s, l - 1 + e - s);
    }
    if l + e == k + q {
        lemma_pow10_add(q - s, k);
        assert(l + (e - s) == (q - s) + k);
        lemma_pow10_add(k, 0);
        lemma_pow10_add(l, 0);
        assert(m * pow10(k) * pow10(e - s) == lhs * pow10(k)) by (nonlinear_arith)
            requires
                lhs == m * pow10(e - s),
        ;
        assert(n * pow10(l) * pow10(e - s) == rhs * pow10(k)) by (nonlinear_arith)
            requires
                rhs == n * pow10(q - s),
                pow10(l) * pow10(e - s) == pow10(q - s) * pow10(k),
        ;
        assert((lhs < rhs) <==> (lhs * pow10(k) < rhs * pow10(k))) by (nonlinear_arith)
            requires
                pow10(k) >= 1,
        ;
        assert((m * pow10(k) < n * pow10(l)) <==> (m * pow10(k) * pow10(e - s) < n * pow10(l)
            * pow10(e - s))) by (nonlinear_arith)
            requires
                pow10(e - s) >= 1,
        ;
    }
}

/// Equal-length digit strings compare as their first differing digit.
proof fn lemma_digits_lex(a: Seq<char>, b: Seq<char>, i: int)
    requires
        a.len() == b.len(),
        all_digits(a),
        all_digits(b),
        0 <= i < a.len(),
        a.take(i) == b.take(i),
        a[i] < b[i],
    ensures
        digits_value(a) < digits_value(b),
{
    let n = a.len() as int;
    let at = a.take(i + 1);
    let bt = b.take(i + 1);
    let ar = a.skip(i + 1);
    let br = b.skip(i + 1);
    assert(a =~= at + ar);
    assert(b =~= bt + br);
    lemma_digits_concat(at, ar);
    lemma_digits_concat(bt, br);
    assert(at.drop_last() =~= a.take(i));
    assert(bt.drop_last() =~= b.take(i));
    assert(at.last() == a[i]);
    assert(bt.last() == b[i]);
    assert(all_digits(ar)) by {
        assert forall|x: int| 0 <= x < ar.len() implies is_digit(ar[x]) by {
            assert(ar[x] == a[i + 1 + x]);
        }
    }
    assert(all_digits(br)) by {
        assert forall|x: int| 0 <= x < br.len() implies is_digit(br[x]) by {
            assert(br[x] == b[i + 1 + x]);
        }
    }
    lemma_digits_bound(ar);
    lemma_digits_bound(br);
    let p = pow10(n - i - 1);
    assert(digits_value(at) + 1 <= digits_value(bt));
    assert(digits_value(at) * p + digits_value(ar) < digits_value(bt) * p + digits_value(br))
        by (nonlinear_arith)
        requires
            digits_value(at) + 1 <= digits_value(bt),
            0 <= digits_value(ar) < p,
            0 <= digits_value(br),
    ;
}

/// A digit string followed by `z` zeros is worth `10^z` times as much.
proof fn lemma_digits_zeros(s: Seq<char>, z: int)
    requires
        z >= 0,
    ensures
        digits_value(s + Seq::new(z as nat, |i: int| '0')) == digits_value(s) * pow10(z),
        all_digits(s) ==> all_digits(s + Seq::new(z as nat, |i: int| '0')),
{
    let zs = Seq::new(z as nat, |i: int| '0');
    lemma_digits_concat(s, zs);
    assert(all_digits(zs));
    lemma_digits_zero(zs);
    if all_digits(s) {
        assert forall|x: int| 0 <= x < (s + zs).len() implies is_digit((s + zs)[x]) by {
            if x < s.len() {
                assert((s + zs)[x] == s[x]);
            }
        }
    }
}

/// The first digit of `m` below `10^-4`: zero once rounded to thousandths.
proof fn lemma_small_rounds_to_zero(m: int, l: int, e: int)
    requires
        l >= 1,
        0 <= m < pow10(l),
        l - 1 + e <= -5,
    ensures
        rounded_thousandths(m, e) == 0,
{
    let k = -(e + 3);
    lemma_pow10_mono(l + 1, k);
    lemma_pow10_add(1, l);
    let num = 2 * m + pow10(k);
    let den = 2 * pow10(k);
    assert(0 <= num < den);
    vstd::arithmetic::div_mod::lemma_basic_div(num, den);
}

/// With the digits below the thousandths worth `r` of `10^k`: the value
/// rounds up exactly when the first of them is 5 or more.
proof fn lemma_split_thousandths(q: int, r: int, d: int, r2: int, k: int)
    requires
        k >= 1,
        0 <= q,
        0 <= d <= 9,
        0 <= r2 < pow10(k - 1),
        r == d * pow10(k - 1) + r2,
    ensures
        0 <= r < pow10(k),
        (2 * (q * pow10(k) + r) + pow10(k)) / (2 * pow10(k)) == q + if d >= 5 {
            1int
        } else {
            0
        },
{
    let p = pow10(k);
    let p1 = pow10(k - 1);
    lemma_pow10_mono(0, k - 1);
    assert(p == 10 * p1);
    assert(0 <= r < p) by (nonlinear_arith)
        requires
            0 <= d <= 9,
            0 <= r2 < p1,
            r == d * p1 + r2,
            p == 10 * p1,
    ;
    let bit: int = if d >= 5 {
        1
    } else {
        0
    };
    assert(2 * r + p >= 2 * p <==> d >= 5) by (nonlinear_arith)
        requires
            0 <= d <= 9,
            0 <= r2 < p1,
            r == d * p1 + r2,
            p == 10 * p1,
            p1 >= 1,
    ;
    let num = 2 * (q * p + r) + p;
    assert(num == (q + bit) * (2 * p) + (2 * r + p - bit * 2 * p)) by (nonlinear_arith)
        requires
            bit == 0 || bit == 1,
            num == 2 * (q * p + r) + p,
    ;
    assert(0 <= 2 * r + p - bit * 2 * p < 2 * p);
    vstd::arithmetic::div_mod::lemma_fundamental_div_mod_converse(
        num,
        2 * p,
        q + bit,
        2 * r + p - bit * 2 * p,
    );
}

/// The value past which digit strings are only known to be large.
pub const DIGITS_CAP: i128 = 100_000_000_000_000_000_000;

/// Reads the digits `s[from..to]`: `None` if one is not a digit, else their
/// value, or `DIGITS_CAP` where the value is at least that.
fn read_digits(s: &Vec<char>, from: usize, to: usize) -> (r: Option<i128>)
    requires
        from <= to <= s@.len(),
    ensures
        r is Some <==> all_digits(s@.subrange(from as int, to as int)),
        r matches Some(v) ==> {
            let d = digits_value(s@.subrange(from as int, to as int));
            &&& d >= 0
            &&& (d >= DIGITS_CAP ==> v == DIGITS_CAP)
            &&& (d < DIGITS_CAP ==> v == d)
        },
{
    let mut acc: i128 = 0;
    let mut i = from;
    while i < to
        invariant
            from <= i <= to <= s@.len(),
            all_digits(s@.subrange(from as int, i as int)),
            0 <= acc <= DIGITS_CAP,
            digits_value(s@.subrange(from as int, i as int)) >= DIGITS_CAP ==> acc == DIGITS_CAP,
            digits_value(s@.subrange(from as int, i as int)) < DIGITS_CAP ==> acc == digits_value(
                s@.subrange(from as int, i as int),
            ),
            digits_value(s@.subrange(from as int, i as int)) >= 0,
        decreases to - i,
    {
        let c = s[i];
        let ghost pre = s@.subrange(from as int, i as int);
        let ghost next = s@.subrange(from as int, i + 1);
        assert(next.drop_last() == pre);
        if !('0' <= c && c <= '9') {
            assert(!all_digits(s@.subrange(from as int, to as int))) by {
                assert(s@.subrange(from as int, to as int)[i - from] == c);
            }
            return None;
        }
        let d = (c as u32 - '0' as u32) as i128;
        if acc >= DIGITS_CAP || acc * 10 + d >= DIGITS_CAP {
            acc = DIGITS_CAP;
        } else {
            acc = acc * 10 + d;
        }
        i = i + 1;
    }
    Some(acc)
}

/// The value of the exponent `t[from..to]`, held within `DIGITS_CAP` either
/// way, as `exponent_value` states it.
fn read_exponent(t: &Vec<char>, from: usize, to: usize) -> (r: Option<i128>)
    requires
        from <= to <= t@.len(),
    ensures
        r is Some <==> exponent_value(t@.subrange(from as int, to as int)) is Some,
        r matches Some(v) ==> {
            let x = exponent_value(t@.subrange(from as int, to as int))->0;
            &&& -DIGITS_CAP <= v <= DIGITS_CAP
            &&& (-DIGITS_CAP < x < DIGITS_CAP ==> v == x)
            &&& (x >= DIGITS_CAP ==> v == DIGITS_CAP)
            &&& (x <= -DIGITS_CAP ==> v == -DIGITS_CAP)
        },
{
    let ghost x = t@.subrange(from as int, to as int);
    if from < to && (t[from] == '-' || t[from] == '+') {
        assert(x.skip(1) =~= t@.subrange(from + 1, to as int));
        if from + 1 == to {
            return None;
        }
        match read_digits(t, from + 1, to) {
            None => None,
            Some(v) => if t[from] == '-' {
                Some(-v)
            } else {
                Some(v)
            },
        }
    } else {
        if from == to {
            return None;
        }
        read_digits(t, from, to)
    }
}

/// Where the marker loop stopped at `k`, `first_of` finds `k`.
proof fn lemma_first_of_found(s: Seq<char>, a: char, b: char, i: int, k: int)
    requires
        0 <= i <= k <= s.len(),
        forall|x: int| i <= x < k ==> s[x] != a && s[x] != b,
        k == s.len() || s[k] == a || s[k] == b,
    ensures
        first_of(s, a, b, i) == k,
    decreases k - i,
{
    if i < k {
        lemma_first_of_found(s, a, b, i + 1, k);
    }
}

/// Appends the digits `t[from..to]` to `out`; false if one is not a digit.
fn push_digits(t: &Vec<char>, from: usize, to: usize, out: &mut Vec<char>) -> (r: bool)
    requires
        from <= to <= t@.len(),
    ensures
        r == all_digits(t@.subrange(from as int, to as int)),
        r ==> final(out)@ == old(out)@ + t@.subrange(from as int, to as int),
{
    let mut i = from;
    while i < to
        invariant
            from <= i <= to <= t@.len(),
            all_digits(t@.subrange(from as int, i as int)),
            out@ == old(out)@ + t@.subrange(from as int, i as int),
        decreases to - i,
    {
        let c = t[i];
        if !('0' <= c && c <= '9') {
            assert(t@.subrange(from as int, to as int)[i - from] == c);
            return false;
        }
        out.push(c);
        assert(t@.subrange(from as int, i + 1) =~= t@.subrange(from as int, i as int).push(c));
        i = i + 1;
    }
    true
}

/// Reads the unsigned numeral `t[start..]`: its digits without the point,
/// its exponent held within `DIGITS_CAP`, and the number of digits after
/// the point, as `decimal_parts` states them.
fn read_decimal(t: &Vec<char>, start: usize) -> (r: Option<(Vec<char>, i128, usize)>)
    requires
        start <= t@.len(),
    ensures
        r is Some <==> decimal_parts(t@.subrange(start as int, t@.len() as int)) is Some,
        r matches Some((ds, x, f)) ==> {
            let (m, e) = decimal_parts(t@.subrange(start as int, t@.len() as int))->0;
            &&& all_digits(ds@)
            &&& ds@.len() > 0
            &&& m == digits_value(ds@)
            &&& -DIGITS_CAP <= x <= DIGITS_CAP
            &&& (-DIGITS_CAP < x < DIGITS_CAP ==> e == x - f)
            &&& (x >= DIGITS_CAP ==> e >= DIGITS_CAP - f)
            &&& (x <= -DIGITS_CAP ==> e <= -DIGITS_CAP - f)
        },
{
    let n = t.len();
    let ghost b = t@.subrange(start as int, n as int);
    let mut k = start;
    while k < n && t[k] != 'e' && t[k] != 'E'
        invariant
            start <= k <= n == t@.len(),
            forall|i: int| start <= i < k ==> t@[i] != 'e' && t@[i] != 'E',
        decreases n - k,
    {
        k = k + 1;
    }
    proof {
        lemma_first_of_found(b, 'e', 'E', 0, k - start);
    }
    let ghost mantissa = b.take(k - start);
    assert(mantissa =~= t@.subrange(start as int, k as int));
    let ghost ex = if k < n {
        exponent_value(b.skip(k - start + 1))
    } else {
        Some(0int)
    };
    let exponent: i128 = if k < n {
        assert(b.skip(k - start + 1) =~= t@.subrange(k + 1, n as int));
        match read_exponent(t, k + 1, n) {
            None => {
                return None;
            },
            Some(x) => x,
        }
    } else {
        0
    };
    let mut d = start;
    while d < k && t[d] != '.'
        invariant
            start <= d <= k <= n == t@.len(),
            forall|i: int| start <= i < d ==> t@[i] != '.',
        decreases k - d,
    {
        d = d + 1;
    }
    proof {
        lemma_first_of_found(mantissa, '.', '.', 0, d - start);
    }
    let ghost ip = mantissa.take(d - start);
    assert(ip =~= t@.subrange(start as int, d as int));
    let frac_start = if d < k {
        d + 1
    } else {
        k
    };
    let ghost fp = if d < k {
        mantissa.skip(d - start + 1)
    } else {
        Seq::<char>::empty()
    };
    assert(fp =~= t@.subrange(frac_start as int, k as int));
    let mut digits: Vec<char> = Vec::new();
    if !push_digits(t, start, d, &mut digits) {
        return None;
    }
    if !push_digits(t, frac_start, k, &mut digits) {
        return None;
    }
    assert(digits@ =~= ip + fp);
    if digits.len() == 0 {
        return None;
    }
    assert(all_digits(digits@)) by {
        assert forall|i: int| 0 <= i < digits@.len() implies is_digit(digits@[i]) by {
            if i < ip.len() {
                assert(digits@[i] == ip[i]);
            } else {
                assert(digits@[i] == fp[i - ip.len()]);
            }
        }
    }
    Some((digits, exponent, k - frac_start))
}

/// The character of a decimal digit.
fn digit_char(d: u64) -> (c: char)
    requires
        d < 10,
    ensures
        is_digit(c),
        c as int - '0' as int == d,
{
    match d {
        0 => '0',
        1 => '1',
        2 => '2',
        3 => '3',
        4 => '4',
        5 => '5',
        6 => '6',
        7 => '7',
        8 => '8',
        _ => '9',
    }
}

/// Appends the `w` digits of `c`, most significant first.
fn push_chunk(c: u64, w: usize, out: &mut Vec<char>)
    requires
        1 <= w <= 18,
        c < pow10(w as int),
    ensures
        all_digits(old(out)@) ==> all_digits(final(out)@),
        final(out)@.len() == old(out)@.len() + w,
        digits_value(final(out)@) == digits_value(old(out)@) * pow10(w as int) + c,
{
    let ghost start = out@;
    proof {
        lemma_pow10_mono(w - 1, 18);
        lemma_pow10_values();
        vstd::arithmetic::div_mod::lemma_basic_div(c as int, pow10(w as int));
    }
    let mut p: u64 = 1;
    let mut i: usize = 1;
    while i < w
        invariant
            1 <= i <= w <= 18,
            p == pow10(i - 1),
            pow10(w - 1) <= 1_000_000_000_000_000_000,
        decreases w - i,
    {
        proof {
            lemma_pow10_mono(i as int, w - 1);
        }
        p = p * 10;
        i = i + 1;
    }
    let mut k: usize = 0;
    while k < w
        invariant
            k <= w <= 18,
            c < pow10(w as int),
            k < w ==> p == pow10(w - 1 - k),
            out@.len() == start.len() + k,
            out@.subrange(0, start.len() as int) == start,
            all_digits(out@.skip(start.len() as int)),
            digits_value(out@.skip(start.len() as int)) == (c as int) / pow10(w - k),
        decreases w - k,
    {
        let ghost before = out@.skip(start.len() as int);
        let ghost pp = pow10(w - 1 - k);
        proof {
            lemma_pow10_add(w - 1 - k, 1);
            lemma_pow10_add(w - 1 - k, 0);
            reveal_with_fuel(pow10, 2);
            vstd::arithmetic::div_mod::lemma_div_denominator(c as int, pp, 10);
            vstd::arithmetic::div_mod::lemma_fundamental_div_mod((c as int) / pp, 10);
            vstd::arithmetic::div_mod::lemma_mod_bound((c as int) / pp, 10);
        }
        let digit = (c / p) % 10;
        let ch = digit_char(digit);
        out.push(ch);
        assert(out@.skip(start.len() as int) =~= before.push(ch));
        assert(out@.skip(start.len() as int).drop_last() =~= before);
        assert(out@.subrange(0, start.len() as int) =~= start);
        if k + 1 < w {
            proof {
                assert(pp == 10 * pow10(w - 2 - k));
                assert(pp / 10 == pow10(w - 2 - k)) by (nonlinear_arith)
                    requires
                        pp == 10 * pow10(w - 2 - k),
                ;
            }
            p = p / 10;
        }
        k = k + 1;
    }
    let ghost tail = out@.skip(start.len() as int);
    assert(out@ =~= start + tail);
    proof {
        reveal_with_fuel(pow10, 1);
        lemma_digits_concat(start, tail);
        if all_digits(start) {
            assert forall|x: int| 0 <= x < out@.len() implies is_digit(out@[x]) by {
                if x < start.len() {
                    assert(out@[x] == start[x]);
                } else {
                    assert(out@[x] == tail[x - start.len()]);
                }
            }
        }
    }
}

/// The digits of `least_normal`.
fn least_normal_digits() -> (r: Vec<char>)
    ensures
        all_digits(r@),
        r@.len() == 113,
        digits_value(r@) == least_normal(),
{
    proof {
        lemma_pow10_values();
        lemma_pow5_150();
        lemma_pow2_24();
    }
    let mut r: Vec<char> = Vec::new();
    assert(digits_value(r@) == 0);
    push_chunk(11754, 5, &mut r);
    push_chunk(942807573642917278, 18, &mut r);
    push_chunk(829910357665133228, 18, &mut r);
    push_chunk(589927589904276829, 18, &mut r);
    push_chunk(631184250030649651, 18, &mut r);
    push_chunk(730385585324256680, 18, &mut r);
    push_chunk(905818939208984375, 18, &mut r);
    r
}

/// The digits of `overflow_bound`.
fn overflow_bound_digits() -> (r: Vec<char>)
    ensures
        all_digits(r@),
        r@.len() == 39,
        digits_value(r@) == overflow_bound(),
{
    proof {
        lemma_pow10_values();
    }
    let mut r: Vec<char> = Vec::new();
    assert(digits_value(r@) == 0);
    push_chunk(340, 3, &mut r);
    push_chunk(282356779733661637, 18, &mut r);
    push_chunk(539395458142568448, 18, &mut r);
    r
}

/// The digits of `turn_bound`.
fn turn_bound_digits() -> (r: Vec<char>)
    ensures
        all_digits(r@),
        r@.len() == 22,
        digits_value(r@) == turn_bound(),
{
    proof {
        lemma_pow10_values();
    }
    let mut r: Vec<char> = Vec::new();
    assert(digits_value(r@) == 0);
    push_chunk(3000, 4, &mut r);
    push_chunk(95367431640625, 18, &mut r);
    r
}

proof fn lemma_pow10_values()
    ensures
        pow10(3) == 1000,
        pow10(4) == 10_000,
        pow10(5) == 100_000,
        pow10(18) == 1_000_000_000_000_000_000,
{
    reveal_with_fuel(pow10, 19);
}

/// Digit `i` of `s[z..]`, or `'0'` past its end.
fn padded_digit(s: &Vec<char>, z: usize, i: usize) -> (d: char)
    requires
        z <= s@.len(),
    ensures
        d == if i < s@.len() - z {
            s@[z + i]
        } else {
            '0'
        },
{
    if i < s.len() - z {
        s[z + i]
    } else {
        '0'
    }
}

/// Compares the digits `s[z..]` with the digits `c`, both read as fractions
/// `0.ddd`: the sign of `digits_value(s[z..]) * 10^|c| - digits_value(c) * 10^|s[z..]|`.
fn compare_fractions(s: &Vec<char>, z: usize, c: &Vec<char>) -> (r: i8)
    requires
        z <= s@.len(),
        all_digits(s@.skip(z as int)),
        all_digits(c@),
    ensures
        ({
            let sig = s@.skip(z as int);
            let a = digits_value(sig) * pow10(c@.len() as int);
            let b = digits_value(c@) * pow10(sig.len() as int);
            &&& (r < 0 <==> a < b)
            &&& (r == 0 <==> a == b)
            &&& (r > 0 <==> a > b)
        }),
{
    let ghost sig = s@.skip(z as int);
    let l = s.len() - z;
    let k = c.len();
    let w = if l > k {
        l
    } else {
        k
    };
    let ghost ps = sig + Seq::new((w - l) as nat, |i: int| '0');
    let ghost pc = c@ + Seq::new((w - k) as nat, |i: int| '0');
    proof {
        lemma_digits_zeros(sig, (w - l) as int);
        lemma_digits_zeros(c@, (w - k) as int);
    }
    let mut i: usize = 0;
    while i < w && padded_digit(s, z, i) == padded_digit(c, 0, i)
        invariant
            i <= w,
            ps.len() == w,
            pc.len() == w,
            l == sig.len(),
            k == c@.len(),
            z + l == s@.len(),
            sig == s@.skip(z as int),
            forall|x: int| 0 <= x < w ==> ps[x] == if x < l {
                s@[z + x]
            } else {
                '0'
            },
            forall|x: int| 0 <= x < w ==> pc[x] == if x < k {
                c@[x]
            } else {
                '0'
            },
            ps.take(i as int) == pc.take(i as int),
        decreases w - i,
    {
        assert(ps.take(i + 1) =~= ps.take(i as int).push(ps[i as int]));
        assert(pc.take(i + 1) =~= pc.take(i as int).push(pc[i as int]));
        i = i + 1;
    }
    let mut r: i8 = 0;
    let ghost da = ps[i as int];
    let ghost db = pc[i as int];
    if i < w {
        let x = padded_digit(s, z, i);
        let y = padded_digit(c, 0, i);
        assert(c@.skip(0) =~= c@);
        assert(x == ps[i as int]);
        assert(y == pc[i as int]);
        assert(x != y);
        r = if x < y {
            -1
        } else {
            1
        };
    }
    proof {
        let a0 = digits_value(sig);
        let b0 = digits_value(c@);
        let lo = (l + k - w) as int;
        lemma_pow10_add((w - l) as int, lo);
        lemma_pow10_add((w - k) as int, lo);
        lemma_pow10_add(lo, 0);
        assert(c@.skip(0) =~= c@);
        if i < w {
            if r < 0 {
                lemma_digits_lex(ps, pc, i as int);
            } else {
                lemma_digits_lex(pc, ps, i as int);
            }
        } else {
            assert(ps =~= pc) by {
                assert(ps.take(w as int) =~= ps);
                assert(pc.take(w as int) =~= pc);
            }
        }
        let pa = digits_value(ps);
        let pb = digits_value(pc);
        assert(a0 * pow10(k as int) == pa * pow10(lo)) by (nonlinear_arith)
            requires
                pa == a0 * pow10((w - l) as int),
                pow10(k as int) == pow10((w - l) as int) * pow10(lo),
        ;
        assert(b0 * pow10(l as int) == pb * pow10(lo)) by (nonlinear_arith)
            requires
                pb == b0 * pow10((w - k) as int),
                pow10(l as int) == pow10((w - k) as int) * pow10(lo),
        ;
        assert((pa < pb <==> pa * pow10(lo) < pb * pow10(lo)) && (pa == pb <==> pa * pow10(lo) == pb
            * pow10(lo))) by (nonlinear_arith)
            requires
                pow10(lo) >= 1,
        ;
    }
    r
}

/// The magnitude in thousandths of the digits `ds` times `10^e`, as
/// `turn_magnitude` states it, given the exponent `x` held within
/// `DIGITS_CAP` and the number `f` of digits after the point.
fn magnitude_of(ds: &Vec<char>, x: i128, f: usize, Ghost(e): Ghost<int>) -> (r: Result<
    i64,
    CompileError,
>)
    requires
        all_digits(ds@),
        ds@.len() > 0,
        -DIGITS_CAP <= x <= DIGITS_CAP,
        -DIGITS_CAP < x < DIGITS_CAP ==> e == x - f,
        x >= DIGITS_CAP ==> e >= DIGITS_CAP - f,
        x <= -DIGITS_CAP ==> e <= -DIGITS_CAP - f,
    ensures
        r == turn_magnitude(digits_value(ds@), e),
        r matches Ok(v) ==> 0 <= v <= 100_000,
{
    let len = ds.len();
    let ghost m = digits_value(ds@);
    let mut z: usize = 0;
    while z < len && ds[z] == '0'
        invariant
            z <= len == ds@.len(),
            forall|i: int| 0 <= i < z ==> ds@[i] == '0',
        decreases len - z,
    {
        z = z + 1;
    }
    let ghost sig = ds@.skip(z as int);
    proof {
        assert(ds@ =~= ds@.take(z as int) + sig);
        lemma_digits_concat(ds@.take(z as int), sig);
        assert(all_digits(ds@.take(z as int))) by {
            assert forall|i: int| 0 <= i < z implies is_digit(ds@.take(z as int)[i]) by {
                assert(ds@.take(z as int)[i] == ds@[i]);
            }
        }
        lemma_digits_zero(ds@.take(z as int));
        assert(all_digits(sig)) by {
            assert forall|i: int| 0 <= i < sig.len() implies is_digit(sig[i]) by {
                assert(sig[i] == ds@[z + i]);
            }
        }
        assert(m == digits_value(sig));
    }
    if z == len {
        proof {
            lemma_digits_zero(ds@);
        }
        return Err(CompileError::MalformedParameter);
    }
    let l = len - z;
    proof {
        lemma_digits_leading(sig);
        lemma_single_precision_bounds();
        lemma_pow10_bounds();
        lemma_below_by_place(m, l as int, e, least_normal(), 113, -150);
        lemma_below_by_place(m, l as int, e, overflow_bound(), 39, 0);
        lemma_below_by_place(turn_bound(), 22, -20, m, l as int, e);
    }
    assert(l as int <= 18_446_744_073_709_551_615);
    assert(f as int <= 18_446_744_073_709_551_615);
    let p: i128 = l as i128 - 1 + x - f as i128;
    let ghost pt: int = l - 1 + e;
    assert(p <= -39 <==> pt <= -39);
    assert(p >= 39 <==> pt >= 39);
    if p <= -39 {
        return Err(CompileError::MalformedParameter);
    }
    if p >= 39 {
        return Err(CompileError::MalformedParameter);
    }
    assert(p == pt);
    if p == -38 {
        let bound = least_normal_digits();
        if compare_fractions(ds, z, &bound) < 0 {
            return Err(CompileError::MalformedParameter);
        }
    }
    if p == 38 {
        let bound = overflow_bound_digits();
        if compare_fractions(ds, z, &bound) >= 0 {
            return Err(CompileError::MalformedParameter);
        }
    }
    if p >= 2 {
        return Err(CompileError::ParameterOutOfRange);
    }
    if p == 1 {
        let bound = turn_bound_digits();
        if compare_fractions(ds, z, &bound) > 0 {
            return Err(CompileError::ParameterOutOfRange);
        }
    }
    if p <= -5 {
        proof {
            lemma_small_rounds_to_zero(m, l as int, e);
        }
        return Ok(0);
    }
    let j = (p + 4) as usize;
    proof {
        lemma_pow10_five();
        lemma_pow10_mono(j as int, 5);
    }
    if j >= l {
        let v = match read_digits(ds, z, len) {
            Some(v) => v,
            None => {
                return Err(CompileError::MalformedParameter);
            },
        };
        assert(ds@.subrange(z as int, len as int) =~= sig);
        proof {
            lemma_pow10_mono(l as int, 5);
        }
        let mut q: i128 = v;
        let mut c: usize = l;
        while c < j
            invariant
                l <= c <= j <= 5,
                q == m * pow10(c - l),
                0 <= m < pow10(l as int),
                pow10(1) == 10,
                pow10(5) == 100_000,
            decreases j - c,
        {
            proof {
                lemma_pow10_add(c - l, 1);
                lemma_pow10_add(l as int, (c - l) as int);
                lemma_pow10_add((c - l) as int, 0);
                lemma_pow10_mono(c as int, 5);
                assert(m * pow10(c - l) < pow10(l as int) * pow10(c - l)) by (nonlinear_arith)
                    requires
                        0 <= m < pow10(l as int),
                        pow10(c - l) >= 1,
                ;
                assert(q * 10 == m * pow10(c + 1 - l)) by (nonlinear_arith)
                    requires
                        q == m * pow10(c - l),
                        pow10(c + 1 - l) == pow10(c - l) * 10,
                ;
            }
            q = q * 10;
            c = c + 1;
        }
        proof {
            lemma_pow10_add(l as int, (j - l) as int);
            assert(m * pow10(j - l) < pow10(l as int) * pow10(j - l)) by (nonlinear_arith)
                requires
                    0 <= m < pow10(l as int),
                    pow10(j - l) >= 1,
            ;
            lemma_pow10_add((j - l) as int, 0);
        }
        assert(e + 3 == j - l);
        Ok(q as i64)
    } else {
        let ghost hi = sig.take(j as int);
        let ghost lo = sig.skip(j as int);
        let ghost kk: int = l - j;
        assert(ds@.subrange(z as int, (z + j) as int) =~= hi);
        assert(sig =~= hi + lo);
        let q = match read_digits(ds, z, z + j) {
            Some(v) => v,
            None => {
                return Err(CompileError::MalformedParameter);
            },
        };
        let round_digit = ds[z + j];
        proof {
            assert(all_digits(hi) && all_digits(lo)) by {
                assert forall|y: int| 0 <= y < hi.len() implies is_digit(hi[y]) by {
                    assert(hi[y] == sig[y]);
                }
                assert forall|y: int| 0 <= y < lo.len() implies is_digit(lo[y]) by {
                    assert(lo[y] == sig[j + y]);
                }
            }
            lemma_digits_concat(hi, lo);
            lemma_digits_bound(hi);
            let lo1 = lo.skip(1);
            let lo0 = lo.take(1);
            assert(lo =~= lo0 + lo1);
            lemma_digits_concat(lo0, lo1);
            assert(lo0.drop_last() =~= Seq::<char>::empty());
            assert(lo0.last() == round_digit);
            assert(digits_value(Seq::<char>::empty()) == 0);
            assert(digits_value(lo0) == 10 * digits_value(lo0.drop_last()) + (round_digit as int
                - '0' as int));
            assert(is_digit(lo[0]));
            assert(all_digits(lo1)) by {
                assert forall|y: int| 0 <= y < lo1.len() implies is_digit(lo1[y]) by {
                    assert(lo1[y] == lo[y + 1]);
                }
            }
            lemma_digits_bound(lo1);
            assert(e + 3 == -kk);
            assert(lo1.len() == kk - 1);
            lemma_split_thousandths(
                digits_value(hi),
                digits_value(lo),
                round_digit as int - '0' as int,
                digits_value(lo1),
                kk,
            );
        }
        let up: i128 = if round_digit >= '5' {
            1
        } else {
            0
        };
        Ok((q + up) as i64)
    }
}

/// The turn that the argument word `t` of `TURN` denotes, as `turn_argument`
/// states it.
pub fn parse_turn_argument(t: &Vec<char>) -> (r: Result<i64, CompileError>)
    ensures
        r == turn_argument(t@),
{
    let n = t.len();
    let mut start: usize = 0;
    let mut negative = false;
    if n > 0 && (t[0] == '-' || t[0] == '+') {
        start = 1;
        negative = t[0] == '-';
    }
    let ghost b = t@.subrange(start as int, n as int);
    assert(start == 1 ==> b =~= t@.skip(1));
    assert(start == 0 ==> b =~= t@);
    match read_decimal(t, start) {
        None => Err(CompileError::MalformedParameter),
        Some((ds, x, f)) => {
            let ghost parts = decimal_parts(b)->0;
            let ghost e = parts.1;
            match magnitude_of(&ds, x, f, Ghost(e)) {
                Err(err) => Err(err),
                Ok(v) => {
                    if negative {
                        Ok(-v)
                    } else {
                        Ok(v)
                    }
                },
            }
        },
    }
}

// ----------------------------------------------------------------------
// Commands and programs
// ----------------------------------------------------------------------

/// Relies on `str::to_uppercase`: the upper-case form of the characters,
/// which depends on them alone.
#[verifier::external_body]
fn to_upper(w: &Vec<char>) -> (r: Vec<char>)
    ensures
        r@ == upper_of(w@),
{
    let s: String = w.iter().collect();
    s.to_uppercase().chars().collect()
}

/// Whether `w` is the four letters `a b c d`.
fn spells(w: &Vec<char>, a: char, b: char, c: char, d: char) -> (r: bool)
    ensures
        r == (w@ == seq![a, b, c, d]),
{
    let r = w.len() == 4 && w[0] == a && w[1] == b && w[2] == c && w[3] == d;
    proof {
        if w@.len() == 4 {
            assert(r ==> w@ =~= seq![a, b, c, d]);
        }
    }
    r
}

/// The command that `words` denote, given the upper-case form `keyword` of
/// their first word, as `command_for` states it.
pub fn command_for_keyword(keyword: &Vec<char>, words: &Vec<Vec<char>>) -> (r: Result<
    SwarmCommand,
    CompileError,
>)
    ensures
        r == command_for(keyword@, words_view(words@)),
{
    if spells(keyword, 'M', 'O', 'V', 'E') {
        Ok(SwarmCommand::MOVE)
    } else if spells(keyword, 'F', 'I', 'R', 'E') {
        Ok(SwarmCommand::FIRE)
    } else if spells(keyword, 'N', 'O', 'O', 'P') {
        Ok(SwarmCommand::NOOP)
    } else if spells(keyword, 'T', 'U', 'R', 'N') {
        if words.len() != 2 {
            Err(CompileError::MissingParameter)
        } else {
            assert(words_view(words@)[1] == words@[1]@);
            match parse_turn_argument(&words[1]) {
                Ok(v) => Ok(SwarmCommand::TURN(v)),
                Err(e) => Err(e),
            }
        }
    } else {
        Err(CompileError::UnknownCommand)
    }
}

/// The command that the words of one line denote, as `command_of` states it.
pub fn parse_words(words: &Vec<Vec<char>>) -> (r: Result<SwarmCommand, CompileError>)
    ensures
        r == command_of(words_view(words@)),
{
    if words.len() == 0 {
        return Err(CompileError::EmptyCommand);
    }
    assert(words_view(words@)[0] == words@[0]@);
    let keyword = to_upper(&words[0]);
    command_for_keyword(&keyword, words)
}

proof fn lemma_compile_error_sticks(lines: Seq<Seq<Seq<char>>>, j: int, e: CompileError)
    requires
        0 <= j <= lines.len(),
        compile_lines(lines.take(j)) == Err::<Seq<SwarmCommand>, CompileError>(e),
    ensures
        compile_lines(lines) == Err::<Seq<SwarmCommand>, CompileError>(e),
    decreases lines.len() - j,
{
    if j < lines.len() {
        assert(lines.take(j + 1).drop_last() == lines.take(j));
        lemma_compile_error_sticks(lines, j + 1, e);
    } else {
        assert(lines.take(j) == lines);
    }
}

impl CompileError {
    /// The message shown to the author of a rejected program.
    pub open spec fn message(self) -> Seq<char> {
        match self {
            CompileError::EmptyCommand => "Command is white space (should be non-error)."@,
            CompileError::UnknownCommand => "Command not recognized."@,
            CompileError::MissingParameter => "No parameters found for TURN."@,
            CompileError::ParameterOutOfRange => "Input parameter float should range from -30.0 to 30.0."@,
            CompileError::MalformedParameter => "Invalid float parameter for TURN."@,
            CompileError::TooLong => "Program is too long: use fewer commands."@,
        }
    }

    /// The message shown to the author of a rejected program.
    pub fn description(&self) -> (r: String)
        ensures
            r@ == self.message(),
    {
        match self {
            CompileError::EmptyCommand => String::from_str(
                "Command is white space (should be non-error).",
            ),
            CompileError::UnknownCommand => String::from_str("Command not recognized."),
            CompileError::MissingParameter => String::from_str("No parameters found for TURN."),
            CompileError::ParameterOutOfRange => String::from_str(
                "Input parameter float should range from -30.0 to 30.0.",
            ),
            CompileError::MalformedParameter => String::from_str(
                "Invalid float parameter for TURN.",
            ),
            CompileError::TooLong => String::from_str("Program is too long: use fewer commands."),
        }
    }

    /// The same error as a `GenericError` holding its message.
    pub fn to_generic(&self) -> (r: GenericError)
        ensures
            r.description@ == self.message(),
    {
        GenericError::new(self.description())
    }
}

impl SwarmCommand {
    /// Parses one command from text whose words are those of a single line;
    /// line breaks count as white space.
    pub fn parse(line: &str) -> (r: Result<SwarmCommand, CompileError>)
        ensures
            r == command_of(words_of(line@)),
    {
        let chars = chars_of(line);
        let split = split_text(&chars, false);
        assert(lines_view(split@).len() == split@.len());
        assert(lines_view(split@)[0] == words_view(split@[0]@));
        parse_words(&split[0])
    }
}

impl std::str::FromStr for SwarmCommand {
    type Err = GenericError;

    fn from_str(s: &str) -> Result<SwarmCommand, GenericError> {
        match SwarmCommand::parse(s) {
            Ok(c) => Ok(c),
            Err(e) => Err(e.to_generic()),
        }
    }
}

/// A list of commands and the position of the next one to run.
#[derive(Debug)]
pub struct SwarmProgram {
    /// The commands, run in order and then again from the first.
    pub commands: Vec<SwarmCommand>,
    /// The position of the next command to run.
    pub program_counter: usize,
}

impl SwarmProgram {
    /// A program whose counter lies within its commands, if it has any.
    pub open spec fn wf(&self) -> bool {
        self.commands@.len() == 0 || self.program_counter < self.commands@.len()
    }

    /// A program that starts at its first command.
    pub fn new(commands: Vec<SwarmCommand>) -> (r: Self)
        ensures
            r.commands@ == commands@,
            r.program_counter == 0,
            r.wf(),
    {
        SwarmProgram { commands, program_counter: 0 }
    }

    /// Compiles a program text: all of it, or nothing.
    pub fn compile(text: &str) -> (r: Result<SwarmProgram, CompileError>)
        ensures
            match compile_text(text@) {
                Ok(cmds) => r matches Ok(p) && p.commands@ == cmds && p.program_counter == 0,
                Err(e) => r == Err::<SwarmProgram, CompileError>(e),
            },
    {
        let chars = chars_of(text);
        let lines = split_text(&chars, true);
        let ghost lv = lines_view(lines@);
        let mut commands: Vec<SwarmCommand> = Vec::new();
        let n = lines.len();
        for i in 0..n
            invariant
                n == lines@.len() == lv.len(),
                lv == lines_view(lines@),
                lv == line_words(text@),
                compile_lines(lv.take(i as int)) == Ok::<Seq<SwarmCommand>, CompileError>(
                    commands@,
                ),
        {
            assert(lv.take(i + 1).drop_last() == lv.take(i as int));
            assert(lv.take(i + 1).last() == words_view(lines@[i as int]@));
            if lines[i].len() > 0 {
                match parse_words(&lines[i]) {
                    Err(e) => {
                        proof {
                            lemma_compile_error_sticks(lv, i + 1, e);
                        }
                        return Err(e);
                    },
                    Ok(c) => {
                        if commands.len() >= MAX_NUM_COMMANDS {
                            proof {
                                lemma_compile_error_sticks(lv, i + 1, CompileError::TooLong);
                            }
                            return Err(CompileError::TooLong);
                        }
                        commands.push(c);
                    },
                }
            }
        }
        assert(lv.take(n as int) == lv);
        Ok(SwarmProgram::new(commands))
    }
}

impl std::str::FromStr for SwarmProgram {
    type Err = GenericError;

    fn from_str(s: &str) -> Result<SwarmProgram, GenericError> {
        match SwarmProgram::compile(s) {
            Ok(p) => Ok(p),
            Err(e) => Err(e.to_generic()),
        }
    }
}

} // verus!
