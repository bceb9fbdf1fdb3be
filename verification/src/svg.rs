//! The command grammar of SVG path data: which token starts a command,
//! how many numbers each command takes, relative and absolute forms,
//! repetition of the last command, and the errors. Numbers are kept as
//! references to their tokens; reading their values is floating-point work
//! left to the caller.

use vstd::prelude::*;
use crate::path::{is_ascii_digit, is_command_letter, svg_tokens, tokenize_svg_path};
use crate::resource::{icon_path, Icon};

verus! {

/// `c` lowercased, for ASCII letters.
pub open spec fn ascii_lower(c: char) -> char {
    if 'A' <= c && c <= 'Z' {
        ((c as u8) + 32) as char
    } else {
        c
    }
}

pub open spec fn all_digits(s: Seq<char>) -> bool {
    forall|k: int| 0 <= k < s.len() ==> is_ascii_digit(#[trigger] s[k])
}

/// How many digits run in `s` from position `i`.
pub open spec fn digits_from(s: Seq<char>, i: int) -> nat
    decreases s.len() - i,
{
    if 0 <= i < s.len() && is_ascii_digit(s[i]) {
        1 + digits_from(s, i + 1)
    } else {
        0
    }
}

/// `s` from position `i` is empty or an exponent `'e' Sign? Digit+` (the
/// `e` in either case).
pub open spec fn exponent_from(s: Seq<char>, i: int) -> bool {
    ||| i == s.len()
    ||| {
        &&& i < s.len()
        &&& ascii_lower(s[i]) == 'e'
        &&& {
            let j = if i + 1 < s.len() && (s[i + 1] == '+' || s[i + 1] == '-') {
                i + 2
            } else {
                i + 1
            };
            digits_from(s, j) >= 1 && j + digits_from(s, j) == s.len()
        }
    }
}

/// `(Digit+ | Digit+ '.' Digit* | Digit* '.' Digit+) Exp?`, read from the
/// left: leading digits, then an optional point and more digits (at least
/// one digit in all), then an optional exponent to the end.
pub open spec fn is_decimal(b: Seq<char>) -> bool {
    let d1 = digits_from(b, 0);
    if d1 < b.len() && b[d1 as int] == '.' {
        let d2 = digits_from(b, (d1 + 1) as int);
        d1 + d2 >= 1 && exponent_from(b, (d1 + 1 + d2) as int)
    } else {
        d1 >= 1 && exponent_from(b, d1 as int)
    }
}

/// The strings `str::parse::<f64>` accepts, as its documentation gives
/// them: `Sign? ('inf' | 'infinity' | 'nan' | Number)` once lowercased,
/// with no surrounding whitespace.
pub open spec fn is_float_literal(s: Seq<char>) -> bool {
    let b = if s.len() > 0 && (s[0] == '+' || s[0] == '-') {
        s.skip(1)
    } else {
        s
    };
    let l = b.map_values(|c: char| ascii_lower(c));
    l == "inf"@ || l == "infinity"@ || l == "nan"@ || is_decimal(b)
}

fn lower_char(c: char) -> (r: char)
    ensures
        r == ascii_lower(c),
{
    if 'A' <= c && c <= 'Z' {
        ((c as u8) + 32) as char
    } else {
        c
    }
}

/// How many digits run in `s` from position `i`.
fn count_digits(s: &str, i: usize) -> (n: usize)
    requires
        i <= s@.len(),
    ensures
        n == digits_from(s@, i as int),
        i + n <= s@.len(),
{
    let len = s.unicode_len();
    let mut k: usize = i;
    while k < len && is_digit_char(s.get_char(k))
        invariant
            len == s@.len(),
            i <= k <= len,
            forall|m: int| i <= m < k ==> is_ascii_digit(#[trigger] s@[m]),
        decreases len - k,
    {
        k = k + 1;
    }
    proof {
        lemma_digits_from(s@, i as int, k as int);
    }
    k - i
}

fn is_digit_char(c: char) -> (b: bool)
    ensures
        b == is_ascii_digit(c),
{
    '0' <= c && c <= '9'
}

proof fn lemma_digits_from(s: Seq<char>, i: int, j: int)
    requires
        0 <= i <= j <= s.len(),
        forall|m: int| i <= m < j ==> is_ascii_digit(#[trigger] s[m]),
        j == s.len() || !is_ascii_digit(s[j]),
    ensures
        digits_from(s, i) == j - i,
    decreases j - i,
{
    if i < j {
        lemma_digits_from(s, i + 1, j);
    }
}

fn exponent_ok(s: &str, i: usize) -> (b: bool)
    requires
        i <= s@.len(),
    ensures
        b == exponent_from(s@, i as int),
{
    let len = s.unicode_len();
    if i == len {
        return true;
    }
    if lower_char(s.get_char(i)) != 'e' {
        return false;
    }
    let j = if i + 1 < len && (s.get_char(i + 1) == '+' || s.get_char(i + 1) == '-') {
        i + 2
    } else {
        i + 1
    };
    let d = count_digits(s, j);
    d >= 1 && j + d == len
}

fn lower_is(s: &str, from: usize, word: &str) -> (b: bool)
    requires
        from <= s@.len(),
    ensures
        b == (s@.skip(from as int).map_values(|c: char| ascii_lower(c)) == word@),
{
    let len = s.unicode_len();
    let wl = word.unicode_len();
    if len - from != wl {
        proof {
            assert(s@.skip(from as int).map_values(|c: char| ascii_lower(c)).len() != word@.len());
        }
        return false;
    }
    let mut k: usize = 0;
    while k < wl
        invariant
            len == s@.len(),
            wl == word@.len(),
            len - from == wl,
            from <= len,
            k <= wl,
            forall|m: int| 0 <= m < k ==> ascii_lower(#[trigger] s@[from + m]) == word@[m],
        decreases wl - k,
    {
        if lower_char(s.get_char(from + k)) != word.get_char(k) {
            proof {
                let l = s@.skip(from as int).map_values(|c: char| ascii_lower(c));
                assert(s@.skip(from as int)[k as int] == s@[from + k]);
                assert(l[k as int] != word@[k as int]);
            }
            return false;
        }
        k = k + 1;
    }
    proof {
        let l = s@.skip(from as int).map_values(|c: char| ascii_lower(c));
        assert forall|m: int| 0 <= m < wl implies l[m] == word@[m] by {
            assert(s@.skip(from as int)[m] == s@[from + m]);
        }
        assert(l =~= word@);
    }
    true
}

/// Whether `t` parses as a binary64 number (`str::parse::<f64>` succeeds):
/// the grammar of `is_float_literal`, checked directly.
pub fn is_number_token(t: &str) -> (b: bool)
    ensures
        b == is_float_literal(t@),
{
    let len = t.unicode_len();
    let from: usize = if len > 0 && (t.get_char(0) == '+' || t.get_char(0) == '-') {
        1
    } else {
        0
    };
    let ghost b = if t@.len() > 0 && (t@[0] == '+' || t@[0] == '-') {
        t@.skip(1)
    } else {
        t@
    };
    assert(b =~= t@.skip(from as int));
    if lower_is(t, from, "inf") || lower_is(t, from, "infinity") || lower_is(t, from, "nan") {
        return true;
    }
    let d1 = count_digits(t, from);
    proof {
        lemma_digits_skip(t@, from as int, 0);
    }
    let dec = if from + d1 < len && t.get_char(from + d1) == '.' {
        let d2 = count_digits(t, from + d1 + 1);
        proof {
            lemma_digits_skip(t@, from as int, d1 + 1);
        }
        let e = exponent_ok(t, from + d1 + 1 + d2);
        proof {
            lemma_exponent_skip(t@, from as int, (d1 + 1 + d2) as int);
        }
        d1 + d2 >= 1 && e
    } else {
        let e = exponent_ok(t, from + d1);
        proof {
            lemma_exponent_skip(t@, from as int, d1 as int);
        }
        d1 >= 1 && e
    };
    dec
}

proof fn lemma_digits_skip(s: Seq<char>, f: int, i: int)
    requires
        0 <= f <= s.len(),
        0 <= i,
    ensures
        digits_from(s.skip(f), i) == digits_from(s, f + i),
    decreases s.len() - f - i,
{
    if 0 <= i < s.len() - f && is_ascii_digit(s[f + i]) {
        lemma_digits_skip(s, f, i + 1);
    }
}

proof fn lemma_exponent_skip(s: Seq<char>, f: int, i: int)
    requires
        0 <= f <= s.len(),
        0 <= i,
    ensures
        exponent_from(s.skip(f), i) == exponent_from(s, f + i),
{
    let b = s.skip(f);
    if i + 1 < b.len() {
        lemma_digits_skip(s, f, i + 2);
    }
    lemma_digits_skip(s, f, i + 1);
}

/// A token that starts a command: its first character is an ASCII letter
/// other than `e` and `E`.
pub open spec fn is_cmd_token(t: Seq<char>) -> bool {
    t.len() > 0 && is_command_letter(t[0])
}

/// A token of two or more digits and nothing else.
pub open spec fn is_digit_run(t: Seq<char>) -> bool {
    t.len() > 1 && all_digits(t)
}

/// The kinds of path commands.
#[derive(Clone, Copy, Debug, PartialEq, Eq, Structural)]
pub enum SvgKind {
    Move,
    Line,
    Horizontal,
    Vertical,
    Cubic,
    Quad,
    Arc,
    Close,
}

/// How many numbers a command takes.
pub open spec fn arity(k: SvgKind) -> nat {
    match k {
        SvgKind::Move => 2,
        SvgKind::Line => 2,
        SvgKind::Horizontal => 1,
        SvgKind::Vertical => 1,
        SvgKind::Cubic => 6,
        SvgKind::Quad => 4,
        SvgKind::Arc => 7,
        SvgKind::Close => 0,
    }
}

/// The command a token names, upper- or lowercase; `None` for any other
/// token.
pub open spec fn kind_of(t: Seq<char>) -> Option<SvgKind> {
    if t.len() != 1 {
        None
    } else {
        let c = ascii_lower(t[0]);
        if c == 'm' {
            Some(SvgKind::Move)
        } else if c == 'l' {
            Some(SvgKind::Line)
        } else if c == 'h' {
            Some(SvgKind::Horizontal)
        } else if c == 'v' {
            Some(SvgKind::Vertical)
        } else if c == 'c' {
            Some(SvgKind::Cubic)
        } else if c == 'q' {
            Some(SvgKind::Quad)
        } else if c == 'a' {
            Some(SvgKind::Arc)
        } else if c == 'z' {
            Some(SvgKind::Close)
        } else {
            None
        }
    }
}

/// A command written in lowercase takes relative coordinates.
pub open spec fn is_relative(t: Seq<char>) -> bool {
    t.len() > 0 && 'a' <= t[0] && t[0] <= 'z'
}

/// One number of a command: a whole token, or one digit of a run of
/// digits that stands for several numbers (`"00"` for `0 0`).
#[derive(Clone, Copy, Debug, PartialEq, Eq, Structural)]
pub enum SvgArg {
    /// The token at this index.
    Whole(usize),
    /// The digit at the second index of the token at the first.
    Digit(usize, usize),
}

/// One command of the path: its kind, whether it is relative, and its
/// numbers.
#[derive(Debug)]
pub struct SvgCommand {
    pub kind: SvgKind,
    pub relative: bool,
    pub args: Vec<SvgArg>,
}

pub struct SvgCommandSpec {
    pub kind: SvgKind,
    pub relative: bool,
    pub args: Seq<SvgArg>,
}

impl View for SvgCommand {
    type V = SvgCommandSpec;

    open spec fn view(&self) -> SvgCommandSpec {
        SvgCommandSpec { kind: self.kind, relative: self.relative, args: self.args@ }
    }
}

/// Why path data was refused.
#[derive(Clone, Copy, Debug, PartialEq, Eq, Structural)]
pub enum SvgPathError {
    /// The path data is empty.
    Empty,
    /// Numbers come before any command.
    NoCommand,
    /// A command has too few numbers.
    Missing(SvgKind),
    /// The token at this index names no command.
    Unknown(usize),
}

/// How many tokens from `start + k` on are numbers, counting from `k` and
/// stopping at `needed`, at the end, at a command or at a token that does
/// not parse.
pub open spec fn plain_count(ts: Seq<Seq<char>>, start: nat, needed: nat, k: nat) -> nat
    decreases needed - k,
{
    if k >= needed || start + k >= ts.len() || is_cmd_token(ts[start + k as int])
        || !is_float_literal(ts[start + k as int]) {
        k
    } else {
        plain_count(ts, start, needed, k + 1)
    }
}

/// A command reads no further than the last token.
pub proof fn lemma_plain_count_le(ts: Seq<Seq<char>>, start: nat, needed: nat, k: nat)
    requires
        start + k <= ts.len(),
    ensures
        k <= plain_count(ts, start, needed, k) <= ts.len() - start,
    decreases needed - k,
{
    if !(k >= needed || start + k >= ts.len() || is_cmd_token(ts[start + k as int])
        || !is_float_literal(ts[start + k as int])) {
        lemma_plain_count_le(ts, start, needed, k + 1);
    }
}

/// The tokens `start .. start + c`, one number each.
pub open spec fn plain_args(start: nat, c: nat) -> Seq<SvgArg> {
    Seq::new(c, |j: int| SvgArg::Whole((start + j) as usize))
}

/// Each digit of the token at `idx`, `n` digits long, as a number.
pub open spec fn digit_args(idx: nat, n: nat) -> Seq<SvgArg> {
    Seq::new(n, |k: int| SvgArg::Digit(idx as usize, k as usize))
}

/// The numbers of tokens `start .. start + j` when runs of digits are split:
/// a run is split into its digits while they fit in `needed`, every other
/// token is one number.
pub open spec fn split_args(ts: Seq<Seq<char>>, start: nat, needed: nat, j: nat) -> Seq<SvgArg>
    decreases j,
{
    if j == 0 {
        Seq::empty()
    } else {
        let prev = split_args(ts, start, needed, (j - 1) as nat);
        let idx = start + j - 1;
        let t = ts[idx];
        if is_digit_run(t) && prev.len() + t.len() <= needed {
            prev + digit_args(idx as nat, t.len())
        } else {
            prev.push(SvgArg::Whole(idx as usize))
        }
    }
}

/// The numbers read for a command that takes `needed` of them, from token
/// `start` on, and how many tokens they took. When fewer tokens than
/// needed are numbers, runs of digits among them are split if that gives
/// exactly `needed` numbers.
pub open spec fn read_args(ts: Seq<Seq<char>>, start: nat, needed: nat) -> (Seq<SvgArg>, nat) {
    let c = plain_count(ts, start, needed, 0);
    if 0 < c < needed && split_args(ts, start, needed, c).len() == needed {
        (split_args(ts, start, needed, c), c)
    } else {
        (plain_args(start, c), c)
    }
}

/// The outcome of parsing: `None` where parsing never ends (a number right
/// after a close command, which repeats the close without reading it).
pub type SvgParse = Option<Result<Seq<SvgCommandSpec>, SvgPathError>>;

/// Parsing from token `i`, the last command token at `last`, with `acc`
/// parsed so far. A command token starts a command; any other token
/// repeats the last command.
pub open spec fn parse_from(
    ts: Seq<Seq<char>>,
    i: nat,
    last: Option<nat>,
    acc: Seq<SvgCommandSpec>,
) -> SvgParse
    decreases ts.len() - i,
{
    if i >= ts.len() {
        Some(Ok(acc))
    } else {
        let here = is_cmd_token(ts[i as int]);
        let i1: nat = if here {
            i + 1
        } else {
            i
        };
        let last1 = if here {
            Some(i)
        } else {
            last
        };
        match last1 {
            None => Some(Err(SvgPathError::NoCommand)),
            Some(c) => {
                let t = ts[c as int];
                match kind_of(t) {
                    None => Some(Err(SvgPathError::Unknown(c as usize))),
                    Some(k) => {
                        if k == SvgKind::Close {
                            if i1 == i {
                                None
                            } else {
                                parse_from(
                                    ts,
                                    i1,
                                    last1,
                                    acc.push(
                                        SvgCommandSpec {
                                            kind: k,
                                            relative: is_relative(t),
                                            args: Seq::empty(),
                                        },
                                    ),
                                )
                            }
                        } else {
                            let r = read_args(ts, i1, arity(k));
                            proof {
                                lemma_plain_count_le(ts, i1, arity(k), 0);
                            }
                            let short = if k == SvgKind::Arc {
                                r.1 == 0 || r.0.len() < 7
                            } else {
                                r.1 < arity(k)
                            };
                            if short {
                                Some(Err(SvgPathError::Missing(k)))
                            } else {
                                parse_from(
                                    ts,
                                    i1 + r.1,
                                    last1,
                                    acc.push(
                                        SvgCommandSpec { kind: k, relative: is_relative(t), args: r.0 },
                                    ),
                                )
                            }
                        }
                    },
                }
            },
        }
    }
}

/// The commands of tokens `ts`.
pub open spec fn svg_commands(ts: Seq<Seq<char>>) -> SvgParse {
    parse_from(ts, 0, None, Seq::empty())
}

/// The commands of path data `d`: empty data is refused, other data is
/// tokenized and parsed.
pub open spec fn svg_path_commands(d: Seq<char>) -> SvgParse {
    if d.len() == 0 {
        Some(Err(SvgPathError::Empty))
    } else {
        svg_commands(svg_tokens(d))
    }
}

pub open spec fn token_view(ts: Seq<String>) -> Seq<Seq<char>> {
    ts.map_values(|t: String| t@)
}

pub open spec fn commands_view(v: Seq<SvgCommand>) -> Seq<SvgCommandSpec> {
    v.map_values(|c: SvgCommand| c@)
}

/// An executable outcome matches a parse outcome.
pub open spec fn outcome_matches(r: Option<Result<Vec<SvgCommand>, SvgPathError>>, p: SvgParse) -> bool {
    match (r, p) {
        (None, None) => true,
        (Some(Ok(v)), Some(Ok(s))) => commands_view(v@) == s,
        (Some(Err(e)), Some(Err(f))) => e == f,
        _ => false,
    }
}

fn first_is_command(t: &String) -> (b: bool)
    ensures
        b == is_cmd_token(t@),
{
    let s = t.as_str();
    if s.unicode_len() == 0 {
        false
    } else {
        let c = s.get_char(0);
        (('a' <= c && c <= 'z') || ('A' <= c && c <= 'Z')) && c != 'e' && c != 'E'
    }
}

fn digit_run(t: &String) -> (b: bool)
    ensures
        b == is_digit_run(t@),
{
    let s = t.as_str();
    assert(s@ == t@);
    let n = s.unicode_len();
    if n <= 1 {
        return false;
    }
    let mut k: usize = 0;
    while k < n
        invariant
            n == s@.len(),
            s@ == t@,
            k <= n,
            forall|j: int| 0 <= j < k ==> is_ascii_digit(#[trigger] s@[j]),
        decreases n - k,
    {
        let c = s.get_char(k);
        if !('0' <= c && c <= '9') {
            assert(!is_ascii_digit(t@[k as int]));
            return false;
        }
        k = k + 1;
    }
    true
}

fn kind_of_token(t: &String) -> (k: Option<SvgKind>)
    ensures
        k == kind_of(t@),
{
    let s = t.as_str();
    if s.unicode_len() != 1 {
        return None;
    }
    let c = s.get_char(0);
    if c == 'm' || c == 'M' {
        Some(SvgKind::Move)
    } else if c == 'l' || c == 'L' {
        Some(SvgKind::Line)
    } else if c == 'h' || c == 'H' {
        Some(SvgKind::Horizontal)
    } else if c == 'v' || c == 'V' {
        Some(SvgKind::Vertical)
    } else if c == 'c' || c == 'C' {
        Some(SvgKind::Cubic)
    } else if c == 'q' || c == 'Q' {
        Some(SvgKind::Quad)
    } else if c == 'a' || c == 'A' {
        Some(SvgKind::Arc)
    } else if c == 'z' || c == 'Z' {
        Some(SvgKind::Close)
    } else {
        None
    }
}

fn relative_token(t: &String) -> (b: bool)
    ensures
        b == is_relative(t@),
{
    let s = t.as_str();
    if s.unicode_len() == 0 {
        false
    } else {
        let c = s.get_char(0);
        'a' <= c && c <= 'z'
    }
}

fn arity_of(k: SvgKind) -> (n: usize)
    ensures
        n == arity(k),
{
    match k {
        SvgKind::Move => 2,
        SvgKind::Line => 2,
        SvgKind::Horizontal => 1,
        SvgKind::Vertical => 1,
        SvgKind::Cubic => 6,
        SvgKind::Quad => 4,
        SvgKind::Arc => 7,
        SvgKind::Close => 0,
    }
}

/// The numbers of a command that takes `needed` of them, read from token
/// `start` on, and how many tokens they took.
pub fn read_command_args(tokens: &Vec<String>, start: usize, needed: usize) -> (r: (Vec<SvgArg>, usize))
    requires
        start <= tokens@.len(),
        needed <= 7,
    ensures
        r.0@ == read_args(token_view(tokens@), start as nat, needed as nat).0,
        r.1 == read_args(token_view(tokens@), start as nat, needed as nat).1,
        r.1 <= needed,
        start + r.1 <= tokens@.len(),
{
    let ghost ts = token_view(tokens@);
    let n = tokens.len();
    let mut c: usize = 0;
    while c < needed && start + c < n && !first_is_command(&tokens[start + c]) && is_number_token(
        tokens[start + c].as_str(),
    )
        invariant
            n == tokens@.len(),
            ts == token_view(tokens@),
            start <= n,
            c <= needed,
            start + c <= n,
            needed <= 7,
            plain_count(ts, start as nat, needed as nat, c as nat) == plain_count(
                ts,
                start as nat,
                needed as nat,
                0,
            ),
        decreases needed - c,
    {
        c = c + 1;
    }
    assert(plain_count(ts, start as nat, needed as nat, c as nat) == c as nat);
    let mut plain: Vec<SvgArg> = Vec::new();
    let mut j: usize = 0;
    while j < c
        invariant
            j <= c,
            start + c <= n,
            plain@ == plain_args(start as nat, j as nat),
        decreases c - j,
    {
        plain.push(SvgArg::Whole(start + j));
        j = j + 1;
        proof {
            assert(plain@ =~= plain_args(start as nat, j as nat));
        }
    }
    if 0 < c && c < needed {
        let mut split: Vec<SvgArg> = Vec::new();
        let mut j: usize = 0;
        while j < c
            invariant
                n == tokens@.len(),
                ts == token_view(tokens@),
                j <= c,
                c < needed,
                needed <= 7,
                start + c <= n,
                split@ == split_args(ts, start as nat, needed as nat, j as nat),
                split@.len() <= needed + j,
            decreases c - j,
        {
            let idx = start + j;
            let t = &tokens[idx];
            let run = digit_run(t);
            let len = t.as_str().unicode_len();
            proof {
                assert(ts[idx as int] == t@);
            }
            if run && split.len() <= needed && len <= needed - split.len() {
                let mut k: usize = 0;
                let ghost before = split@;
                while k < len
                    invariant
                        k <= len,
                        split@ == before + digit_args(idx as nat, k as nat),
                        before.len() + len <= needed,
                        needed <= 7,
                    decreases len - k,
                {
                    split.push(SvgArg::Digit(idx, k));
                    k = k + 1;
                    proof {
                        assert(split@ =~= before + digit_args(idx as nat, k as nat));
                    }
                }
            } else {
                split.push(SvgArg::Whole(idx));
            }
            j = j + 1;
        }
        if split.len() == needed {
            return (split, c);
        }
    }
    (plain, c)
}

/// Parse tokens of path data into commands. `None` where parsing never
/// ends: a number right after a close command.
pub fn parse_svg_commands(tokens: &Vec<String>) -> (r: Option<Result<Vec<SvgCommand>, SvgPathError>>)
    ensures
        outcome_matches(r, svg_commands(token_view(tokens@))),
{
    let ghost ts = token_view(tokens@);
    let n = tokens.len();
    let mut i: usize = 0;
    let mut last: Option<usize> = None;
    let mut acc: Vec<SvgCommand> = Vec::new();
    assert(commands_view(acc@) =~= Seq::<SvgCommandSpec>::empty());
    while i < n
        invariant
            n == tokens@.len(),
            ts == token_view(tokens@),
            i <= n,
            last matches Some(c) ==> c < n,
            parse_from(ts, i as nat, match last {
                Some(c) => Some(c as nat),
                None => None,
            }, commands_view(acc@)) == svg_commands(ts),
        decreases n - i,
    {
        let here = first_is_command(&tokens[i]);
        let i1 = if here {
            i + 1
        } else {
            i
        };
        let last1 = if here {
            Some(i)
        } else {
            last
        };
        match last1 {
            None => {
                return Some(Err(SvgPathError::NoCommand));
            },
            Some(c) => {
                let t = &tokens[c];
                proof {
                    assert(ts[c as int] == t@);
                }
                match kind_of_token(t) {
                    None => {
                        return Some(Err(SvgPathError::Unknown(c)));
                    },
                    Some(k) => {
                        let rel = relative_token(t);
                        if k == SvgKind::Close {
                            if i1 == i {
                                return None;
                            }
                            let ghost prev = commands_view(acc@);
                            acc.push(SvgCommand { kind: k, relative: rel, args: Vec::new() });
                            proof {
                                assert(commands_view(acc@) =~= prev.push(
                                    SvgCommandSpec { kind: k, relative: rel, args: Seq::empty() },
                                ));
                            }
                            i = i1;
                            last = last1;
                        } else {
                            let need = arity_of(k);
                            let (args, consumed) = read_command_args(tokens, i1, need);
                            let short = if k == SvgKind::Arc {
                                consumed == 0 || args.len() < 7
                            } else {
                                consumed < need
                            };
                            if short {
                                return Some(Err(SvgPathError::Missing(k)));
                            }
                            let ghost prev = commands_view(acc@);
                            let ghost a = args@;
                            acc.push(SvgCommand { kind: k, relative: rel, args });
                            proof {
                                assert(commands_view(acc@) =~= prev.push(
                                    SvgCommandSpec { kind: k, relative: rel, args: a },
                                ));
                            }
                            i = i1 + consumed;
                            last = last1;
                        }
                    },
                }
            },
        }
    }
    Some(Ok(acc))
}

/// Parse SVG path data into commands: empty data is refused; `None` where
/// parsing never ends. The tokens the commands refer to come back with
/// them.
pub fn svg_path_commands_of(d: &str) -> (r: (Vec<String>, Option<Result<Vec<SvgCommand>, SvgPathError>>))
    ensures
        d@.len() > 0 ==> token_view(r.0@) == svg_tokens(d@),
        outcome_matches(r.1, svg_path_commands(d@)),
{
    let tokens = tokenize_svg_path(d);
    proof {
        assert(token_view(tokens@) =~= svg_tokens(d@));
    }
    if d.unicode_len() == 0 {
        return (tokens, Some(Err(SvgPathError::Empty)));
    }
    let r = parse_svg_commands(&tokens);
    (tokens, r)
}

/// Whether an icon's path data parses into commands without an error.
pub fn icon_path_parses(icon: Icon) -> (b: bool)
    ensures
        b == (svg_path_commands(icon_path(icon)) matches Some(Ok(_))),
{
    let (_, r) = svg_path_commands_of(icon.path_data());
    match r {
        Some(Ok(_)) => true,
        _ => false,
    }
}

} // verus!
