use vstd::prelude::*;
use vstd::string::*;
use crate::text::{chars_of, string_of_chars};
use crate::token::{Token, TokenType};

verus! {

/// What `char::is_alphabetic` returns for `c` (the Unicode Alphabetic property).
pub uninterp spec fn alphabetic(c: char) -> bool;

/// What `char::is_alphanumeric` returns for `c` (Alphabetic, or a numeric category).
pub uninterp spec fn alphanumeric(c: char) -> bool;

/// An ASCII letter.
pub open spec fn ascii_letter(c: char) -> bool {
    (0x41 <= (c as u32) <= 0x5A) || (0x61 <= (c as u32) <= 0x7A)
}

/// An ASCII decimal digit.
pub open spec fn ascii_digit(c: char) -> bool {
    0x30 <= (c as u32) <= 0x39
}

/// The Unicode White_Space property: the code points that `char::is_whitespace` accepts.
pub open spec fn white_space(c: char) -> bool {
    let v = c as u32;
    (0x09 <= v <= 0x0D) || v == 0x20 || v == 0x85 || v == 0xA0 || v == 0x1680 || (0x2000 <= v
        <= 0x200A) || v == 0x2028 || v == 0x2029 || v == 0x202F || v == 0x205F || v == 0x3000
}

/// A letter, as `char::is_alphabetic` has it: within ASCII exactly the letters.
pub open spec fn letter(c: char) -> bool {
    if (c as u32) < 0x80 {
        ascii_letter(c)
    } else {
        alphabetic(c)
    }
}

/// A letter or a number, as `char::is_alphanumeric` has it: within ASCII exactly the letters
/// and the decimal digits.
pub open spec fn letter_or_digit(c: char) -> bool {
    if (c as u32) < 0x80 {
        ascii_letter(c) || ascii_digit(c)
    } else {
        alphanumeric(c)
    }
}

/// Tests `c` for the Unicode White_Space property, as `char::is_whitespace` does.
fn char_is_whitespace(c: char) -> (r: bool)
    ensures
        r == white_space(c),
{
    let v = c as u32;
    (0x09 <= v && v <= 0x0D) || v == 0x20 || v == 0x85 || v == 0xA0 || v == 0x1680 || (0x2000 <= v
        && v <= 0x200A) || v == 0x2028 || v == 0x2029 || v == 0x202F || v == 0x205F || v == 0x3000
}

/// Calls `char::is_alphabetic`. Its result is named `alphabetic(c)`; within ASCII it holds of
/// the letters `A`-`Z` and `a`-`z` and of nothing else, as its documentation (the Unicode
/// Alphabetic property) and its source (an ASCII arm for the two letter ranges) show. Beyond
/// ASCII nothing more is claimed.
#[verifier::external_body]
fn char_is_alphabetic(c: char) -> (r: bool)
    ensures
        r == alphabetic(c),
        (c as u32) < 0x80 ==> (r <==> ascii_letter(c)),
{
    c.is_alphabetic()
}

/// Calls `char::is_alphanumeric`, which its documentation defines as `is_alphabetic` or
/// `is_numeric`. Its result is named `alphanumeric(c)`; within ASCII it holds of the letters
/// and the digits `0`-`9` and of nothing else, and it holds of every alphabetic character.
/// Beyond ASCII nothing more is claimed.
#[verifier::external_body]
fn char_is_alphanumeric(c: char) -> (r: bool)
    ensures
        r == alphanumeric(c),
        alphabetic(c) ==> r,
        (c as u32) < 0x80 ==> (r <==> (ascii_letter(c) || ascii_digit(c))),
{
    c.is_alphanumeric()
}

/// The number of bytes `c` takes in UTF-8.
pub open spec fn utf8_len(c: char) -> int {
    if (c as u32) < 0x80 {
        1
    } else if (c as u32) < 0x800 {
        2
    } else if (c as u32) < 0x10000 {
        3
    } else {
        4
    }
}

/// Where the first `n` bytes of the UTF-8 text of `cs` from position `j` end: the position of
/// the character after them, or `None` where the `n`-th byte falls inside a character (or
/// past the end).
pub open spec fn byte_cut(cs: Seq<char>, j: int, n: int) -> Option<int>
    decreases n,
{
    if n <= 0 {
        Some(j)
    } else if 0 <= j < cs.len() && utf8_len(cs[j]) <= n {
        byte_cut(cs, j + 1, n - utf8_len(cs[j]))
    } else {
        None
    }
}

/// The view of a token: kind, text, line.
pub type TokenView = (TokenType, Seq<char>, u32);

/// The views of a sequence of tokens.
pub open spec fn tokens_view(ts: Seq<Token>) -> Seq<TokenView> {
    ts.map_values(|t: Token| t@)
}

/// The number of line breaks in `s`.
pub open spec fn count_newlines(s: Seq<char>) -> nat
    decreases s.len(),
{
    if s.len() == 0 {
        0
    } else {
        count_newlines(s.drop_last()) + if s.last() == '\n' {
            1nat
        } else {
            0nat
        }
    }
}

/// The end of the run of alphanumeric characters that starts at `j`.
pub open spec fn word_end(cs: Seq<char>, j: int) -> int
    decreases cs.len() - j,
{
    if 0 <= j < cs.len() && letter_or_digit(cs[j]) {
        word_end(cs, j + 1)
    } else {
        j
    }
}

/// Scans the rest of a quoted string whose opening quote stands before `j`: the position
/// after the closing quote and the line reached, or, where the input ends first, the line
/// reached. A doubled quote stands for a quote and does not close the string.
pub open spec fn string_end(cs: Seq<char>, j: int, line: nat) -> Result<(int, nat), nat>
    decreases cs.len() - j,
{
    if j < 0 || j >= cs.len() {
        Err(line)
    } else if cs[j] == '\'' {
        if j + 1 < cs.len() && cs[j + 1] == '\'' {
            string_end(cs, j + 2, line)
        } else {
            Ok((j + 1, line))
        }
    } else if cs[j] == '\n' {
        string_end(cs, j + 1, line + 1)
    } else {
        string_end(cs, j + 1, line)
    }
}

/// Scans the rest of a block comment opened before `j`: the position after its closing `|#`
/// (or the end of the input) and the line reached.
pub open spec fn block_end(cs: Seq<char>, j: int, line: nat) -> (int, nat)
    decreases cs.len() - j,
{
    if j < 0 || j >= cs.len() {
        (cs.len() as int, line)
    } else if cs[j] == '\n' {
        block_end(cs, j + 1, line + 1)
    } else if cs[j] == '|' && j + 1 < cs.len() && cs[j + 1] == '#' {
        (j + 2, line)
    } else {
        block_end(cs, j + 1, line)
    }
}

/// The position of the first line break at or after `j` (or the end of the input).
pub open spec fn line_end(cs: Seq<char>, j: int) -> int
    decreases cs.len() - j,
{
    if 0 <= j < cs.len() && cs[j] != '\n' {
        line_end(cs, j + 1)
    } else {
        j
    }
}

/// The kind of a word: one of the four section keywords, or an identifier.
pub open spec fn word_kind(w: Seq<char>) -> TokenType {
    if w == "Queries"@ {
        TokenType::Queries
    } else if w == "Rules"@ {
        TokenType::Rules
    } else if w == "Schemes"@ {
        TokenType::Schemes
    } else if w == "Facts"@ {
        TokenType::Facts
    } else {
        TokenType::Id
    }
}

/// The kind of a one-character token other than `:`.
pub open spec fn punct_kind(c: char) -> TokenType {
    if c == ',' {
        TokenType::Comma
    } else if c == '.' {
        TokenType::Period
    } else if c == '?' {
        TokenType::QMark
    } else if c == '(' {
        TokenType::LeftParen
    } else if c == ')' {
        TokenType::RightParen
    } else {
        TokenType::Undefined
    }
}

/// One step of the scanner at position `i < cs.len()` on line `line`: the next position, the
/// line reached and the token read, if any; or what stopped the scan, and on which line.
///
/// A word starts with a letter and runs on over letters and digits; all of it is passed over,
/// but its text is the first letter followed by as many bytes of the UTF-8 text after it as the
/// run has characters after the first. Where those bytes end inside a character the scan stops.
pub open spec fn scan_step(cs: Seq<char>, i: int, line: nat) -> Result<(int, nat, Option<(TokenType, Seq<char>, nat)>), (ScanErrorKind, nat)> {
    let c = cs[i];
    if c == '\n' {
        Ok((i + 1, line + 1, None))
    } else if white_space(c) {
        Ok((i + 1, line, None))
    } else if letter(c) {
        let e = word_end(cs, i + 1);
        match byte_cut(cs, i + 1, e - (i + 1)) {
            None => Err((ScanErrorKind::SplitCharacter, line)),
            Some(p) => {
                let w = cs.subrange(i, p);
                Ok((e, line, Some((word_kind(w), w, line))))
            },
        }
    } else if c == '\'' {
        match string_end(cs, i + 1, line) {
            Err(l) => Err((ScanErrorKind::UnterminatedString, l)),
            Ok((e, l)) => Ok((e, l, Some((TokenType::String, cs.subrange(i, e), l)))),
        }
    } else if c == '#' {
        if i + 1 < cs.len() && cs[i + 1] == '|' {
            let (e, l) = block_end(cs, i + 2, line);
            Ok((e, l, None))
        } else {
            Ok((line_end(cs, i + 1), line, None))
        }
    } else if c == ':' {
        if i + 1 < cs.len() && cs[i + 1] == '-' {
            Ok((i + 2, line, Some((TokenType::ColonDash, ":-"@, line))))
        } else {
            Ok((i + 1, line, Some((TokenType::Colon, seq![c], line))))
        }
    } else {
        Ok((i + 1, line, Some((punct_kind(c), seq![c], line))))
    }
}

proof fn lemma_word_end(cs: Seq<char>, j: int)
    requires
        0 <= j <= cs.len(),
    ensures
        j <= word_end(cs, j) <= cs.len(),
    decreases cs.len() - j,
{
    if j < cs.len() && letter_or_digit(cs[j]) {
        lemma_word_end(cs, j + 1);
    }
}

proof fn lemma_string_end(cs: Seq<char>, j: int, line: nat)
    requires
        0 <= j,
    ensures
        string_end(cs, j, line) matches Ok((e, l)) ==> j < e <= cs.len(),
    decreases cs.len() - j,
{
    if j < cs.len() {
        if cs[j] == '\'' {
            if j + 1 < cs.len() && cs[j + 1] == '\'' {
                lemma_string_end(cs, j + 2, line);
            }
        } else if cs[j] == '\n' {
            lemma_string_end(cs, j + 1, line + 1);
        } else {
            lemma_string_end(cs, j + 1, line);
        }
    }
}

proof fn lemma_block_end(cs: Seq<char>, j: int, line: nat)
    requires
        0 <= j <= cs.len(),
    ensures
        j <= block_end(cs, j, line).0 <= cs.len(),
    decreases cs.len() - j,
{
    if j < cs.len() {
        if cs[j] == '\n' {
            lemma_block_end(cs, j + 1, line + 1);
        } else if cs[j] == '|' && j + 1 < cs.len() && cs[j + 1] == '#' {
        } else {
            lemma_block_end(cs, j + 1, line);
        }
    }
}

proof fn lemma_line_end(cs: Seq<char>, j: int)
    requires
        0 <= j <= cs.len(),
    ensures
        j <= line_end(cs, j) <= cs.len(),
    decreases cs.len() - j,
{
    if j < cs.len() && cs[j] != '\n' {
        lemma_line_end(cs, j + 1);
    }
}

/// Every step of the scanner moves forward and stays within the input.
pub proof fn lemma_scan_step_advances(cs: Seq<char>, i: int, line: nat)
    requires
        0 <= i < cs.len(),
    ensures
        scan_step(cs, i, line) matches Ok((j, l, t)) ==> i < j <= cs.len(),
{
    lemma_word_end(cs, i + 1);
    lemma_byte_cut(cs, i + 1, word_end(cs, i + 1) - (i + 1));
    lemma_string_end(cs, i + 1, line);
    if i + 2 <= cs.len() {
        lemma_block_end(cs, i + 2, line);
    }
    lemma_line_end(cs, i + 1);
}

/// The tokens read from position `i` on line `line` to the end, closed by an `End` token;
/// or what stopped the scan, and on which line.
pub open spec fn scan_from(cs: Seq<char>, i: int, line: nat) -> Result<Seq<(TokenType, Seq<char>, nat)>, (ScanErrorKind, nat)>
    decreases cs.len() - i,
{
    if i < 0 || i >= cs.len() {
        Ok(seq![(TokenType::End, "EOF"@, line)])
    } else {
        match scan_step(cs, i, line) {
            Err(l) => Err(l),
            Ok((j, l, t)) => {
                proof {
                    lemma_scan_step_advances(cs, i, line);
                }
                match scan_from(cs, j, l) {
                    Err(e) => Err(e),
                    Ok(rest) => match t {
                        Some(tok) => Ok(seq![tok] + rest),
                        None => Ok(rest),
                    },
                }
            }
        }
    }
}

/// The tokens of a whole input, which starts on line 1.
pub open spec fn scan(cs: Seq<char>) -> Result<Seq<(TokenType, Seq<char>, nat)>, (ScanErrorKind, nat)> {
    scan_from(cs, 0, 1)
}

/// A token view with its line as a number.
pub open spec fn token_nat(t: TokenView) -> (TokenType, Seq<char>, nat) {
    (t.0, t.1, t.2 as nat)
}

/// What stops a scan.
#[derive(Clone, Copy, Debug, PartialEq, Eq, Structural)]
pub enum ScanErrorKind {
    /// A quoted string is still open at the end of the input.
    UnterminatedString,
    /// The text of a word would end inside a character.
    SplitCharacter,
}

/// What stopped a scan, and the line: the line the input ends on for an open string, the line
/// of the word for a split character.
pub struct ScanError {
    pub kind: ScanErrorKind,
    pub line: u32,
}

proof fn lemma_newline_step(cs: Seq<char>, k: int)
    requires
        0 <= k < cs.len(),
    ensures
        count_newlines(cs.take(k + 1)) == count_newlines(cs.take(k)) + if cs[k] == '\n' {
            1nat
        } else {
            0nat
        },
{
    assert(cs.take(k + 1).drop_last() =~= cs.take(k));
}

proof fn lemma_newlines_prefix(cs: Seq<char>, k: int)
    requires
        0 <= k <= cs.len(),
    ensures
        count_newlines(cs.take(k)) <= count_newlines(cs),
    decreases cs.len() - k,
{
    if k < cs.len() {
        lemma_newline_step(cs, k);
        lemma_newlines_prefix(cs, k + 1);
    } else {
        assert(cs.take(k) =~= cs);
    }
}

/// Keeps the line count within `u32` across one character.
proof fn lemma_line_bound(cs: Seq<char>, k: int, line: nat)
    requires
        0 <= k < cs.len(),
        line <= 1 + count_newlines(cs.take(k)),
        1 + count_newlines(cs) <= u32::MAX,
    ensures
        cs[k] == '\n' ==> line + 1 <= 1 + count_newlines(cs.take(k + 1)) && line + 1 <= u32::MAX,
        line <= 1 + count_newlines(cs.take(k + 1)),
        count_newlines(cs.take(k + 1)) <= count_newlines(cs),
{
    lemma_newline_step(cs, k);
    lemma_newlines_prefix(cs, k + 1);
}

proof fn lemma_byte_cut(cs: Seq<char>, j: int, n: int)
    requires
        0 <= j <= cs.len(),
    ensures
        byte_cut(cs, j, n) matches Some(p) ==> j <= p <= cs.len(),
    decreases n,
{
    if n > 0 && j < cs.len() && utf8_len(cs[j]) <= n {
        lemma_byte_cut(cs, j + 1, n - utf8_len(cs[j]));
    }
}

fn exec_utf8_len(c: char) -> (r: usize)
    ensures
        r as int == utf8_len(c),
{
    let v = c as u32;
    if v < 0x80 {
        1
    } else if v < 0x800 {
        2
    } else if v < 0x10000 {
        3
    } else {
        4
    }
}

fn exec_byte_cut(cs: &Vec<char>, j: usize, n: usize) -> (r: Option<usize>)
    requires
        j <= cs.len(),
    ensures
        match r {
            Some(p) => byte_cut(cs@, j as int, n as int) == Some(p as int),
            None => byte_cut(cs@, j as int, n as int) is None,
        },
        r matches Some(p) ==> j <= p <= cs.len(),
{
    let mut k = j;
    let mut rem = n;
    proof {
        lemma_byte_cut(cs@, j as int, n as int);
    }
    while rem > 0
        invariant
            j <= k <= cs.len(),
            byte_cut(cs@, j as int, n as int) == byte_cut(cs@, k as int, rem as int),
        decreases rem,
    {
        if k < cs.len() {
            let b = exec_utf8_len(cs[k]);
            if b <= rem {
                rem = rem - b;
                k = k + 1;
            } else {
                return None;
            }
        } else {
            return None;
        }
    }
    proof {
        lemma_byte_cut(cs@, j as int, n as int);
    }
    Some(k)
}

fn exec_word_end(cs: &Vec<char>, j: usize) -> (e: usize)
    requires
        j <= cs.len(),
    ensures
        e as int == word_end(cs@, j as int),
        j <= e <= cs.len(),
{
    let mut k = j;
    while k < cs.len() && char_is_alphanumeric(cs[k])
        invariant
            j <= k <= cs.len(),
            word_end(cs@, j as int) == word_end(cs@, k as int),
        decreases cs.len() - k,
    {
        k = k + 1;
    }
    k
}

fn exec_string_end(cs: &Vec<char>, j: usize, line: u32) -> (r: Result<(usize, u32), u32>)
    requires
        j <= cs.len(),
        line <= 1 + count_newlines(cs@.take(j as int)),
        1 + count_newlines(cs@) <= u32::MAX,
    ensures
        match r {
            Ok((e, l)) => string_end(cs@, j as int, line as nat) == Ok::<(int, nat), nat>((e as int, l as nat))
                && l <= 1 + count_newlines(cs@.take(e as int)) && j < e <= cs.len(),
            Err(l) => string_end(cs@, j as int, line as nat) == Err::<(int, nat), nat>(l as nat),
        },
{
    let mut k = j;
    let mut l = line;
    while k < cs.len()
        invariant
            j <= k <= cs.len(),
            l <= 1 + count_newlines(cs@.take(k as int)),
            1 + count_newlines(cs@) <= u32::MAX,
            string_end(cs@, j as int, line as nat) == string_end(cs@, k as int, l as nat),
        decreases cs.len() - k,
    {
        proof {
            lemma_line_bound(cs@, k as int, l as nat);
        }
        if cs[k] == '\'' {
            if k + 1 < cs.len() && cs[k + 1] == '\'' {
                proof {
                    lemma_line_bound(cs@, k + 1, l as nat);
                }
                k = k + 2;
            } else {
                proof {
                    lemma_string_end(cs@, j as int, line as nat);
                }
                return Ok((k + 1, l));
            }
        } else if cs[k] == '\n' {
            l = l + 1;
            k = k + 1;
        } else {
            k = k + 1;
        }
    }
    Err(l)
}

fn exec_block_end(cs: &Vec<char>, j: usize, line: u32) -> (r: (usize, u32))
    requires
        j <= cs.len(),
        line <= 1 + count_newlines(cs@.take(j as int)),
        1 + count_newlines(cs@) <= u32::MAX,
    ensures
        block_end(cs@, j as int, line as nat) == (r.0 as int, r.1 as nat),
        r.1 <= 1 + count_newlines(cs@.take(r.0 as int)),
        j <= r.0 <= cs.len(),
{
    let mut k = j;
    let mut l = line;
    while k < cs.len()
        invariant
            j <= k <= cs.len(),
            l <= 1 + count_newlines(cs@.take(k as int)),
            1 + count_newlines(cs@) <= u32::MAX,
            block_end(cs@, j as int, line as nat) == block_end(cs@, k as int, l as nat),
        decreases cs.len() - k,
    {
        proof {
            lemma_line_bound(cs@, k as int, l as nat);
        }
        if cs[k] == '\n' {
            l = l + 1;
            k = k + 1;
        } else if cs[k] == '|' && k + 1 < cs.len() && cs[k + 1] == '#' {
            proof {
                lemma_line_bound(cs@, k + 1, l as nat);
            }
            return (k + 2, l);
        } else {
            k = k + 1;
        }
    }
    (k, l)
}

fn exec_line_end(cs: &Vec<char>, j: usize) -> (e: usize)
    requires
        j <= cs.len(),
    ensures
        e as int == line_end(cs@, j as int),
        j <= e <= cs.len(),
{
    let mut k = j;
    while k < cs.len() && cs[k] != '\n'
        invariant
            j <= k <= cs.len(),
            line_end(cs@, j as int) == line_end(cs@, k as int),
        decreases cs.len() - k,
    {
        k = k + 1;
    }
    k
}

fn keyword_or_id(w: &String) -> (t: TokenType)
    ensures
        t == word_kind(w@),
{
    if *w == String::from_str("Queries") {
        TokenType::Queries
    } else if *w == String::from_str("Rules") {
        TokenType::Rules
    } else if *w == String::from_str("Schemes") {
        TokenType::Schemes
    } else if *w == String::from_str("Facts") {
        TokenType::Facts
    } else {
        TokenType::Id
    }
}

fn exec_punct_kind(c: char) -> (t: TokenType)
    ensures
        t == punct_kind(c),
{
    if c == ',' {
        TokenType::Comma
    } else if c == '.' {
        TokenType::Period
    } else if c == '?' {
        TokenType::QMark
    } else if c == '(' {
        TokenType::LeftParen
    } else if c == ')' {
        TokenType::RightParen
    } else {
        TokenType::Undefined
    }
}

/// The result of the scan from a point on, given the tokens read before it.
pub open spec fn after(read: Seq<TokenView>, rest: Result<Seq<(TokenType, Seq<char>, nat)>, (ScanErrorKind, nat)>) -> Result<Seq<(TokenType, Seq<char>, nat)>, (ScanErrorKind, nat)> {
    match rest {
        Ok(r) => Ok(read.map_values(|t: TokenView| token_nat(t)) + r),
        Err(e) => Err(e),
    }
}

/// A token read, with its line as a number.
pub open spec fn opt_nat(t: Option<TokenView>) -> Option<(TokenType, Seq<char>, nat)> {
    match t {
        Some(tok) => Some(token_nat(tok)),
        None => None,
    }
}

/// The tokens read, with one more where there is one.
pub open spec fn push_opt(read: Seq<TokenView>, t: Option<TokenView>) -> Seq<TokenView> {
    match t {
        Some(tok) => read.push(tok),
        None => read,
    }
}

proof fn lemma_newlines_mono(cs: Seq<char>, k: int, m: int)
    requires
        0 <= k <= m <= cs.len(),
    ensures
        count_newlines(cs.take(k)) <= count_newlines(cs.take(m)),
    decreases m - k,
{
    if k < m {
        lemma_newline_step(cs, m - 1);
        lemma_newlines_mono(cs, k, m - 1);
    }
}

proof fn lemma_advance(
    cs: Seq<char>,
    i: int,
    l: nat,
    read: Seq<TokenView>,
    j: int,
    l2: nat,
    t: Option<TokenView>,
)
    requires
        0 <= i < cs.len(),
        scan_step(cs, i, l) == Ok::<(int, nat, Option<(TokenType, Seq<char>, nat)>), (ScanErrorKind, nat)>((j, l2, opt_nat(t))),
    ensures
        after(push_opt(read, t), scan_from(cs, j, l2)) == after(read, scan_from(cs, i, l)),
{
    lemma_scan_step_advances(cs, i, l);
    let f = |x: TokenView| token_nat(x);
    match scan_from(cs, j, l2) {
        Ok(rest) => {
            match t {
                Some(tok) => {
                    assert(read.push(tok).map_values(f) =~= read.map_values(f).push(token_nat(tok)));
                    assert(read.map_values(f).push(token_nat(tok)) + rest =~= read.map_values(f) + (seq![token_nat(tok)] + rest));
                },
                None => {},
            }
        },
        Err(e) => {},
    }
}

/// Splits a Datalog program into tokens. Line breaks, white space and comments (`#` to the
/// end of the line, or `#|` to `|#`) separate tokens; words are identifiers or section
/// keywords; quoted strings keep their quotes; the list closes with `End`. A string left open
/// at the end of the input is an error, reported with the line reached. The text of a word is
/// its first letter followed by as many bytes of what comes after it as the word has further
/// characters, so that a word with a character of more than one byte after its first loses
/// part of its text; where that count of bytes ends inside a character the scan stops with an
/// error on the word's line.
pub fn scanner(file_contents: String) -> (r: Result<Vec<Token>, ScanError>)
    requires
        1 + count_newlines(file_contents@) <= u32::MAX,
    ensures
        match r {
            Ok(ts) => scan(file_contents@) == Ok::<Seq<(TokenType, Seq<char>, nat)>, (ScanErrorKind, nat)>(
                tokens_view(ts@).map_values(|t: TokenView| token_nat(t)),
            ),
            Err(e) => scan(file_contents@) == Err::<Seq<(TokenType, Seq<char>, nat)>, (ScanErrorKind, nat)>(
                (e.kind, e.line as nat),
            ),
        },
        r matches Ok(ts) ==> ts@.len() > 0 && ts@.last().t_type == TokenType::End,
{
    let cs = chars_of(&file_contents);
    let mut i: usize = 0;
    let mut lines: u32 = 1;
    let mut tokens: Vec<Token> = Vec::new();
    assert(cs@.take(0) =~= Seq::<char>::empty());
    assert(tokens_view(tokens@) =~= Seq::<TokenView>::empty());
    assert(after(tokens_view(tokens@), scan_from(cs@, 0, 1)) =~= scan_from(cs@, 0, 1));
    while i < cs.len()
        invariant
            cs@ == file_contents@,
            i <= cs.len(),
            lines <= 1 + count_newlines(cs@.take(i as int)),
            1 + count_newlines(cs@) <= u32::MAX,
            scan(cs@) == after(tokens_view(tokens@), scan_from(cs@, i as int, lines as nat)),
        decreases cs.len() - i,
    {
        let ghost read = tokens_view(tokens@);
        let ghost i0 = i as int;
        let ghost l0 = lines as nat;
        proof {
            lemma_line_bound(cs@, i as int, lines as nat);
            lemma_scan_step_advances(cs@, i as int, lines as nat);
        }
        let c = cs[i];
        if c == '\n' {
            lines = lines + 1;
            i = i + 1;
            proof {
                lemma_advance(cs@, i0, l0, read, i as int, lines as nat, None);
            }
        } else if char_is_whitespace(c) {
            i = i + 1;
            proof {
                lemma_advance(cs@, i0, l0, read, i as int, lines as nat, None);
            }
        } else if char_is_alphabetic(c) {
            let e = exec_word_end(&cs, i + 1);
            let p = match exec_byte_cut(&cs, i + 1, e - (i + 1)) {
                None => {
                    return Err(ScanError { kind: ScanErrorKind::SplitCharacter, line: lines });
                },
                Some(p) => p,
            };
            let word = string_of_chars(&cs, i, p);
            let t_type = keyword_or_id(&word);
            let tok = Token { t_type, value: word, line: lines };
            let ghost tv = tok@;
            tokens.push(tok);
            assert(tokens_view(tokens@) =~= read.push(tv));
            i = e;
            proof {
                lemma_newlines_mono(cs@, i0 + 1, i as int);
                lemma_advance(cs@, i0, l0, read, i as int, lines as nat, Some(tv));
            }
        } else if c == '\'' {
            match exec_string_end(&cs, i + 1, lines) {
                Err(l) => {
                    return Err(ScanError { kind: ScanErrorKind::UnterminatedString, line: l });
                },
                Ok((e, l)) => {
                    let value = string_of_chars(&cs, i, e);
                    let tok = Token { t_type: TokenType::String, value, line: l };
                    let ghost tv = tok@;
                    tokens.push(tok);
                    assert(tokens_view(tokens@) =~= read.push(tv));
                    i = e;
                    lines = l;
                    proof {
                        lemma_advance(cs@, i0, l0, read, i as int, lines as nat, Some(tv));
                    }
                },
            }
        } else if c == '#' {
            if i + 1 < cs.len() && cs[i + 1] == '|' {
                proof {
                    lemma_line_bound(cs@, i0 + 1, l0);
                }
                let (e, l) = exec_block_end(&cs, i + 2, lines);
                i = e;
                lines = l;
            } else {
                let e = exec_line_end(&cs, i + 1);
                i = e;
                proof {
                    lemma_newlines_mono(cs@, i0 + 1, i as int);
                }
            }
            proof {
                lemma_advance(cs@, i0, l0, read, i as int, lines as nat, None);
            }
        } else {
            let tok;
            if c == ':' && i + 1 < cs.len() && cs[i + 1] == '-' {
                proof {
                    lemma_line_bound(cs@, i0 + 1, l0);
                }
                tok = Token { t_type: TokenType::ColonDash, value: String::from_str(":-"), line: lines };
                i = i + 2;
            } else {
                let value = string_of_chars(&cs, i, i + 1);
                assert(value@ =~= seq![c]);
                let t_type = if c == ':' {
                    TokenType::Colon
                } else {
                    exec_punct_kind(c)
                };
                tok = Token { t_type, value, line: lines };
                i = i + 1;
            }
            let ghost tv = tok@;
            tokens.push(tok);
            assert(tokens_view(tokens@) =~= read.push(tv));
            proof {
                lemma_advance(cs@, i0, l0, read, i as int, lines as nat, Some(tv));
            }
        }
    }
    let ghost read = tokens_view(tokens@);
    let tok = Token { t_type: TokenType::End, value: String::from_str("EOF"), line: lines };
    let ghost tv = tok@;
    tokens.push(tok);
    assert(tokens_view(tokens@) =~= read.push(tv));
    let ghost f = |x: TokenView| token_nat(x);
    assert(read.push(tv).map_values(f) =~= read.map_values(f) + seq![token_nat(tv)]);
    Ok(tokens)
}

/// The number of line breaks among the characters at positions `i` up to `j`.
pub open spec fn newlines_between(cs: Seq<char>, i: int, j: int) -> nat
    decreases j - i,
{
    if i >= j {
        0
    } else {
        newlines_between(cs, i, j - 1) + if cs[j - 1] == '\n' {
            1nat
        } else {
            0nat
        }
    }
}

proof fn lemma_between_add(cs: Seq<char>, i: int, j: int, k: int)
    requires
        i <= j <= k,
    ensures
        newlines_between(cs, i, k) == newlines_between(cs, i, j) + newlines_between(cs, j, k),
    decreases k - j,
{
    if j < k {
        lemma_between_add(cs, i, j, k - 1);
    }
}

proof fn lemma_between_first(cs: Seq<char>, i: int, k: int)
    requires
        i < k,
    ensures
        newlines_between(cs, i, k) == newlines_between(cs, i + 1, k) + if cs[i] == '\n' {
            1nat
        } else {
            0nat
        },
{
    lemma_between_add(cs, i, i + 1, k);
    assert(newlines_between(cs, i, i + 1) == newlines_between(cs, i, i) + if cs[i] == '\n' {
        1nat
    } else {
        0nat
    });
}

proof fn lemma_between_prefix(cs: Seq<char>, k: int)
    requires
        0 <= k <= cs.len(),
    ensures
        newlines_between(cs, 0, k) == count_newlines(cs.take(k)),
    decreases k,
{
    if k > 0 {
        lemma_between_prefix(cs, k - 1);
        lemma_newline_step(cs, k - 1);
    } else {
        assert(cs.take(0) =~= Seq::<char>::empty());
    }
}

proof fn lemma_word_no_newline(cs: Seq<char>, j: int)
    requires
        0 <= j <= cs.len(),
    ensures
        newlines_between(cs, j, word_end(cs, j)) == 0,
    decreases cs.len() - j,
{
    lemma_word_end(cs, j);
    if j < cs.len() && letter_or_digit(cs[j]) {
        lemma_word_no_newline(cs, j + 1);
        lemma_word_end(cs, j + 1);
        assert(cs[j] != '\n');
        lemma_between_first(cs, j, word_end(cs, j));
    }
}

proof fn lemma_line_end_no_newline(cs: Seq<char>, j: int)
    requires
        0 <= j <= cs.len(),
    ensures
        newlines_between(cs, j, line_end(cs, j)) == 0,
    decreases cs.len() - j,
{
    lemma_line_end(cs, j);
    if j < cs.len() && cs[j] != '\n' {
        lemma_line_end_no_newline(cs, j + 1);
        lemma_line_end(cs, j + 1);
        lemma_between_first(cs, j, line_end(cs, j));
    }
}

proof fn lemma_string_lines(cs: Seq<char>, j: int, line: nat)
    requires
        0 <= j,
    ensures
        string_end(cs, j, line) matches Ok((e, l)) ==> l == line + newlines_between(cs, j, e),
    decreases cs.len() - j,
{
    lemma_string_end(cs, j, line);
    if j < cs.len() {
        if cs[j] == '\'' {
            if j + 1 < cs.len() && cs[j + 1] == '\'' {
                lemma_string_lines(cs, j + 2, line);
                lemma_string_end(cs, j + 2, line);
                if let Ok((e, l)) = string_end(cs, j, line) {
                    lemma_between_first(cs, j, e);
                    lemma_between_first(cs, j + 1, e);
                }
            } else {
                lemma_between_first(cs, j, j + 1);
            }
        } else if cs[j] == '\n' {
            lemma_string_lines(cs, j + 1, line + 1);
            if let Ok((e, l)) = string_end(cs, j, line) {
                lemma_between_first(cs, j, e);
            }
        } else {
            lemma_string_lines(cs, j + 1, line);
            if let Ok((e, l)) = string_end(cs, j, line) {
                lemma_between_first(cs, j, e);
            }
        }
    }
}

proof fn lemma_block_lines(cs: Seq<char>, j: int, line: nat)
    requires
        0 <= j <= cs.len(),
    ensures
        block_end(cs, j, line).1 == line + newlines_between(cs, j, block_end(cs, j, line).0),
    decreases cs.len() - j,
{
    lemma_block_end(cs, j, line);
    if j < cs.len() {
        let e = block_end(cs, j, line).0;
        if cs[j] == '\n' {
            lemma_block_lines(cs, j + 1, line + 1);
            lemma_block_end(cs, j + 1, line + 1);
            lemma_between_first(cs, j, e);
        } else if cs[j] == '|' && j + 1 < cs.len() && cs[j + 1] == '#' {
            lemma_between_first(cs, j, j + 2);
            lemma_between_first(cs, j + 1, j + 2);
        } else {
            lemma_block_lines(cs, j + 1, line);
            lemma_block_end(cs, j + 1, line);
            lemma_between_first(cs, j, e);
        }
    }
}

proof fn lemma_step_lines(cs: Seq<char>, i: int, line: nat)
    requires
        0 <= i < cs.len(),
    ensures
        scan_step(cs, i, line) matches Ok((j, l, t)) ==> l == line + newlines_between(cs, i, j),
{
    lemma_scan_step_advances(cs, i, line);
    let c = cs[i];
    if let Ok((j, l, t)) = scan_step(cs, i, line) {
        lemma_between_first(cs, i, j);
        if c == '\n' {
        } else if white_space(c) {
        } else if letter(c) {
            lemma_word_no_newline(cs, i + 1);
        } else if c == '\'' {
            lemma_string_lines(cs, i + 1, line);
        } else if c == '#' {
            if i + 1 < cs.len() && cs[i + 1] == '|' {
                lemma_block_lines(cs, i + 2, line);
                lemma_block_end(cs, i + 2, line);
                lemma_between_first(cs, i + 1, j);
                lemma_between_first(cs, i + 1, i + 2);
                lemma_between_add(cs, i + 1, i + 2, j);
            } else {
                lemma_line_end_no_newline(cs, i + 1);
            }
        } else if c == ':' && i + 1 < cs.len() && cs[i + 1] == '-' {
            lemma_between_first(cs, i + 1, j);
        }
    }
}

proof fn lemma_scan_from_end(cs: Seq<char>, i: int, line: nat)
    requires
        0 <= i <= cs.len(),
    ensures
        scan_from(cs, i, line) matches Ok(ts) ==> ts.len() > 0 && ts.last() == (
            TokenType::End,
            "EOF"@,
            line + newlines_between(cs, i, cs.len() as int),
        ),
    decreases cs.len() - i,
{
    if i < cs.len() {
        lemma_scan_step_advances(cs, i, line);
        lemma_step_lines(cs, i, line);
        if let Ok((j, l, t)) = scan_step(cs, i, line) {
            lemma_scan_from_end(cs, j, l);
            lemma_between_add(cs, i, j, cs.len() as int);
            if let Ok(rest) = scan_from(cs, j, l) {
                if let Some(tok) = t {
                    assert((seq![tok] + rest).last() == rest.last());
                }
            }
        }
    }
}

/// Law: a scan that succeeds ends with an `End` token whose line is one more than the number
/// of line breaks in the input.
pub proof fn law_end_line(cs: Seq<char>)
    ensures
        scan(cs) matches Ok(ts) ==> ts.len() > 0 && ts.last() == (TokenType::End, "EOF"@, 1 + count_newlines(cs)),
{
    lemma_scan_from_end(cs, 0, 1);
    lemma_between_prefix(cs, cs.len() as int);
    assert(cs.take(cs.len() as int) =~= cs);
}

/// Law: the scanner passes over every white-space character other than a line break without a
/// token and without changing the line: tab, vertical tab, form feed, carriage return, space,
/// next line, no-break space, ogham space mark, the en quad to hair space, the line and
/// paragraph separators, narrow no-break space, medium mathematical space and ideographic
/// space. So a program scans to the same tokens whichever of them separate its tokens.
pub proof fn law_blanks_skipped(cs: Seq<char>, i: int, line: nat)
    requires
        0 <= i < cs.len(),
        cs[i] == '\t' || cs[i] == '\u{0B}' || cs[i] == '\u{0C}' || cs[i] == '\r' || cs[i] == ' '
            || cs[i] == '\u{85}' || cs[i] == '\u{A0}' || cs[i] == '\u{1680}' || ('\u{2000}' <= cs[i]
            <= '\u{200A}') || cs[i] == '\u{2028}' || cs[i] == '\u{2029}' || cs[i] == '\u{202F}'
            || cs[i] == '\u{205F}' || cs[i] == '\u{3000}',
    ensures
        scan_step(cs, i, line) == Ok::<(int, nat, Option<(TokenType, Seq<char>, nat)>), (ScanErrorKind, nat)>(
            (i + 1, line, None),
        ),
        scan_from(cs, i, line) == scan_from(cs, i + 1, line),
{
}

proof fn lemma_word_run(cs: Seq<char>, j: int)
    requires
        0 <= j <= cs.len(),
    ensures
        forall|m: int| j <= m < word_end(cs, j) ==> letter_or_digit(#[trigger] cs[m]),
        word_end(cs, j) == cs.len() || !letter_or_digit(cs[word_end(cs, j)]),
    decreases cs.len() - j,
{
    lemma_word_end(cs, j);
    if j < cs.len() && letter_or_digit(cs[j]) {
        lemma_word_run(cs, j + 1);
    }
}

proof fn lemma_ascii_cut(cs: Seq<char>, j: int, e: int)
    requires
        0 <= j <= e <= cs.len(),
        forall|m: int| j <= m < e ==> (#[trigger] cs[m] as u32) < 0x80,
    ensures
        byte_cut(cs, j, e - j) == Some(e),
    decreases e - j,
{
    if j < e {
        lemma_ascii_cut(cs, j + 1, e);
    }
}

/// Law: a word runs from a letter over every letter and digit that follows, up to the first
/// character that is neither (or the end of the input), and the scan goes on after all of it.
/// Its text starts with that letter and is taken from the run; where the run is all ASCII the
/// text is the whole run.
pub proof fn law_word_is_maximal_run(cs: Seq<char>, i: int, line: nat)
    requires
        0 <= i < cs.len(),
        cs[i] != '\n',
        !white_space(cs[i]),
        letter(cs[i]),
    ensures
        scan_step(cs, i, line) matches Ok((e, l, t)) ==> {
            &&& i < e <= cs.len()
            &&& l == line
            &&& forall|m: int| i < m < e ==> letter_or_digit(#[trigger] cs[m])
            &&& (e == cs.len() || !letter_or_digit(cs[e]))
            &&& t matches Some(tok) && tok.2 == line && tok.1.len() >= 1 && tok.1[0] == cs[i] && tok.1 == cs.subrange(i, i + tok.1.len() as int)
                && i + tok.1.len() <= e
            &&& (forall|m: int| i <= m < e ==> (#[trigger] cs[m] as u32) < 0x80) ==> (t matches Some(tok) && tok.1 == cs.subrange(i, e))
        },
{
    let e = word_end(cs, i + 1);
    lemma_word_end(cs, i + 1);
    lemma_word_run(cs, i + 1);
    lemma_byte_cut(cs, i + 1, e - (i + 1));
    if let Some(p) = byte_cut(cs, i + 1, e - (i + 1)) {
        lemma_cut_within(cs, i + 1, e - (i + 1));
        if forall|m: int| i <= m < e ==> (#[trigger] cs[m] as u32) < 0x80 {
            lemma_ascii_cut(cs, i + 1, e);
        }
    }
}

proof fn lemma_cut_within(cs: Seq<char>, j: int, n: int)
    requires
        0 <= j <= cs.len(),
        0 <= n,
    ensures
        byte_cut(cs, j, n) matches Some(p) ==> p <= j + n,
    decreases n,
{
    if n > 0 && j < cs.len() && utf8_len(cs[j]) <= n {
        lemma_cut_within(cs, j + 1, n - utf8_len(cs[j]));
    }
}

} // verus!
