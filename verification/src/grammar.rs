//! The lexical shape of terminal escape sequences.
//!
//! Text is modelled as a sequence of characters (`Seq<char>`); every position
//! and every span end is an index into that sequence.  For each category of
//! sequence there is a spec function that gives, for a start position, the
//! end of the sequence that starts there (or `None`), and an executable
//! function proved to compute exactly that.

use vstd::prelude::*;

verus! {

/// ESC, the introducer of most sequences.
pub const ESC: char = '\x1b';

/// BEL, one of the three terminators of an operating system command.
pub const BEL: char = '\x07';

/// The one-character control sequence introducer.
pub const CSI: char = '\u{9b}';

/// The one-character string terminator.
pub const ST: char = '\u{9c}';

/// The category of a recognized sequence, in the order in which the
/// categories are tried at a position.
#[derive(Clone, Copy, Debug, PartialEq, Eq, Structural)]
pub enum Category {
    /// ESC `]`, a body, and a terminator.
    Osc,
    /// ESC `[`, parameters, and a final byte.
    CsiEscape,
    /// The single character U+009B, parameters, and a final byte.
    CsiSingle,
    /// ESC and one character of a fixed set.
    ShortEscape,
    /// ESC, `(` or `)`, and a character set designator.
    CharsetSelect,
    /// ESC `#` and a line attribute digit.
    HashSequence,
    /// ESC, decimal digits, and `n`.
    StatusReport,
}

/// A decimal digit.
pub open spec fn is_digit(c: char) -> bool {
    '0' <= c && c <= '9'
}

/// One of `[ ] ( ) # ; ?`, the characters that may stand between a control
/// sequence introducer and the numeric parameters.
pub open spec fn is_param_byte(c: char) -> bool {
    c == '[' || c == ']' || c == '(' || c == ')' || c == '#' || c == ';' || c == '?'
}

/// `;` or `:`, the separators between groups of digits.
pub open spec fn is_separator(c: char) -> bool {
    c == ';' || c == ':'
}

/// The characters that close a control sequence: the digits, `A`-`P`,
/// `R`-`T`, `Z`, `c`, `f`-`n`, `q`-`u`, `y`, and `=`, `>`, `<`, `~`.
pub open spec fn is_final_byte(c: char) -> bool {
    is_digit(c) || ('A' <= c && c <= 'P') || ('R' <= c && c <= 'T') || c == 'Z' || c == 'c' || (
    'f' <= c && c <= 'n') || ('q' <= c && c <= 'u') || c == 'y' || c == '=' || c == '>' || c
        == '<' || c == '~'
}

/// The characters that follow ESC in a two-character escape.
pub open spec fn is_short_final(c: char) -> bool {
    c == 'A' || c == 'B' || c == 'C' || c == 'D' || c == 'H' || c == 'I' || c == 'K' || c == 'J'
        || c == 'S' || c == 'T' || c == 'Z' || c == '=' || c == '>' || c == '<' || c == 's' || c
        == 'u' || c == 'm' || c == '7' || c == '8' || c == 'E' || c == 'M' || c == 'c' || c == 'N'
        || c == 'O'
}

/// The character set designators `A B 0 1 2`.
pub open spec fn is_charset_final(c: char) -> bool {
    c == 'A' || c == 'B' || c == '0' || c == '1' || c == '2'
}

/// The line attribute digits `3 4 5 6 8`.
pub open spec fn is_hash_final(c: char) -> bool {
    c == '3' || c == '4' || c == '5' || c == '6' || c == '8'
}

/// A character that may stand in the body of an operating system command:
/// anything but BEL, ESC and the string terminator.
pub open spec fn is_osc_body(c: char) -> bool {
    c != BEL && c != ESC && c != ST
}

/// The first index at or after `i` that holds no parameter byte.
pub open spec fn params_end(s: Seq<char>, i: int) -> int
    decreases s.len() - i,
{
    if 0 <= i < s.len() && is_param_byte(s[i]) {
        params_end(s, i + 1)
    } else {
        i
    }
}

/// The first index at or after `i` that holds no digit.
pub open spec fn digits_end(s: Seq<char>, i: int) -> int
    decreases s.len() - i,
{
    if 0 <= i < s.len() && is_digit(s[i]) {
        digits_end(s, i + 1)
    } else {
        i
    }
}

/// The first index at or after `i` that holds BEL, ESC or the string
/// terminator.
pub open spec fn osc_body_end(s: Seq<char>, i: int) -> int
    decreases s.len() - i,
{
    if 0 <= i < s.len() && is_osc_body(s[i]) {
        osc_body_end(s, i + 1)
    } else {
        i
    }
}

/// How far a block of numeric parameters reaches from `i`, when the group
/// that `i` stands in already holds `run` digits: a digit is taken while the
/// group holds fewer than four, a separator opens a new and empty group, and
/// anything else ends the block.
pub open spec fn block_end(s: Seq<char>, i: int, run: nat) -> int
    decreases s.len() - i,
{
    if 0 <= i < s.len() && is_digit(s[i]) && run < 4 {
        block_end(s, i + 1, run + 1)
    } else if 0 <= i < s.len() && is_separator(s[i]) {
        block_end(s, i + 1, 0)
    } else {
        i
    }
}

/// The largest index `e` with `lo < e <= hi` such that `s[e - 1]` is a digit,
/// or `lo + 1` where there is none.
pub open spec fn last_digit_end(s: Seq<char>, lo: int, hi: int) -> int
    decreases hi - lo,
{
    if lo + 1 < hi <= s.len() && !is_digit(s[hi - 1]) {
        last_digit_end(s, lo, hi - 1)
    } else {
        hi
    }
}

/// The end of an operating system command that starts at `pos`: ESC `]`, the
/// body up to the nearest BEL, ESC or string terminator, and then BEL, the
/// string terminator, or ESC `\`.  An ESC that no `\` follows ends the
/// attempt, as does the end of the text.
pub open spec fn osc_end(s: Seq<char>, pos: int) -> Option<int> {
    if 0 <= pos && pos + 1 < s.len() && s[pos] == ESC && s[pos + 1] == ']' {
        let t = osc_body_end(s, pos + 2);
        if t < s.len() && (s[t] == BEL || s[t] == ST) {
            Some(t + 1)
        } else if t + 1 < s.len() && s[t] == ESC && s[t + 1] == '\\' {
            Some(t + 2)
        } else {
            None
        }
    } else {
        None
    }
}

/// The end of a control sequence whose introducer ends before `body`:
/// parameter bytes, an optional block of numeric parameters, and a final
/// byte.  Of the spans of that shape the longest is taken: the block reaches
/// as far as it can, and where no final byte follows it, its last digit is
/// the final byte.
pub open spec fn csi_body_end(s: Seq<char>, body: int) -> Option<int> {
    let q = params_end(s, body);
    if 0 <= q < s.len() && is_digit(s[q]) {
        let r = block_end(s, q + 1, 1);
        if 0 <= r < s.len() && is_final_byte(s[r]) {
            Some(r + 1)
        } else {
            Some(last_digit_end(s, q, r))
        }
    } else if 0 <= q < s.len() && is_final_byte(s[q]) {
        Some(q + 1)
    } else {
        None
    }
}

/// The end of a control sequence introduced by ESC `[` at `pos`.
pub open spec fn csi_escape_end(s: Seq<char>, pos: int) -> Option<int> {
    if 0 <= pos && pos + 1 < s.len() && s[pos] == ESC && s[pos + 1] == '[' {
        csi_body_end(s, pos + 2)
    } else {
        None
    }
}

/// The end of a control sequence introduced by the single character U+009B
/// at `pos`.
pub open spec fn csi_single_end(s: Seq<char>, pos: int) -> Option<int> {
    if 0 <= pos < s.len() && s[pos] == CSI {
        csi_body_end(s, pos + 1)
    } else {
        None
    }
}

/// The end of a two-character escape at `pos`.
pub open spec fn short_escape_end(s: Seq<char>, pos: int) -> Option<int> {
    if 0 <= pos && pos + 1 < s.len() && s[pos] == ESC && is_short_final(s[pos + 1]) {
        Some(pos + 2)
    } else {
        None
    }
}

/// The end of a character set selection at `pos`.
pub open spec fn charset_end(s: Seq<char>, pos: int) -> Option<int> {
    if 0 <= pos && pos + 2 < s.len() && s[pos] == ESC && (s[pos + 1] == '(' || s[pos + 1] == ')')
        && is_charset_final(s[pos + 2]) {
        Some(pos + 3)
    } else {
        None
    }
}

/// The end of a hash sequence at `pos`.
pub open spec fn hash_end(s: Seq<char>, pos: int) -> Option<int> {
    if 0 <= pos && pos + 2 < s.len() && s[pos] == ESC && s[pos + 1] == '#' && is_hash_final(
        s[pos + 2],
    ) {
        Some(pos + 3)
    } else {
        None
    }
}

/// The end of a status report at `pos`: ESC, one or more digits, `n`.
pub open spec fn status_end(s: Seq<char>, pos: int) -> Option<int> {
    if 0 <= pos < s.len() && s[pos] == ESC {
        let d = digits_end(s, pos + 1);
        if pos + 1 < d < s.len() && s[d] == 'n' {
            Some(d + 1)
        } else {
            None
        }
    } else {
        None
    }
}

/// The end of the sequence of the given category that starts at `pos`.
pub open spec fn category_end(s: Seq<char>, pos: int, category: Category) -> Option<int> {
    match category {
        Category::Osc => osc_end(s, pos),
        Category::CsiEscape => csi_escape_end(s, pos),
        Category::CsiSingle => csi_single_end(s, pos),
        Category::ShortEscape => short_escape_end(s, pos),
        Category::CharsetSelect => charset_end(s, pos),
        Category::HashSequence => hash_end(s, pos),
        Category::StatusReport => status_end(s, pos),
    }
}

/// Whether an executable result states the same end as the model.
pub open spec fn same_end(r: Option<usize>, model: Option<int>) -> bool {
    match r {
        Some(e) => model == Some(e as int),
        None => model is None,
    }
}

pub fn is_digit_char(c: char) -> (r: bool)
    ensures
        r == is_digit(c),
{
    '0' <= c && c <= '9'
}

pub fn is_param_char(c: char) -> (r: bool)
    ensures
        r == is_param_byte(c),
{
    c == '[' || c == ']' || c == '(' || c == ')' || c == '#' || c == ';' || c == '?'
}

pub fn is_separator_char(c: char) -> (r: bool)
    ensures
        r == is_separator(c),
{
    c == ';' || c == ':'
}

pub fn is_final_char(c: char) -> (r: bool)
    ensures
        r == is_final_byte(c),
{
    is_digit_char(c) || ('A' <= c && c <= 'P') || ('R' <= c && c <= 'T') || c == 'Z' || c == 'c'
        || ('f' <= c && c <= 'n') || ('q' <= c && c <= 'u') || c == 'y' || c == '=' || c == '>'
        || c == '<' || c == '~'
}

pub fn is_short_final_char(c: char) -> (r: bool)
    ensures
        r == is_short_final(c),
{
    c == 'A' || c == 'B' || c == 'C' || c == 'D' || c == 'H' || c == 'I' || c == 'K' || c == 'J'
        || c == 'S' || c == 'T' || c == 'Z' || c == '=' || c == '>' || c == '<' || c == 's' || c
        == 'u' || c == 'm' || c == '7' || c == '8' || c == 'E' || c == 'M' || c == 'c' || c == 'N'
        || c == 'O'
}

pub fn is_charset_final_char(c: char) -> (r: bool)
    ensures
        r == is_charset_final(c),
{
    c == 'A' || c == 'B' || c == '0' || c == '1' || c == '2'
}

pub fn is_hash_final_char(c: char) -> (r: bool)
    ensures
        r == is_hash_final(c),
{
    c == '3' || c == '4' || c == '5' || c == '6' || c == '8'
}

pub fn is_osc_body_char(c: char) -> (r: bool)
    ensures
        r == is_osc_body(c),
{
    c != BEL && c != ESC && c != ST
}

/// Skips the parameter bytes that start at `start`.
pub fn skip_params(s: &[char], start: usize) -> (i: usize)
    ensures
        i as int == params_end(s@, start as int),
        start <= i,
        start <= s.len() ==> i <= s.len(),
{
    let mut i: usize = start;
    while i < s.len() && is_param_char(s[i])
        invariant
            start <= i,
            start <= s.len() ==> i <= s.len(),
            params_end(s@, i as int) == params_end(s@, start as int),
        decreases s.len() - i,
    {
        i += 1;
    }
    i
}

/// Skips the digits that start at `start`.
pub fn skip_digits(s: &[char], start: usize) -> (i: usize)
    ensures
        i as int == digits_end(s@, start as int),
        start <= i,
        start <= s.len() ==> i <= s.len(),
{
    let mut i: usize = start;
    while i < s.len() && is_digit_char(s[i])
        invariant
            start <= i,
            start <= s.len() ==> i <= s.len(),
            digits_end(s@, i as int) == digits_end(s@, start as int),
        decreases s.len() - i,
    {
        i += 1;
    }
    i
}

/// Skips the body of an operating system command that starts at `start`.
pub fn skip_osc_body(s: &[char], start: usize) -> (i: usize)
    ensures
        i as int == osc_body_end(s@, start as int),
        start <= i,
        start <= s.len() ==> i <= s.len(),
{
    let mut i: usize = start;
    while i < s.len() && is_osc_body_char(s[i])
        invariant
            start <= i,
            start <= s.len() ==> i <= s.len(),
            osc_body_end(s@, i as int) == osc_body_end(s@, start as int),
        decreases s.len() - i,
    {
        i += 1;
    }
    i
}

/// Skips the rest of a block of numeric parameters whose first digit stands
/// just before `start`.
pub fn skip_block(s: &[char], start: usize) -> (i: usize)
    ensures
        i as int == block_end(s@, start as int, 1),
        start <= i,
        start <= s.len() ==> i <= s.len(),
{
    let mut i: usize = start;
    let mut run: usize = 1;
    while i < s.len() && ((run < 4 && is_digit_char(s[i])) || is_separator_char(s[i]))
        invariant
            start <= i,
            start <= s.len() ==> i <= s.len(),
            run <= 4,
            block_end(s@, i as int, run as nat) == block_end(s@, start as int, 1),
        decreases s.len() - i,
    {
        if is_separator_char(s[i]) {
            run = 0;
        } else {
            run += 1;
        }
        i += 1;
    }
    i
}

/// Steps back from `hi` to just behind the last digit above `lo`.
pub fn back_to_digit(s: &[char], lo: usize, hi: usize) -> (e: usize)
    ensures
        e as int == last_digit_end(s@, lo as int, hi as int),
        e <= hi,
        lo < hi ==> lo < e,
{
    let mut e: usize = hi;
    while e <= s.len() && e >= 2 && lo < e - 1 && !is_digit_char(s[e - 1])
        invariant
            e <= hi,
            lo < hi ==> lo < e,
            last_digit_end(s@, lo as int, e as int) == last_digit_end(s@, lo as int, hi as int),
        decreases e,
    {
        e -= 1;
    }
    e
}

/// Recognizes an operating system command at `pos`.
pub fn osc_end_at(s: &[char], pos: usize) -> (r: Option<usize>)
    ensures
        same_end(r, osc_end(s@, pos as int)),
        r matches Some(e) ==> pos + 3 <= e <= s.len(),
{
    if pos >= s.len() || s.len() - pos < 2 || s[pos] != ESC || s[pos + 1] != ']' {
        return None;
    }
    let t = skip_osc_body(s, pos + 2);
    if t < s.len() && (s[t] == BEL || s[t] == ST) {
        Some(t + 1)
    } else if t < s.len() && s.len() - t >= 2 && s[t] == ESC && s[t + 1] == '\\' {
        Some(t + 2)
    } else {
        None
    }
}

/// Recognizes what follows a control sequence introducer, from `body` on.
pub fn csi_body_end_at(s: &[char], body: usize) -> (r: Option<usize>)
    ensures
        same_end(r, csi_body_end(s@, body as int)),
        r matches Some(e) ==> body < e <= s.len(),
{
    let q = skip_params(s, body);
    if q >= s.len() {
        return None;
    }
    if is_digit_char(s[q]) {
        let r = skip_block(s, q + 1);
        if r < s.len() && is_final_char(s[r]) {
            Some(r + 1)
        } else {
            Some(back_to_digit(s, q, r))
        }
    } else if is_final_char(s[q]) {
        Some(q + 1)
    } else {
        None
    }
}

/// Recognizes a control sequence introduced by ESC `[` at `pos`.
pub fn csi_escape_end_at(s: &[char], pos: usize) -> (r: Option<usize>)
    ensures
        same_end(r, csi_escape_end(s@, pos as int)),
        r matches Some(e) ==> pos + 3 <= e <= s.len(),
{
    if pos >= s.len() || s.len() - pos < 2 || s[pos] != ESC || s[pos + 1] != '[' {
        return None;
    }
    csi_body_end_at(s, pos + 2)
}

/// Recognizes a control sequence introduced by U+009B at `pos`.
pub fn csi_single_end_at(s: &[char], pos: usize) -> (r: Option<usize>)
    ensures
        same_end(r, csi_single_end(s@, pos as int)),
        r matches Some(e) ==> pos + 2 <= e <= s.len(),
{
    if pos >= s.len() || s[pos] != CSI {
        return None;
    }
    csi_body_end_at(s, pos + 1)
}

/// Recognizes a two-character escape at `pos`.
pub fn short_escape_end_at(s: &[char], pos: usize) -> (r: Option<usize>)
    ensures
        same_end(r, short_escape_end(s@, pos as int)),
        r matches Some(e) ==> e == pos + 2 && e <= s.len(),
{
    if pos >= s.len() || s.len() - pos < 2 || s[pos] != ESC || !is_short_final_char(s[pos + 1]) {
        return None;
    }
    Some(pos + 2)
}

/// Recognizes a character set selection at `pos`.
pub fn charset_end_at(s: &[char], pos: usize) -> (r: Option<usize>)
    ensures
        same_end(r, charset_end(s@, pos as int)),
        r matches Some(e) ==> e == pos + 3 && e <= s.len(),
{
    if pos >= s.len() || s.len() - pos < 3 || s[pos] != ESC {
        return None;
    }
    if (s[pos + 1] == '(' || s[pos + 1] == ')') && is_charset_final_char(s[pos + 2]) {
        Some(pos + 3)
    } else {
        None
    }
}

/// Recognizes a hash sequence at `pos`.
pub fn hash_end_at(s: &[char], pos: usize) -> (r: Option<usize>)
    ensures
        same_end(r, hash_end(s@, pos as int)),
        r matches Some(e) ==> e == pos + 3 && e <= s.len(),
{
    if pos >= s.len() || s.len() - pos < 3 || s[pos] != ESC {
        return None;
    }
    if s[pos + 1] == '#' && is_hash_final_char(s[pos + 2]) {
        Some(pos + 3)
    } else {
        None
    }
}

/// Recognizes a status report at `pos`.
pub fn status_end_at(s: &[char], pos: usize) -> (r: Option<usize>)
    ensures
        same_end(r, status_end(s@, pos as int)),
        r matches Some(e) ==> pos + 3 <= e <= s.len(),
{
    if pos >= s.len() || s[pos] != ESC {
        return None;
    }
    let d = skip_digits(s, pos + 1);
    if pos + 1 < d && d < s.len() && s[d] == 'n' {
        Some(d + 1)
    } else {
        None
    }
}


/// A run of parameter bytes ends between its start and the end of the text.
pub proof fn lemma_params_end_bounds(s: Seq<char>, i: int)
    requires
        0 <= i <= s.len(),
    ensures
        i <= params_end(s, i) <= s.len(),
    decreases s.len() - i,
{
    if i < s.len() && is_param_byte(s[i]) {
        lemma_params_end_bounds(s, i + 1);
    }
}

/// A run of digits ends between its start and the end of the text.
pub proof fn lemma_digits_end_bounds(s: Seq<char>, i: int)
    requires
        0 <= i <= s.len(),
    ensures
        i <= digits_end(s, i) <= s.len(),
    decreases s.len() - i,
{
    if i < s.len() && is_digit(s[i]) {
        lemma_digits_end_bounds(s, i + 1);
    }
}

/// The body of an operating system command ends between its start and the
/// end of the text.
pub proof fn lemma_osc_body_end_bounds(s: Seq<char>, i: int)
    requires
        0 <= i <= s.len(),
    ensures
        i <= osc_body_end(s, i) <= s.len(),
    decreases s.len() - i,
{
    if i < s.len() && is_osc_body(s[i]) {
        lemma_osc_body_end_bounds(s, i + 1);
    }
}

/// A block of numeric parameters ends between its start and the end of the
/// text.
pub proof fn lemma_block_end_bounds(s: Seq<char>, i: int, run: nat)
    requires
        0 <= i <= s.len(),
    ensures
        i <= block_end(s, i, run) <= s.len(),
    decreases s.len() - i,
{
    if i < s.len() && is_digit(s[i]) && run < 4 {
        lemma_block_end_bounds(s, i + 1, run + 1);
    } else if i < s.len() && is_separator(s[i]) {
        lemma_block_end_bounds(s, i + 1, 0);
    }
}

/// Stepping back to a digit stays above the lower bound.
pub proof fn lemma_last_digit_end_bounds(s: Seq<char>, lo: int, hi: int)
    requires
        lo < hi,
    ensures
        lo < last_digit_end(s, lo, hi) <= hi,
    decreases hi - lo,
{
    if lo + 1 < hi <= s.len() && !is_digit(s[hi - 1]) {
        lemma_last_digit_end_bounds(s, lo, hi - 1);
    }
}

/// A sequence of any category holds at least two characters and ends within
/// the text.
pub proof fn lemma_category_end_bounds(s: Seq<char>, pos: int, category: Category)
    ensures
        category_end(s, pos, category) matches Some(e) ==> 0 <= pos && pos + 2 <= e <= s.len(),
{
    if 0 <= pos < s.len() {
        lemma_digits_end_bounds(s, pos + 1);
        if pos + 1 < s.len() {
            lemma_osc_body_end_bounds(s, pos + 2);
            lemma_csi_body_end_bounds(s, pos + 2);
        }
        lemma_csi_body_end_bounds(s, pos + 1);
    }
}

/// What follows a control sequence introducer ends behind at least one
/// character and within the text.
pub proof fn lemma_csi_body_end_bounds(s: Seq<char>, body: int)
    requires
        0 <= body <= s.len(),
    ensures
        csi_body_end(s, body) matches Some(e) ==> body < e <= s.len(),
{
    let q = params_end(s, body);
    lemma_params_end_bounds(s, body);
    if q < s.len() {
        lemma_block_end_bounds(s, q + 1, 1);
        lemma_last_digit_end_bounds(s, q, block_end(s, q + 1, 1));
    }
}

} // verus!
