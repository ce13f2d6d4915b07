//! What holds of every scan, proved over the models that the contracts of
//! the scanner speak of.

use vstd::prelude::*;
use crate::grammar::Category;
use crate::grammar::ESC;
use crate::grammar::BEL;
use crate::grammar::CSI;
use crate::grammar::ST;
use crate::grammar::is_digit;
use crate::grammar::is_final_byte;
use crate::grammar::is_osc_body;
use crate::grammar::is_param_byte;
use crate::grammar::is_separator;
use crate::grammar::params_end;
use crate::grammar::digits_end;
use crate::grammar::osc_body_end;
use crate::grammar::block_end;
use crate::grammar::last_digit_end;
use crate::grammar::csi_body_end;
use crate::grammar::lemma_params_end_bounds;
use crate::grammar::lemma_digits_end_bounds;
use crate::grammar::lemma_osc_body_end_bounds;
use crate::grammar::lemma_block_end_bounds;
use crate::grammar::lemma_last_digit_end_bounds;
use crate::scanner::Span;
use crate::scanner::sequence_at;
use crate::scanner::next_match;
use crate::scanner::matches_from;
use crate::scanner::replaced_from;
use crate::scanner::first_match;
use crate::scanner::all_matches;
use crate::scanner::replaced;
use crate::scanner::well_placed;
use crate::scanner::outside_all;
use crate::scanner::rebuilt;
use crate::scanner::lemma_sequence_bounds;
use crate::shapes::osc_split;
use crate::shapes::lemma_shape_is_recognized;

verus! {

/// Whether no sequence is recognized at any position from `pos` on.
pub open spec fn unmatched_from(s: Seq<char>, pos: int) -> bool {
    forall|i: int| pos <= i < s.len() ==> (#[trigger] sequence_at(s, i)) is None
}

/// Only ESC and U+009B introduce a sequence.
pub proof fn lemma_sequence_needs_introducer(s: Seq<char>, pos: int)
    requires
        0 <= pos < s.len(),
        s[pos] != ESC,
        s[pos] != CSI,
    ensures
        sequence_at(s, pos) is None,
{
}

/// Where no sequence is recognized from `pos` on, the scan from `pos` finds
/// nothing and replacing keeps the rest of the text as it is.
pub proof fn lemma_unmatched_scan(s: Seq<char>, pos: int, replacement: Seq<char>)
    requires
        0 <= pos <= s.len(),
        unmatched_from(s, pos),
    ensures
        next_match(s, pos) is None,
        matches_from(s, pos) == Seq::<Span>::empty(),
        replaced_from(s, pos, replacement) == s.subrange(pos, s.len() as int),
    decreases s.len() - pos,
{
    if pos < s.len() {
        assert(sequence_at(s, pos) is None);
        lemma_unmatched_scan(s, pos + 1, replacement);
        assert(seq![s[pos]] + s.subrange(pos + 1, s.len() as int) =~= s.subrange(
            pos,
            s.len() as int,
        ));
    } else {
        assert(s.subrange(pos, s.len() as int) =~= Seq::<char>::empty());
    }
}

/// A scan from `pos` that finds no first match recognizes no sequence from
/// `pos` on.
pub proof fn lemma_no_match_is_unmatched(s: Seq<char>, pos: int)
    requires
        0 <= pos <= s.len(),
        next_match(s, pos) is None,
    ensures
        unmatched_from(s, pos),
    decreases s.len() - pos,
{
    if pos < s.len() {
        lemma_no_match_is_unmatched(s, pos + 1);
    }
}

/// Replacing by nothing never lengthens the text, and shortens it where the
/// scan finds a match.
pub proof fn lemma_strip_length(s: Seq<char>, pos: int)
    requires
        0 <= pos <= s.len(),
    ensures
        replaced_from(s, pos, Seq::empty()).len() <= s.len() - pos,
        next_match(s, pos) is Some ==> replaced_from(s, pos, Seq::empty()).len() < s.len() - pos,
    decreases s.len() - pos,
{
    if pos < s.len() {
        lemma_sequence_bounds(s, pos);
        match sequence_at(s, pos) {
            Some(m) => {
                lemma_strip_length(s, m.end);
            },
            None => {
                lemma_strip_length(s, pos + 1);
            },
        }
    }
}

/// A text that holds none of ESC, BEL, U+009B and U+009C holds no escape
/// sequence: the scan finds no match, and replacing returns the text as it
/// is.
pub proof fn lemma_no_false_positives(text: Seq<char>, replacement: Seq<char>)
    requires
        forall|i: int|
            0 <= i < text.len() ==> text[i] != ESC && text[i] != BEL && text[i] != CSI && text[i]
                != ST,
    ensures
        first_match(text) is None,
        all_matches(text) == Seq::<Span>::empty(),
        replaced(text, replacement) == text,
{
    assert forall|i: int| 0 <= i < text.len() implies (#[trigger] sequence_at(text, i)) is None by {
        lemma_sequence_needs_introducer(text, i);
    }
    lemma_unmatched_scan(text, 0, replacement);
    assert(text.subrange(0, text.len() as int) =~= text);
}

/// Replacing every sequence by nothing returns the text unchanged exactly
/// when the text holds no sequence.
pub proof fn lemma_strip_fixed_point(text: Seq<char>)
    ensures
        replaced(text, Seq::empty()) == text <==> first_match(text) is None,
{
    lemma_strip_length(text, 0);
    if first_match(text) is None {
        lemma_no_match_is_unmatched(text, 0);
        lemma_unmatched_scan(text, 0, Seq::empty());
        assert(text.subrange(0, text.len() as int) =~= text);
    }
}

/// Stripping a stripped text changes nothing, provided the first stripping
/// left no sequence behind.  Taking a sequence out can join the characters
/// around it into a new sequence, which a second stripping takes out.
pub proof fn lemma_strip_idempotent(text: Seq<char>)
    requires
        first_match(replaced(text, Seq::empty())) is None,
    ensures
        replaced(replaced(text, Seq::empty()), Seq::empty()) == replaced(text, Seq::empty()),
{
    lemma_strip_fixed_point(replaced(text, Seq::empty()));
}

/// Where the first stripping leaves a sequence behind, the second stripping
/// changes the text: it is shorter.
pub proof fn lemma_strip_again_shortens(text: Seq<char>)
    requires
        first_match(replaced(text, Seq::empty())) is Some,
    ensures
        replaced(replaced(text, Seq::empty()), Seq::empty()).len() < replaced(
            text,
            Seq::empty(),
        ).len(),
{
    lemma_strip_length(replaced(text, Seq::empty()), 0);
}


/// A run of parameter bytes that ends within the text is not changed by a
/// character added behind the text.
pub proof fn lemma_params_end_push(s: Seq<char>, c: char, i: int)
    requires
        0 <= i <= s.len(),
        params_end(s, i) < s.len(),
    ensures
        params_end(s.push(c), i) == params_end(s, i),
    decreases s.len() - i,
{
    if i < s.len() && is_param_byte(s[i]) {
        lemma_params_end_push(s, c, i + 1);
    }
}

/// A run of digits that ends within the text is not changed by a character
/// added behind the text.
pub proof fn lemma_digits_end_push(s: Seq<char>, c: char, i: int)
    requires
        0 <= i <= s.len(),
        digits_end(s, i) < s.len(),
    ensures
        digits_end(s.push(c), i) == digits_end(s, i),
    decreases s.len() - i,
{
    if i < s.len() && is_digit(s[i]) {
        lemma_digits_end_push(s, c, i + 1);
    }
}

/// The body of an operating system command that ends within the text is not
/// changed by a character added behind the text.
pub proof fn lemma_osc_body_end_push(s: Seq<char>, c: char, i: int)
    requires
        0 <= i <= s.len(),
        osc_body_end(s, i) < s.len(),
    ensures
        osc_body_end(s.push(c), i) == osc_body_end(s, i),
    decreases s.len() - i,
{
    if i < s.len() && is_osc_body(s[i]) {
        lemma_osc_body_end_push(s, c, i + 1);
    }
}

/// A block of numeric parameters that ends within the text is not changed
/// by a character added behind the text.
pub proof fn lemma_block_end_push(s: Seq<char>, c: char, i: int, run: nat)
    requires
        0 <= i <= s.len(),
        block_end(s, i, run) < s.len(),
    ensures
        block_end(s.push(c), i, run) == block_end(s, i, run),
    decreases s.len() - i,
{
    if i < s.len() && is_digit(s[i]) && run < 4 {
        lemma_block_end_push(s, c, i + 1, run + 1);
    } else if i < s.len() && is_separator(s[i]) {
        lemma_block_end_push(s, c, i + 1, 0);
    }
}

/// A block of numeric parameters that reaches the end of the text takes a
/// separator added behind the text, may take a digit, and takes nothing
/// else.
pub proof fn lemma_block_end_push_open(s: Seq<char>, c: char, i: int, run: nat)
    requires
        0 <= i <= s.len(),
        block_end(s, i, run) == s.len(),
    ensures
        is_separator(c) ==> block_end(s.push(c), i, run) == s.len() + 1,
        is_digit(c) ==> block_end(s.push(c), i, run) == s.len() || block_end(s.push(c), i, run)
            == s.len() + 1,
        !is_separator(c) && !is_digit(c) ==> block_end(s.push(c), i, run) == s.len(),
    decreases s.len() - i,
{
    if i < s.len() && is_digit(s[i]) && run < 4 {
        lemma_block_end_push_open(s, c, i + 1, run + 1);
    } else if i < s.len() && is_separator(s[i]) {
        lemma_block_end_push_open(s, c, i + 1, 0);
    } else {
        assert(i == s.len());
        assert(s.push(c)[i] == c);
        assert(block_end(s.push(c), i + 1, run + 1) == i + 1);
        assert(block_end(s.push(c), i + 1, 0) == i + 1);
    }
}

/// Stepping back to a digit does not look at a character added behind the
/// text.
pub proof fn lemma_last_digit_end_push(s: Seq<char>, c: char, lo: int, hi: int)
    requires
        0 <= lo < hi <= s.len(),
    ensures
        last_digit_end(s.push(c), lo, hi) == last_digit_end(s, lo, hi),
    decreases hi - lo,
{
    if lo + 1 < hi && !is_digit(s[hi - 1]) {
        lemma_last_digit_end_push(s, c, lo, hi - 1);
    }
}

/// Whether the control sequence body that starts at `body` ends in a block
/// of numeric parameters that reaches the end of the text, so that the last
/// digit of the text serves as the final byte.
pub open spec fn open_block(s: Seq<char>, body: int) -> bool {
    let q = params_end(s, body);
    0 <= q < s.len() && is_digit(s[q]) && block_end(s, q + 1, 1) == s.len()
}

/// Whether `s` starts with a control sequence introducer and the block of
/// numeric parameters behind it reaches the end of `s`.
pub open spec fn ends_in_open_block(s: Seq<char>) -> bool {
    ||| s.len() >= 2 && s[0] == ESC && s[1] == '[' && open_block(s, 2)
    ||| s.len() >= 1 && s[0] == CSI && open_block(s, 1)
}

/// The body of a control sequence that ends with the text is recognized
/// unchanged when a character follows, unless its block of numeric
/// parameters reaches the end and the character is a final byte.
pub proof fn lemma_csi_body_no_overcapture(s: Seq<char>, c: char, body: int)
    requires
        0 <= body <= s.len(),
        csi_body_end(s, body) == Some(s.len() as int),
        !(open_block(s, body) && is_final_byte(c)),
    ensures
        csi_body_end(s.push(c), body) == Some(s.len() as int),
{
    let t = s.push(c);
    let q = params_end(s, body);
    lemma_params_end_bounds(s, body);
    lemma_params_end_push(s, c, body);
    assert(t[q] == s[q]);
    if is_digit(s[q]) {
        let r = block_end(s, q + 1, 1);
        lemma_block_end_bounds(s, q + 1, 1);
        if r < s.len() {
            lemma_block_end_push(s, c, q + 1, 1);
            assert(t[r] == s[r]);
            if !is_final_byte(s[r]) {
                lemma_last_digit_end_bounds(s, q, r);
            }
        } else {
            lemma_block_end_push_open(s, c, q + 1, 1);
            let r2 = block_end(t, q + 1, 1);
            assert(t[s.len() as int] == c);
            lemma_last_digit_end_push(s, c, q, s.len() as int);
            assert(!is_digit(c));
            assert(last_digit_end(t, q, r2) == last_digit_end(t, q, s.len() as int));
        }
    }
}

/// A recognized sequence is found unchanged when one more character follows
/// it: the same category and the same span, neither longer nor shorter.
/// The one exception is left out: a control sequence whose block of numeric
/// parameters reaches its end, so that its last digit is its final byte,
/// takes a following final byte in.
pub proof fn lemma_no_overcapture(seq: Seq<char>, c: char)
    requires
        sequence_at(seq, 0) matches Some(m) && m.end == seq.len(),
        !(ends_in_open_block(seq) && is_final_byte(c)),
    ensures
        sequence_at(seq.push(c), 0) == sequence_at(seq, 0),
        first_match(seq.push(c)) == sequence_at(seq, 0),
{
    let t = seq.push(c);
    let m = sequence_at(seq, 0)->0;
    lemma_sequence_bounds(seq, 0);
    assert(t[0] == seq[0]);
    assert(t[1] == seq[1]);
    match m.category {
        Category::Osc => {
            lemma_osc_body_end_bounds(seq, 2);
            let e = osc_body_end(seq, 2);
            lemma_osc_body_end_push(seq, c, 2);
            assert(t[e] == seq[e]);
            if e + 1 < seq.len() {
                assert(t[e + 1] == seq[e + 1]);
            }
        },
        Category::CsiEscape => {
            lemma_csi_body_no_overcapture(seq, c, 2);
        },
        Category::CsiSingle => {
            lemma_csi_body_no_overcapture(seq, c, 1);
        },
        Category::ShortEscape => {},
        Category::CharsetSelect => {
            assert(t[2] == seq[2]);
        },
        Category::HashSequence => {
            assert(t[2] == seq[2]);
        },
        Category::StatusReport => {
            lemma_digits_end_bounds(seq, 1);
            let d = digits_end(seq, 1);
            lemma_digits_end_push(seq, c, 1);
            assert(t[d] == seq[d]);
            assert(t[2] == seq[2]);
        },
    }
}

/// The exception to the law above: where the block of numeric parameters of
/// a control sequence reaches its end, a final byte that follows belongs to
/// the sequence.
pub proof fn lemma_open_block_takes_final_byte(seq: Seq<char>, c: char)
    requires
        sequence_at(seq, 0) matches Some(m) && m.end == seq.len(),
        ends_in_open_block(seq),
        is_final_byte(c),
    ensures
        sequence_at(seq.push(c), 0) == Some(
            Span { start: 0, end: seq.len() as int + 1, category: sequence_at(seq, 0)->0.category },
        ),
{
    let t = seq.push(c);
    lemma_sequence_bounds(seq, 0);
    let body: int = if seq[0] == ESC { 2 } else { 1 };
    let q = params_end(seq, body);
    lemma_params_end_bounds(seq, body);
    lemma_params_end_push(seq, c, body);
    assert(t[0] == seq[0]);
    assert(t[1] == seq[1]);
    assert(t[q] == seq[q]);
    lemma_block_end_push_open(seq, c, q + 1, 1);
    assert(t[seq.len() as int] == c);
    let r2 = block_end(t, q + 1, 1);
    if r2 == seq.len() + 1 {
        assert(is_digit(c));
        assert(last_digit_end(t, q, r2) == r2);
    }
}


/// The matches of a scan come in ascending order and do not overlap; each
/// holds at least two characters, lies within the text, and is the sequence
/// recognized at its start.
pub proof fn lemma_matches_well_placed(s: Seq<char>, pos: int)
    requires
        0 <= pos <= s.len(),
    ensures
        well_placed(s, matches_from(s, pos), pos),
    decreases s.len() - pos,
{
    if pos < s.len() {
        lemma_sequence_bounds(s, pos);
        match sequence_at(s, pos) {
            Some(m) => {
                lemma_matches_well_placed(s, m.end);
                let rest = matches_from(s, m.end);
                let ms = matches_from(s, pos);
                assert(ms == seq![m] + rest);
                assert forall|i: int| 0 <= i < ms.len() implies pos <= (#[trigger] ms[i]).start
                    && ms[i].start + 2 <= ms[i].end <= s.len() && sequence_at(s, ms[i].start)
                    == Some(ms[i]) by {
                    if i > 0 {
                        assert(ms[i] == rest[i - 1]);
                    }
                }
                assert forall|i: int, j: int| 0 <= i < j < ms.len() implies (#[trigger] ms[i]).end
                    <= (#[trigger] ms[j]).start by {
                    assert(ms[j] == rest[j - 1]);
                    if i > 0 {
                        assert(ms[i] == rest[i - 1]);
                    }
                }
            },
            None => {
                lemma_matches_well_placed(s, pos + 1);
            },
        }
    }
}

/// A position that the scan passes and that lies in no match starts no
/// sequence: the scan leaves nothing out.
pub proof fn lemma_nothing_left_out(s: Seq<char>, pos: int, p: int)
    requires
        0 <= pos <= p < s.len(),
        outside_all(matches_from(s, pos), p),
    ensures
        sequence_at(s, p) is None,
    decreases s.len() - pos,
{
    lemma_sequence_bounds(s, pos);
    match sequence_at(s, pos) {
        Some(m) => {
            let rest = matches_from(s, m.end);
            let ms = matches_from(s, pos);
            assert(ms == seq![m] + rest);
            assert(ms[0] == m);
            assert(p >= m.end);
            assert forall|i: int| 0 <= i < rest.len() implies !((#[trigger] rest[i]).start <= p
                < rest[i].end) by {
                assert(ms[i + 1] == rest[i]);
            }
            lemma_nothing_left_out(s, m.end, p);
        },
        None => {
            if p > pos {
                lemma_nothing_left_out(s, pos + 1, p);
            }
        },
    }
}

/// The first match of a scan is the first of all its matches.
pub proof fn lemma_first_of_all(s: Seq<char>, pos: int)
    requires
        0 <= pos <= s.len(),
    ensures
        next_match(s, pos) is Some <==> matches_from(s, pos).len() > 0,
        next_match(s, pos) matches Some(m) ==> matches_from(s, pos)[0] == m,
    decreases s.len() - pos,
{
    if pos < s.len() {
        match sequence_at(s, pos) {
            Some(m) => {},
            None => {
                lemma_first_of_all(s, pos + 1);
            },
        }
    }
}

/// Replacing is rebuilding the text around the matches of the scan: every
/// match span gives way to the replacement, and what lies between the
/// matches is kept as it is.
pub proof fn lemma_replaced_is_rebuilt(s: Seq<char>, pos: int, replacement: Seq<char>)
    requires
        0 <= pos <= s.len(),
    ensures
        replaced_from(s, pos, replacement) == rebuilt(s, pos, matches_from(s, pos), replacement),
    decreases s.len() - pos,
{
    let ms = matches_from(s, pos);
    if pos < s.len() {
        lemma_sequence_bounds(s, pos);
        match sequence_at(s, pos) {
            Some(m) => {
                lemma_replaced_is_rebuilt(s, m.end, replacement);
                let rest = matches_from(s, m.end);
                assert(ms == seq![m] + rest);
                assert(ms.drop_first() =~= rest);
                assert(ms[0] == m);
                assert(s.subrange(pos, pos) + replacement =~= replacement);
            },
            None => {
                lemma_replaced_is_rebuilt(s, pos + 1, replacement);
                lemma_matches_well_placed(s, pos + 1);
                if ms.len() == 0 {
                    assert(seq![s[pos]] + s.subrange(pos + 1, s.len() as int) =~= s.subrange(
                        pos,
                        s.len() as int,
                    ));
                } else {
                    assert(pos + 1 <= ms[0].start <= s.len());
                    assert(seq![s[pos]] + s.subrange(pos + 1, ms[0].start) =~= s.subrange(
                        pos,
                        ms[0].start,
                    ));
                    assert(seq![s[pos]] + (s.subrange(pos + 1, ms[0].start) + replacement
                        + rebuilt(s, ms[0].end, ms.drop_first(), replacement)) =~= (seq![s[pos]]
                        + s.subrange(pos + 1, ms[0].start)) + replacement + rebuilt(
                        s,
                        ms[0].end,
                        ms.drop_first(),
                        replacement,
                    ));
                }
            },
        }
    } else {
        assert(s.subrange(pos, s.len() as int) =~= Seq::<char>::empty());
    }
}


/// ESC `]`, a body, and a terminator.
pub open spec fn osc_text(body: Seq<char>, terminator: Seq<char>) -> Seq<char> {
    seq![ESC, ']'] + body + terminator
}

/// BEL, the string terminator, or ESC `\`.
pub open spec fn is_string_terminator(t: Seq<char>) -> bool {
    t == seq![BEL] || t == seq![ST] || t == seq![ESC, '\\']
}

/// The three terminators of an operating system command are equivalent:
/// whichever of them closes a body that holds none of BEL, ESC and the
/// string terminator, the command is recognized from its introducer through
/// its terminator, whatever follows it.
pub proof fn lemma_osc_terminators_equivalent(
    body: Seq<char>,
    terminator: Seq<char>,
    rest: Seq<char>,
)
    requires
        forall|i: int| 0 <= i < body.len() ==> is_osc_body(body[i]),
        is_string_terminator(terminator),
    ensures
        sequence_at(osc_text(body, terminator) + rest, 0) == Some(
            Span {
                start: 0,
                end: 2 + body.len() as int + terminator.len() as int,
                category: Category::Osc,
            },
        ),
        first_match(osc_text(body, terminator) + rest) == sequence_at(
            osc_text(body, terminator) + rest,
            0,
        ),
{
    let s = osc_text(body, terminator) + rest;
    let t = 2 + body.len() as int;
    let e = t + terminator.len();
    assert(s[0] == ESC);
    assert(s[1] == ']');
    assert forall|k: int| 2 <= k < t implies is_osc_body(#[trigger] s[k]) by {
        assert(s[k] == body[k - 2]);
    }
    assert(s[t] == terminator[0]);
    if terminator.len() == 2 {
        assert(s[t + 1] == terminator[1]);
    }
    assert(osc_split(s, 0, t, e));
    lemma_shape_is_recognized(s, 0, e, Category::Osc);
}


/// Whether every position from `from` on that lies in none of the spans of
/// `ms` starts no sequence.
pub open spec fn leaves_nothing_out(s: Seq<char>, ms: Seq<Span>, from: int) -> bool {
    forall|p: int| from <= p < s.len() && #[trigger] outside_all(ms, p) ==> sequence_at(s, p) is None
}

/// The matches of a scan are the only list of spans that is well placed and
/// leaves nothing out.
pub proof fn lemma_matches_unique(s: Seq<char>, ms: Seq<Span>, pos: int)
    requires
        0 <= pos <= s.len(),
        well_placed(s, ms, pos),
        leaves_nothing_out(s, ms, pos),
    ensures
        ms == matches_from(s, pos),
    decreases s.len() - pos,
{
    if pos >= s.len() {
        if ms.len() > 0 {
            assert(pos <= ms[0].start);
        }
        assert(ms =~= matches_from(s, pos));
    } else {
        lemma_sequence_bounds(s, pos);
        match sequence_at(s, pos) {
            Some(m) => {
                if ms.len() == 0 || ms[0].start > pos {
                    assert forall|i: int| 0 <= i < ms.len() implies !((#[trigger] ms[i]).start
                        <= pos < ms[i].end) by {
                        if i > 0 {
                            assert(ms[0].end <= ms[i].start);
                        }
                    }
                    assert(outside_all(ms, pos));
                    assert(false);
                }
                assert(ms[0] == m);
                let rest = ms.drop_first();
                assert forall|i: int| 0 <= i < rest.len() implies m.end <= (#[trigger] rest[i]).start
                    && rest[i].start + 2 <= rest[i].end <= s.len() && sequence_at(
                    s,
                    rest[i].start,
                ) == Some(rest[i]) by {
                    assert(rest[i] == ms[i + 1]);
                    assert(ms[0].end <= ms[i + 1].start);
                }
                assert forall|i: int, j: int| 0 <= i < j < rest.len() implies (
                #[trigger] rest[i]).end <= (#[trigger] rest[j]).start by {
                    assert(rest[i] == ms[i + 1]);
                    assert(rest[j] == ms[j + 1]);
                }
                assert forall|p: int| m.end <= p < s.len() && #[trigger] outside_all(
                    rest,
                    p,
                ) implies sequence_at(s, p) is None by {
                    assert forall|i: int| 0 <= i < ms.len() implies !((#[trigger] ms[i]).start
                        <= p < ms[i].end) by {
                        if i > 0 {
                            assert(ms[i] == rest[i - 1]);
                        }
                    }
                    assert(outside_all(ms, p));
                }
                lemma_matches_unique(s, rest, m.end);
                assert(ms =~= seq![m] + rest);
            },
            None => {
                assert forall|i: int| 0 <= i < ms.len() implies pos + 1 <= (#[trigger] ms[i]).start
                by {
                    assert(sequence_at(s, ms[i].start) == Some(ms[i]));
                }
                lemma_matches_unique(s, ms, pos + 1);
            },
        }
    }
}

/// What `find_all` returns, said without the scan: the one list of spans
/// that is well placed and leaves nothing out.
pub proof fn lemma_all_matches_characterized(s: Seq<char>, ms: Seq<Span>)
    ensures
        ms == all_matches(s) <==> well_placed(s, ms, 0) && leaves_nothing_out(s, ms, 0),
{
    if ms == all_matches(s) {
        lemma_matches_well_placed(s, 0);
        assert forall|p: int| 0 <= p < s.len() && #[trigger] outside_all(ms, p) implies sequence_at(
            s,
            p,
        ) is None by {
            lemma_nothing_left_out(s, 0, p);
        }
    }
    if well_placed(s, ms, 0) && leaves_nothing_out(s, ms, 0) {
        lemma_matches_unique(s, ms, 0);
    }
}


/// The first match at or after `pos` is the sequence recognized at the
/// first position, from `pos` on, at which one is recognized.
pub proof fn lemma_first_match_characterized(s: Seq<char>, pos: int)
    requires
        0 <= pos <= s.len(),
    ensures
        match next_match(s, pos) {
            Some(m) => {
                &&& pos <= m.start < s.len()
                &&& sequence_at(s, m.start) == Some(m)
                &&& forall|p: int| pos <= p < m.start ==> (#[trigger] sequence_at(s, p)) is None
            },
            None => unmatched_from(s, pos),
        },
    decreases s.len() - pos,
{
    if pos < s.len() {
        lemma_sequence_bounds(s, pos);
        if sequence_at(s, pos) is None {
            lemma_first_match_characterized(s, pos + 1);
        }
    }
}

} // verus!
