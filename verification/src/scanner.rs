//! The scan over a text: at each position the categories are tried in their
//! fixed order; a recognized sequence is a match and the scan goes on behind
//! it, and where none is recognized the scan moves on by one character.

use vstd::prelude::*;
use crate::grammar::Category;
use crate::grammar::category_end;
use crate::grammar::lemma_category_end_bounds;
use crate::grammar::osc_end_at;
use crate::grammar::csi_escape_end_at;
use crate::grammar::csi_single_end_at;
use crate::grammar::short_escape_end_at;
use crate::grammar::charset_end_at;
use crate::grammar::hash_end_at;
use crate::grammar::status_end_at;
use crate::text::to_chars;
use crate::text::string_of;
use crate::shapes::has_shape;
use crate::shapes::lemma_sequence_is_first_longest_shape;
use crate::laws::lemma_matches_well_placed;
use crate::laws::lemma_replaced_is_rebuilt;

verus! {

/// The model of a match: the span `[start, end)` of character indices and
/// the category that was recognized.
pub ghost struct Span {
    pub start: int,
    pub end: int,
    pub category: Category,
}

/// One escape sequence found in a text.  `start` and `end` count characters,
/// not bytes.
#[derive(Clone, Copy, Debug, PartialEq, Eq, Structural)]
pub struct Match {
    pub start: usize,
    pub end: usize,
    pub category: Category,
}

impl View for Match {
    type V = Span;

    open spec fn view(&self) -> Span {
        Span { start: self.start as int, end: self.end as int, category: self.category }
    }
}

/// The models of a list of matches.
pub open spec fn spans(ms: Seq<Match>) -> Seq<Span> {
    ms.map_values(|m: Match| m@)
}

/// The span of the given category from `pos` to `end`, where there is an end.
pub open spec fn tagged(pos: int, end: Option<int>, category: Category) -> Option<Span> {
    match end {
        Some(e) => Some(Span { start: pos, end: e, category }),
        None => None,
    }
}

/// The sequence that starts at `pos`: that of the first category, in the
/// fixed order, that recognizes one there.
pub open spec fn sequence_at(s: Seq<char>, pos: int) -> Option<Span> {
    if category_end(s, pos, Category::Osc) is Some {
        tagged(pos, category_end(s, pos, Category::Osc), Category::Osc)
    } else if category_end(s, pos, Category::CsiEscape) is Some {
        tagged(pos, category_end(s, pos, Category::CsiEscape), Category::CsiEscape)
    } else if category_end(s, pos, Category::CsiSingle) is Some {
        tagged(pos, category_end(s, pos, Category::CsiSingle), Category::CsiSingle)
    } else if category_end(s, pos, Category::ShortEscape) is Some {
        tagged(pos, category_end(s, pos, Category::ShortEscape), Category::ShortEscape)
    } else if category_end(s, pos, Category::CharsetSelect) is Some {
        tagged(pos, category_end(s, pos, Category::CharsetSelect), Category::CharsetSelect)
    } else if category_end(s, pos, Category::HashSequence) is Some {
        tagged(pos, category_end(s, pos, Category::HashSequence), Category::HashSequence)
    } else {
        tagged(pos, category_end(s, pos, Category::StatusReport), Category::StatusReport)
    }
}

/// A recognized sequence starts where it was looked for, holds at least two
/// characters and ends within the text.
pub proof fn lemma_sequence_bounds(s: Seq<char>, pos: int)
    ensures
        sequence_at(s, pos) matches Some(m) ==> m.start == pos && 0 <= pos && pos + 2 <= m.end
            <= s.len(),
{
    lemma_category_end_bounds(s, pos, Category::Osc);
    lemma_category_end_bounds(s, pos, Category::CsiEscape);
    lemma_category_end_bounds(s, pos, Category::CsiSingle);
    lemma_category_end_bounds(s, pos, Category::ShortEscape);
    lemma_category_end_bounds(s, pos, Category::CharsetSelect);
    lemma_category_end_bounds(s, pos, Category::HashSequence);
    lemma_category_end_bounds(s, pos, Category::StatusReport);
}

/// The first match at or after `pos`.
pub open spec fn next_match(s: Seq<char>, pos: int) -> Option<Span>
    decreases s.len() - pos,
{
    if pos < 0 || pos >= s.len() {
        None
    } else if sequence_at(s, pos) is Some {
        sequence_at(s, pos)
    } else {
        next_match(s, pos + 1)
    }
}

/// The matches of a scan that starts at `pos`, in the order of the text.
pub open spec fn matches_from(s: Seq<char>, pos: int) -> Seq<Span>
    decreases s.len() - pos,
    via matches_from_decreases
{
    if pos < 0 || pos >= s.len() {
        Seq::empty()
    } else {
        match sequence_at(s, pos) {
            Some(m) => seq![m] + matches_from(s, m.end),
            None => matches_from(s, pos + 1),
        }
    }
}

#[via_fn]
proof fn matches_from_decreases(s: Seq<char>, pos: int) {
    lemma_sequence_bounds(s, pos);
}

/// The text from `pos` on with every match replaced by `replacement` and
/// every other character kept.
pub open spec fn replaced_from(s: Seq<char>, pos: int, replacement: Seq<char>) -> Seq<char>
    decreases s.len() - pos,
    via replaced_from_decreases
{
    if pos < 0 || pos >= s.len() {
        Seq::empty()
    } else {
        match sequence_at(s, pos) {
            Some(m) => replacement + replaced_from(s, m.end, replacement),
            None => seq![s[pos]] + replaced_from(s, pos + 1, replacement),
        }
    }
}

#[via_fn]
proof fn replaced_from_decreases(s: Seq<char>, pos: int, replacement: Seq<char>) {
    lemma_sequence_bounds(s, pos);
}

/// The first match of a text.
pub open spec fn first_match(s: Seq<char>) -> Option<Span> {
    next_match(s, 0)
}

/// All matches of a text.
pub open spec fn all_matches(s: Seq<char>) -> Seq<Span> {
    matches_from(s, 0)
}

/// A text with every match replaced.
pub open spec fn replaced(s: Seq<char>, replacement: Seq<char>) -> Seq<char> {
    replaced_from(s, 0, replacement)
}

/// Whether `ms` lists, in order, sequences of `s` that start at or after
/// `from`, each recognized where it starts, none overlapping another.
pub open spec fn well_placed(s: Seq<char>, ms: Seq<Span>, from: int) -> bool {
    &&& forall|i: int|
        0 <= i < ms.len() ==> from <= (#[trigger] ms[i]).start && ms[i].start + 2 <= ms[i].end
            <= s.len() && sequence_at(s, ms[i].start) == Some(ms[i])
    &&& forall|i: int, j: int|
        0 <= i < j < ms.len() ==> (#[trigger] ms[i]).end <= (#[trigger] ms[j]).start
}

/// Whether position `p` lies in none of the spans of `ms`.
pub open spec fn outside_all(ms: Seq<Span>, p: int) -> bool {
    forall|i: int| 0 <= i < ms.len() ==> !((#[trigger] ms[i]).start <= p < ms[i].end)
}

/// The text from `from` on, rebuilt around the spans of `ms`: what stands
/// before each span is kept, and `replacement` stands in place of the span.
pub open spec fn rebuilt(s: Seq<char>, from: int, ms: Seq<Span>, replacement: Seq<char>) -> Seq<
    char,
>
    decreases ms.len(),
{
    if ms.len() == 0 {
        s.subrange(from, s.len() as int)
    } else {
        s.subrange(from, ms[0].start) + replacement + rebuilt(
            s,
            ms[0].end,
            ms.drop_first(),
            replacement,
        )
    }
}

/// Whether an executable result states the same match as the model.
pub open spec fn same_match(r: Option<Match>, model: Option<Span>) -> bool {
    match r {
        Some(m) => model == Some(m@),
        None => model is None,
    }
}

/// Recognizes the sequence that starts at `pos`, trying the categories in
/// their fixed order.
pub fn recognize(s: &[char], pos: usize) -> (r: Option<Match>)
    ensures
        same_match(r, sequence_at(s@, pos as int)),
        r matches Some(m) ==> m.start == pos && pos + 2 <= m.end <= s.len() && has_shape(
            s@,
            pos as int,
            m.end as int,
            m.category,
        ),
{
    proof {
        lemma_sequence_is_first_longest_shape(s@, pos as int);
    }
    if let Some(e) = osc_end_at(s, pos) {
        return Some(Match { start: pos, end: e, category: Category::Osc });
    }
    if let Some(e) = csi_escape_end_at(s, pos) {
        return Some(Match { start: pos, end: e, category: Category::CsiEscape });
    }
    if let Some(e) = csi_single_end_at(s, pos) {
        return Some(Match { start: pos, end: e, category: Category::CsiSingle });
    }
    if let Some(e) = short_escape_end_at(s, pos) {
        return Some(Match { start: pos, end: e, category: Category::ShortEscape });
    }
    if let Some(e) = charset_end_at(s, pos) {
        return Some(Match { start: pos, end: e, category: Category::CharsetSelect });
    }
    if let Some(e) = hash_end_at(s, pos) {
        return Some(Match { start: pos, end: e, category: Category::HashSequence });
    }
    if let Some(e) = status_end_at(s, pos) {
        return Some(Match { start: pos, end: e, category: Category::StatusReport });
    }
    None
}

/// The first match at or after `from`.
pub fn find_next_in(s: &[char], from: usize) -> (r: Option<Match>)
    ensures
        same_match(r, next_match(s@, from as int)),
        r matches Some(m) ==> from <= m.start && m.start + 2 <= m.end <= s.len() && has_shape(
            s@,
            m.start as int,
            m.end as int,
            m.category,
        ),
{
    let mut pos: usize = from;
    while pos < s.len()
        invariant
            from <= pos,
            next_match(s@, pos as int) == next_match(s@, from as int),
        decreases s.len() - pos,
    {
        let r = recognize(s, pos);
        if r.is_some() {
            return r;
        }
        pos += 1;
    }
    None
}

/// All matches of `s`, left to right.
pub fn find_all_in(s: &[char]) -> (out: Vec<Match>)
    ensures
        spans(out@) == all_matches(s@),
        well_placed(s@, spans(out@), 0),
{
    let mut out: Vec<Match> = Vec::new();
    let mut pos: usize = 0;
    assert(spans(out@) + matches_from(s@, 0) =~= all_matches(s@));
    while pos < s.len()
        invariant
            pos <= s.len(),
            spans(out@) + matches_from(s@, pos as int) == all_matches(s@),
        decreases s.len() - pos,
    {
        match recognize(s, pos) {
            Some(m) => {
                proof {
                    let before = spans(out@);
                    let after = spans(out@.push(m));
                    assert(after =~= before.push(m@));
                    assert(after + matches_from(s@, m.end as int) =~= before + (seq![m@]
                        + matches_from(s@, m.end as int)));
                }
                out.push(m);
                pos = m.end;
            },
            None => {
                pos += 1;
            },
        }
    }
    assert(spans(out@) + matches_from(s@, pos as int) =~= spans(out@));
    proof {
        lemma_matches_well_placed(s@, 0);
    }
    out
}

/// `s` with every match replaced by `replacement`.
pub fn replace_all_in(s: &[char], replacement: &[char]) -> (out: Vec<char>)
    ensures
        out@ == replaced(s@, replacement@),
        out@ == rebuilt(s@, 0, all_matches(s@), replacement@),
{
    let mut out: Vec<char> = Vec::new();
    let mut pos: usize = 0;
    assert(out@ + replaced_from(s@, 0, replacement@) =~= replaced(s@, replacement@));
    while pos < s.len()
        invariant
            pos <= s.len(),
            out@ + replaced_from(s@, pos as int, replacement@) == replaced(s@, replacement@),
        decreases s.len() - pos,
    {
        match recognize(s, pos) {
            Some(m) => {
                let ghost before = out@;
                let mut k: usize = 0;
                while k < replacement.len()
                    invariant
                        k <= replacement.len(),
                        out@ == before + replacement@.take(k as int),
                    decreases replacement.len() - k,
                {
                    out.push(replacement[k]);
                    k += 1;
                    assert(out@ =~= before + replacement@.take(k as int));
                }
                proof {
                    assert(replacement@.take(k as int) =~= replacement@);
                    assert(out@ + replaced_from(s@, m.end as int, replacement@) =~= before + (
                    replacement@ + replaced_from(s@, m.end as int, replacement@)));
                }
                pos = m.end;
            },
            None => {
                proof {
                    assert(out@.push(s@[pos as int]) + replaced_from(
                        s@,
                        pos as int + 1,
                        replacement@,
                    ) =~= out@ + (seq![s@[pos as int]] + replaced_from(
                        s@,
                        pos as int + 1,
                        replacement@,
                    )));
                }
                out.push(s[pos]);
                pos += 1;
            },
        }
    }
    assert(out@ + replaced_from(s@, pos as int, replacement@) =~= out@);
    proof {
        lemma_replaced_is_rebuilt(s@, 0, replacement@);
    }
    out
}


/// The first escape sequence in `text`, or `None` where it holds none.
pub fn find_first(text: &str) -> (r: Option<Match>)
    ensures
        same_match(r, first_match(text@)),
        r matches Some(m) ==> m.start + 2 <= m.end <= text@.len() && has_shape(
            text@,
            m.start as int,
            m.end as int,
            m.category,
        ),
{
    let chars = to_chars(text);
    find_next_in(chars.as_slice(), 0)
}

/// Every escape sequence in `text`, left to right.
pub fn find_all(text: &str) -> (out: Vec<Match>)
    ensures
        spans(out@) == all_matches(text@),
        well_placed(text@, spans(out@), 0),
{
    let chars = to_chars(text);
    find_all_in(chars.as_slice())
}

/// `text` with every escape sequence replaced by `replacement` and all other
/// characters kept as they are.
pub fn replace_all(text: &str, replacement: &str) -> (out: String)
    ensures
        out@ == replaced(text@, replacement@),
        out@ == rebuilt(text@, 0, all_matches(text@), replacement@),
{
    let chars = to_chars(text);
    let with = to_chars(replacement);
    let out = replace_all_in(chars.as_slice(), with.as_slice());
    string_of(out.as_slice())
}

/// The part of `text` that `m` spans, where `m` lies within `text`.
pub fn matched_text<'a>(text: &'a str, m: &Match) -> (r: Option<&'a str>)
    ensures
        r is Some <==> m.start <= m.end <= text@.len(),
        r matches Some(t) ==> t@ == text@.subrange(m.start as int, m.end as int),
{
    if m.start <= m.end && m.end <= text.unicode_len() {
        Some(text.substring_char(m.start, m.end))
    } else {
        None
    }
}

} // verus!
