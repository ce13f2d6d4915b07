//! The shape of each category of sequence, stated over a span of the text
//! without reference to any scan, and the proofs that the recognizers of the
//! grammar find exactly the spans of these shapes: every recognized span has
//! the shape of its category, and of the spans of that shape that start at a
//! position the longest is recognized.

use vstd::prelude::*;
use crate::grammar::Category;
use crate::grammar::ESC;
use crate::grammar::BEL;
use crate::grammar::CSI;
use crate::grammar::ST;
use crate::grammar::is_digit;
use crate::grammar::is_final_byte;
use crate::grammar::is_osc_body;
use crate::grammar::is_param_byte;
use crate::grammar::is_separator;
use crate::grammar::is_short_final;
use crate::grammar::is_charset_final;
use crate::grammar::is_hash_final;
use crate::grammar::params_end;
use crate::grammar::digits_end;
use crate::grammar::osc_body_end;
use crate::grammar::block_end;
use crate::grammar::last_digit_end;
use crate::grammar::csi_body_end;
use crate::grammar::category_end;
use crate::grammar::lemma_block_end_bounds;
use crate::grammar::lemma_last_digit_end_bounds;
use crate::scanner::sequence_at;

verus! {

/// Every character of `[lo, hi)` is a parameter byte.
pub open spec fn all_params(s: Seq<char>, lo: int, hi: int) -> bool {
    forall|k: int| lo <= k < hi ==> is_param_byte(#[trigger] s[k])
}

/// Every character of `[lo, hi)` is a digit.
pub open spec fn all_digits(s: Seq<char>, lo: int, hi: int) -> bool {
    forall|k: int| lo <= k < hi ==> is_digit(#[trigger] s[k])
}

/// No character of `[lo, hi)` is BEL, ESC or the string terminator.
pub open spec fn all_osc_body(s: Seq<char>, lo: int, hi: int) -> bool {
    forall|k: int| lo <= k < hi ==> is_osc_body(#[trigger] s[k])
}

/// Every character of `[lo, hi)` is a digit or a separator.
pub open spec fn all_block_chars(s: Seq<char>, lo: int, hi: int) -> bool {
    forall|k: int| lo <= k < hi ==> is_digit(#[trigger] s[k]) || is_separator(s[k])
}

/// Five digits in a row start at `k`.
pub open spec fn five_digits(s: Seq<char>, k: int) -> bool {
    is_digit(s[k]) && is_digit(s[k + 1]) && is_digit(s[k + 2]) && is_digit(s[k + 3]) && is_digit(
        s[k + 4],
    )
}

/// No five digits in a row stand within `[lo, hi)`.
pub open spec fn no_long_group(s: Seq<char>, lo: int, hi: int) -> bool {
    forall|k: int| lo <= k && k + 4 < hi ==> !#[trigger] five_digits(s, k)
}

/// `[lo, hi)` is a block of numeric parameters: groups of digits between
/// separators, the first group of one to four digits, every further group
/// of none to four.  That is: it starts with a digit, holds digits and
/// separators only, and never five digits in a row.
pub open spec fn numeric_block(s: Seq<char>, lo: int, hi: int) -> bool {
    &&& 0 <= lo < hi <= s.len()
    &&& is_digit(s[lo])
    &&& all_block_chars(s, lo, hi)
    &&& no_long_group(s, lo, hi)
}

/// `[body, e)` is parameter bytes up to `p`, then nothing or a block of
/// numeric parameters, then one final byte.
pub open spec fn control_body_split(s: Seq<char>, body: int, p: int, e: int) -> bool {
    &&& 0 <= body <= p < e <= s.len()
    &&& all_params(s, body, p)
    &&& p == e - 1 || numeric_block(s, p, e - 1)
    &&& is_final_byte(s[e - 1])
}

/// `[body, e)` is what may follow a control sequence introducer.
pub open spec fn is_control_body(s: Seq<char>, body: int, e: int) -> bool {
    exists|p: int| control_body_split(s, body, p, e)
}

/// `[t, e)` is one of the three terminators of an operating system command.
pub open spec fn is_terminator(s: Seq<char>, t: int, e: int) -> bool {
    ||| e == t + 1 && (s[t] == BEL || s[t] == ST)
    ||| e == t + 2 && s[t] == ESC && s[t + 1] == '\\'
}

/// `[pos, e)` is ESC `]`, a body up to `t` that holds no BEL, ESC or string
/// terminator, and then a terminator.
pub open spec fn osc_split(s: Seq<char>, pos: int, t: int, e: int) -> bool {
    &&& 0 <= pos && pos + 2 <= t < e <= s.len()
    &&& s[pos] == ESC && s[pos + 1] == ']'
    &&& all_osc_body(s, pos + 2, t)
    &&& is_terminator(s, t, e)
}

/// Whether `[pos, e)` has the shape of the given category.
pub open spec fn has_shape(s: Seq<char>, pos: int, e: int, category: Category) -> bool {
    match category {
        Category::Osc => exists|t: int| osc_split(s, pos, t, e),
        Category::CsiEscape => 0 <= pos && pos + 2 <= s.len() && s[pos] == ESC && s[pos + 1]
            == '[' && is_control_body(s, pos + 2, e),
        Category::CsiSingle => 0 <= pos < s.len() && s[pos] == CSI && is_control_body(
            s,
            pos + 1,
            e,
        ),
        Category::ShortEscape => 0 <= pos && e == pos + 2 && e <= s.len() && s[pos] == ESC
            && is_short_final(s[pos + 1]),
        Category::CharsetSelect => 0 <= pos && e == pos + 3 && e <= s.len() && s[pos] == ESC && (
        s[pos + 1] == '(' || s[pos + 1] == ')') && is_charset_final(s[pos + 2]),
        Category::HashSequence => 0 <= pos && e == pos + 3 && e <= s.len() && s[pos] == ESC
            && s[pos + 1] == '#' && is_hash_final(s[pos + 2]),
        Category::StatusReport => 0 <= pos && pos + 3 <= e <= s.len() && s[pos] == ESC
            && all_digits(s, pos + 1, e - 1) && s[e - 1] == 'n',
    }
}

/// What `params_end` skips are parameter bytes, and it stops at the first
/// character that is none.
pub proof fn lemma_params_run(s: Seq<char>, i: int)
    requires
        0 <= i <= s.len(),
    ensures
        i <= params_end(s, i) <= s.len(),
        all_params(s, i, params_end(s, i)),
        params_end(s, i) == s.len() || !is_param_byte(s[params_end(s, i)]),
    decreases s.len() - i,
{
    if i < s.len() && is_param_byte(s[i]) {
        lemma_params_run(s, i + 1);
    }
}

/// A run of parameter bytes from `i` that stops before `q` ends at `q`.
pub proof fn lemma_params_end_unique(s: Seq<char>, i: int, q: int)
    requires
        0 <= i <= q <= s.len(),
        all_params(s, i, q),
        q == s.len() || !is_param_byte(s[q]),
    ensures
        params_end(s, i) == q,
    decreases q - i,
{
    if i < q {
        assert(is_param_byte(s[i]));
        lemma_params_end_unique(s, i + 1, q);
    }
}

/// What `digits_end` skips are digits, and it stops at the first character
/// that is none.
pub proof fn lemma_digits_run(s: Seq<char>, i: int)
    requires
        0 <= i <= s.len(),
    ensures
        i <= digits_end(s, i) <= s.len(),
        all_digits(s, i, digits_end(s, i)),
        digits_end(s, i) == s.len() || !is_digit(s[digits_end(s, i)]),
    decreases s.len() - i,
{
    if i < s.len() && is_digit(s[i]) {
        lemma_digits_run(s, i + 1);
    }
}

/// A run of digits from `i` that stops before `q` ends at `q`.
pub proof fn lemma_digits_end_unique(s: Seq<char>, i: int, q: int)
    requires
        0 <= i <= q <= s.len(),
        all_digits(s, i, q),
        q == s.len() || !is_digit(s[q]),
    ensures
        digits_end(s, i) == q,
    decreases q - i,
{
    if i < q {
        assert(is_digit(s[i]));
        lemma_digits_end_unique(s, i + 1, q);
    }
}

/// What `osc_body_end` skips holds no BEL, ESC or string terminator, and it
/// stops at the first of these.
pub proof fn lemma_osc_body_run(s: Seq<char>, i: int)
    requires
        0 <= i <= s.len(),
    ensures
        i <= osc_body_end(s, i) <= s.len(),
        all_osc_body(s, i, osc_body_end(s, i)),
        osc_body_end(s, i) == s.len() || !is_osc_body(s[osc_body_end(s, i)]),
    decreases s.len() - i,
{
    if i < s.len() && is_osc_body(s[i]) {
        lemma_osc_body_run(s, i + 1);
    }
}

/// A body from `i` that stops before `q` ends at `q`.
pub proof fn lemma_osc_body_end_unique(s: Seq<char>, i: int, q: int)
    requires
        0 <= i <= q <= s.len(),
        all_osc_body(s, i, q),
        q == s.len() || !is_osc_body(s[q]),
    ensures
        osc_body_end(s, i) == q,
    decreases q - i,
{
    if i < q {
        assert(is_osc_body(s[i]));
        lemma_osc_body_end_unique(s, i + 1, q);
    }
}

/// Whether the group that `i` stands in holds exactly the `run` digits that
/// stand just before `i`, within a block that starts at `lo`.
pub open spec fn group_so_far(s: Seq<char>, lo: int, i: int, run: nat) -> bool {
    &&& run <= 4
    &&& lo <= i - run
    &&& all_digits(s, i - run, i)
    &&& i - run == lo || !is_digit(s[i - run - 1])
}

/// What `block_end` takes from `i` on keeps `[lo, ..)` a run of digits and
/// separators without five digits in a row.
pub proof fn lemma_block_run(s: Seq<char>, lo: int, i: int, run: nat)
    requires
        0 <= lo <= i <= s.len(),
        group_so_far(s, lo, i, run),
        all_block_chars(s, lo, i),
        no_long_group(s, lo, i),
    ensures
        i <= block_end(s, i, run) <= s.len(),
        all_block_chars(s, lo, block_end(s, i, run)),
        no_long_group(s, lo, block_end(s, i, run)),
    decreases s.len() - i,
{
    if i < s.len() && is_digit(s[i]) && run < 4 {
        assert forall|k: int| lo <= k && k + 4 < i + 1 implies !#[trigger] five_digits(s, k) by {
            if k + 4 == i {
                if i - run > lo {
                    assert(!is_digit(s[i - run - 1]));
                    assert(k <= i - run - 1 <= k + 4);
                }
            } else {
                assert(!five_digits(s, k));
            }
        }
        lemma_block_run(s, lo, i + 1, run + 1);
    } else if i < s.len() && is_separator(s[i]) {
        assert forall|k: int| lo <= k && k + 4 < i + 1 implies !#[trigger] five_digits(s, k) by {
            if k + 4 < i {
                assert(!five_digits(s, k));
            }
        }
        lemma_block_run(s, lo, i + 1, 0);
    }
}

/// `block_end` reaches at least the end of every block of numeric
/// parameters that it is started in.
pub proof fn lemma_block_reaches(s: Seq<char>, lo: int, i: int, run: nat, h: int)
    requires
        numeric_block(s, lo, h),
        lo < i <= h,
        run <= 4,
        lo <= i - run,
        all_digits(s, i - run, i),
    ensures
        h <= block_end(s, i, run),
    decreases h - i,
{
    if i < h {
        assert(is_digit(s[i]) || is_separator(s[i]));
        if is_digit(s[i]) {
            if run < 4 {
                lemma_block_reaches(s, lo, i + 1, run + 1, h);
            } else {
                assert(is_digit(s[i - 4]) && is_digit(s[i - 3]) && is_digit(s[i - 2]) && is_digit(
                    s[i - 1],
                ));
                assert(five_digits(s, i - 4));
                assert(false);
            }
        } else {
            lemma_block_reaches(s, lo, i + 1, 0, h);
        }
    } else {
        lemma_block_end_bounds(s, i, run);
    }
}

/// Stepping back from `hi` ends behind a digit, where `lo` holds one.
pub proof fn lemma_last_digit_end_is_digit(s: Seq<char>, lo: int, hi: int)
    requires
        0 <= lo < hi <= s.len(),
        is_digit(s[lo]),
    ensures
        lo < last_digit_end(s, lo, hi) <= hi,
        is_digit(s[last_digit_end(s, lo, hi) - 1]),
    decreases hi - lo,
{
    if lo + 1 < hi && !is_digit(s[hi - 1]) {
        lemma_last_digit_end_is_digit(s, lo, hi - 1);
    }
}

/// Stepping back from `hi` does not pass a digit.
pub proof fn lemma_last_digit_end_covers(s: Seq<char>, lo: int, hi: int, k: int)
    requires
        0 <= lo <= k < hi <= s.len(),
        is_digit(s[k]),
    ensures
        k + 1 <= last_digit_end(s, lo, hi),
    decreases hi - lo,
{
    if lo + 1 < hi && !is_digit(s[hi - 1]) {
        lemma_last_digit_end_covers(s, lo, hi - 1, k);
    }
}

/// What is recognized behind a control sequence introducer has the shape of
/// a control sequence body.
pub proof fn lemma_csi_body_end_sound(s: Seq<char>, body: int)
    requires
        0 <= body <= s.len(),
        csi_body_end(s, body) is Some,
    ensures
        is_control_body(s, body, csi_body_end(s, body)->0),
{
    let q = params_end(s, body);
    let e = csi_body_end(s, body)->0;
    lemma_params_run(s, body);
    if is_digit(s[q]) {
        assert(group_so_far(s, q, q + 1, 1));
        lemma_block_run(s, q, q + 1, 1);
        let r = block_end(s, q + 1, 1);
        if r < s.len() && is_final_byte(s[r]) {
            assert(numeric_block(s, q, r));
        } else {
            lemma_last_digit_end_is_digit(s, q, r);
            if e - 1 > q {
                assert(numeric_block(s, q, e - 1));
            }
        }
    }
    assert(control_body_split(s, body, q, e));
}

/// Where a span behind a control sequence introducer has the shape of a
/// control sequence body, a body is recognized there, and it is at least as
/// long.
pub proof fn lemma_csi_body_end_longest(s: Seq<char>, body: int, e2: int)
    requires
        is_control_body(s, body, e2),
    ensures
        csi_body_end(s, body) matches Some(e) && e2 <= e,
{
    let p = choose|p: int| control_body_split(s, body, p, e2);
    assert(!is_param_byte(s[p])) by {
        if p != e2 - 1 {
            assert(is_digit(s[p]));
        }
    }
    lemma_params_end_unique(s, body, p);
    let q = params_end(s, body);
    if is_digit(s[q]) {
        let r = block_end(s, q + 1, 1);
        lemma_block_end_bounds(s, q + 1, 1);
        lemma_last_digit_end_bounds(s, q, r);
        if p != e2 - 1 {
            lemma_block_reaches(s, q, q + 1, 1, e2 - 1);
            if !(r < s.len() && is_final_byte(s[r])) {
                assert(r >= e2);
                if is_digit(s[e2 - 1]) {
                    lemma_last_digit_end_covers(s, q, r, e2 - 1);
                } else {
                    assert(group_so_far(s, q, q + 1, 1));
                    lemma_block_run(s, q, q + 1, 1);
                    assert(is_digit(s[e2 - 1]) || is_separator(s[e2 - 1]));
                }
            }
        }
    }
}

/// A recognized sequence has the shape of its category.
pub proof fn lemma_recognized_has_shape(s: Seq<char>, pos: int, category: Category)
    requires
        category_end(s, pos, category) is Some,
    ensures
        has_shape(s, pos, category_end(s, pos, category)->0, category),
{
    let e = category_end(s, pos, category)->0;
    match category {
        Category::Osc => {
            lemma_osc_body_run(s, pos + 2);
            assert(osc_split(s, pos, osc_body_end(s, pos + 2), e));
        },
        Category::CsiEscape => {
            lemma_csi_body_end_sound(s, pos + 2);
        },
        Category::CsiSingle => {
            lemma_csi_body_end_sound(s, pos + 1);
        },
        Category::ShortEscape => {},
        Category::CharsetSelect => {},
        Category::HashSequence => {},
        Category::StatusReport => {
            lemma_digits_run(s, pos + 1);
        },
    }
}

/// Where a span has the shape of a category, a sequence of that category is
/// recognized at its start, and it is at least as long; for every category
/// but the control sequences it is that very span.
pub proof fn lemma_shape_is_recognized(s: Seq<char>, pos: int, e2: int, category: Category)
    requires
        has_shape(s, pos, e2, category),
    ensures
        category_end(s, pos, category) matches Some(e) && e2 <= e && (category
            != Category::CsiEscape && category != Category::CsiSingle ==> e == e2),
{
    match category {
        Category::Osc => {
            let t = choose|t: int| osc_split(s, pos, t, e2);
            assert(!is_osc_body(s[t]));
            lemma_osc_body_end_unique(s, pos + 2, t);
        },
        Category::CsiEscape => {
            lemma_csi_body_end_longest(s, pos + 2, e2);
        },
        Category::CsiSingle => {
            lemma_csi_body_end_longest(s, pos + 1, e2);
        },
        Category::ShortEscape => {},
        Category::CharsetSelect => {},
        Category::HashSequence => {},
        Category::StatusReport => {
            assert(!is_digit(s[e2 - 1]));
            lemma_digits_end_unique(s, pos + 1, e2 - 1);
        },
    }
}


/// The place of a category in the order in which the categories are tried.
pub open spec fn rank(category: Category) -> int {
    match category {
        Category::Osc => 0,
        Category::CsiEscape => 1,
        Category::CsiSingle => 2,
        Category::ShortEscape => 3,
        Category::CharsetSelect => 4,
        Category::HashSequence => 5,
        Category::StatusReport => 6,
    }
}

/// What is recognized at a position, said without the recognizers: the
/// category is the first, in the fixed order, of which some span that
/// starts at the position has the shape, and the span is the longest of
/// that shape.  Nothing is recognized only where no span that starts at the
/// position has the shape of any category.
pub proof fn lemma_sequence_is_first_longest_shape(s: Seq<char>, pos: int)
    ensures
        match sequence_at(s, pos) {
            Some(m) => {
                &&& m.start == pos
                &&& has_shape(s, pos, m.end, m.category)
                &&& forall|e: int| #[trigger] has_shape(s, pos, e, m.category) ==> e <= m.end
                &&& forall|c: Category, e: int|
                    rank(c) < rank(m.category) ==> !#[trigger] has_shape(s, pos, e, c)
            },
            None => forall|c: Category, e: int| !#[trigger] has_shape(s, pos, e, c),
        },
{
    assert forall|c: Category, e: int| #[trigger] has_shape(s, pos, e, c) implies (category_end(
        s,
        pos,
        c,
    ) matches Some(end) && e <= end) by {
        lemma_shape_is_recognized(s, pos, e, c);
    }
    match sequence_at(s, pos) {
        Some(m) => {
            lemma_recognized_has_shape(s, pos, m.category);
        },
        None => {},
    }
}

} // verus!
