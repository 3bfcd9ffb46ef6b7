//! Edit distance between a pattern and a text, under a rule that says
//! which characters match.

use crate::config::chars_match_spec;
use crate::hits::agree;
use vstd::prelude::*;

verus! {

/// The smaller of two numbers.
pub open spec fn min2(a: nat, b: nat) -> nat {
    if a <= b {
        a
    } else {
        b
    }
}

/// What it costs to put `p` of the pattern against `c` of the text:
/// nothing where they match, one error where they do not.
pub open spec fn sub_cost(ignored: Set<char>, case_insensitive: bool, p: char, c: char) -> nat {
    if chars_match_spec(ignored, case_insensitive, p, c) {
        0
    } else {
        1
    }
}

/// The least number of errors with which the pattern can be laid along
/// the text. An error is a character of the pattern put against a text
/// character it does not match, a character of the pattern left out, or
/// a character of the text left out.
pub open spec fn dist(
    ignored: Set<char>,
    case_insensitive: bool,
    pattern: Seq<char>,
    text: Seq<char>,
) -> nat
    decreases pattern.len() + text.len(),
{
    if pattern.len() == 0 {
        text.len()
    } else if text.len() == 0 {
        pattern.len()
    } else {
        min2(
            min2(
                dist(ignored, case_insensitive, pattern.drop_last(), text) + 1,
                dist(ignored, case_insensitive, pattern.drop_last(), text.drop_last()) + sub_cost(
                    ignored,
                    case_insensitive,
                    pattern.last(),
                    text.last(),
                ),
            ),
            dist(ignored, case_insensitive, pattern, text.drop_last()) + 1,
        )
    }
}

/// The least number of errors with which the pattern can be laid along
/// the text so that the last character of the text is not left out.
/// There is no such way for an empty pattern and a text that is not
/// empty.
pub open spec fn match_cost(
    ignored: Set<char>,
    case_insensitive: bool,
    pattern: Seq<char>,
    text: Seq<char>,
) -> Option<nat> {
    if pattern.len() == 0 {
        if text.len() == 0 {
            Some(0nat)
        } else {
            None
        }
    } else if text.len() == 0 {
        Some(dist(ignored, case_insensitive, pattern.drop_last(), text) + 1)
    } else {
        Some(
            min2(
                dist(ignored, case_insensitive, pattern.drop_last(), text) + 1,
                dist(ignored, case_insensitive, pattern.drop_last(), text.drop_last()) + sub_cost(
                    ignored,
                    case_insensitive,
                    pattern.last(),
                    text.last(),
                ),
            ),
        )
    }
}

/// The distance is the cost of ending on the last text character, or
/// one more than the distance to the text without that character,
/// whichever is less.
pub proof fn lemma_dist_split(
    ignored: Set<char>,
    case_insensitive: bool,
    pattern: Seq<char>,
    text: Seq<char>,
)
    ensures
        text.len() == 0 ==> match_cost(ignored, case_insensitive, pattern, text) == Some(
            dist(ignored, case_insensitive, pattern, text),
        ),
        text.len() > 0 ==> dist(ignored, case_insensitive, pattern, text) == match match_cost(
            ignored,
            case_insensitive,
            pattern,
            text,
        ) {
            Some(e) => min2(e, dist(ignored, case_insensitive, pattern, text.drop_last()) + 1),
            None => dist(ignored, case_insensitive, pattern, text.drop_last()) + 1,
        },
{
    if text.len() == 0 {
        if pattern.len() > 0 {
            assert(dist(ignored, case_insensitive, pattern.drop_last(), text) == pattern.len() - 1);
        }
    } else if pattern.len() == 0 {
        assert(dist(ignored, case_insensitive, pattern, text.drop_last()) == text.len() - 1);
    }
}

/// The cost for a pattern with one more character.
pub proof fn lemma_match_cost_push(
    ignored: Set<char>,
    case_insensitive: bool,
    pattern: Seq<char>,
    c: char,
    text: Seq<char>,
)
    ensures
        text.len() == 0 ==> match_cost(ignored, case_insensitive, pattern.push(c), text) == Some(
            dist(ignored, case_insensitive, pattern, text) + 1,
        ),
        text.len() > 0 ==> match_cost(ignored, case_insensitive, pattern.push(c), text) == Some(
            min2(
                dist(ignored, case_insensitive, pattern, text) + 1,
                dist(ignored, case_insensitive, pattern, text.drop_last()) + sub_cost(
                    ignored,
                    case_insensitive,
                    c,
                    text.last(),
                ),
            ),
        ),
{
    assert(pattern.push(c).drop_last() =~= pattern);
}

/// The distance is zero exactly where pattern and text agree.
pub proof fn lemma_dist_zero(
    ignored: Set<char>,
    case_insensitive: bool,
    pattern: Seq<char>,
    text: Seq<char>,
)
    ensures
        dist(ignored, case_insensitive, pattern, text) == 0 <==> agree(
            ignored,
            case_insensitive,
            pattern,
            text,
        ),
    decreases pattern.len() + text.len(),
{
    if pattern.len() == 0 || text.len() == 0 {
    } else {
        let p = pattern.drop_last();
        let t = text.drop_last();
        lemma_dist_zero(ignored, case_insensitive, p, t);
        assert(pattern =~= p.push(pattern.last()));
        assert(text =~= t.push(text.last()));
        crate::hits::lemma_agree_push(
            ignored,
            case_insensitive,
            p,
            t,
            pattern.last(),
            text.last(),
        );
    }
}

/// No errors are needed exactly where pattern and text agree.
pub proof fn lemma_match_cost_zero(
    ignored: Set<char>,
    case_insensitive: bool,
    pattern: Seq<char>,
    text: Seq<char>,
)
    ensures
        match_cost(ignored, case_insensitive, pattern, text) == Some(0nat) <==> agree(
            ignored,
            case_insensitive,
            pattern,
            text,
        ),
{
    if pattern.len() == 0 || text.len() == 0 {
    } else {
        let p = pattern.drop_last();
        let t = text.drop_last();
        lemma_dist_zero(ignored, case_insensitive, p, t);
        assert(pattern =~= p.push(pattern.last()));
        assert(text =~= t.push(text.last()));
        crate::hits::lemma_agree_push(
            ignored,
            case_insensitive,
            p,
            t,
            pattern.last(),
            text.last(),
        );
    }
}

/// A text within some distance of the pattern starts with a text that
/// the pattern can be laid along, ending on its last character, with no
/// more errors.
pub proof fn lemma_dist_has_prefix(
    ignored: Set<char>,
    case_insensitive: bool,
    pattern: Seq<char>,
    text: Seq<char>,
) -> (len: int)
    ensures
        0 <= len <= text.len(),
        match_cost(ignored, case_insensitive, pattern, text.take(len)) is Some,
        match_cost(ignored, case_insensitive, pattern, text.take(len))->0 <= dist(
            ignored,
            case_insensitive,
            pattern,
            text,
        ),
    decreases text.len(),
{
    lemma_dist_split(ignored, case_insensitive, pattern, text);
    if text.len() == 0 {
        assert(text.take(0) =~= text);
        0
    } else {
        let d = dist(ignored, case_insensitive, pattern, text);
        match match_cost(ignored, case_insensitive, pattern, text) {
            Some(e) => {
                if e <= d {
                    assert(text.take(text.len() as int) =~= text);
                    text.len() as int
                } else {
                    let len = lemma_dist_has_prefix(
                        ignored,
                        case_insensitive,
                        pattern,
                        text.drop_last(),
                    );
                    assert(text.drop_last().take(len) =~= text.take(len));
                    len
                }
            },
            None => {
                let len = lemma_dist_has_prefix(
                    ignored,
                    case_insensitive,
                    pattern,
                    text.drop_last(),
                );
                assert(text.drop_last().take(len) =~= text.take(len));
                len
            },
        }
    }
}

} // verus!
