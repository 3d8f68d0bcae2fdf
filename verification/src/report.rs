//! What a scan reports for one file: which patterns occur in its bytes, each
//! once, in the order of their first occurrence.

use vstd::prelude::*;
use vstd::utf8::encode_utf8;

verus! {

/// The bytes a pattern is searched as: its UTF-8 encoding.
pub open spec fn needle(pattern: Seq<char>) -> Seq<u8> {
    encode_utf8(pattern)
}

/// The byte strings of a list of patterns, in the same order.
pub open spec fn needles(patterns: Seq<Seq<char>>) -> Seq<Seq<u8>> {
    patterns.map_values(|p: Seq<char>| needle(p))
}

/// Whether `needle` stands in `haystack` at offset `start`, byte for byte.
pub open spec fn occurs_at(needle: Seq<u8>, haystack: Seq<u8>, start: int) -> bool {
    &&& 0 <= start
    &&& start + needle.len() <= haystack.len()
    &&& haystack.subrange(start, start + needle.len()) == needle
}

/// Whether `needle` stands anywhere in `haystack`.
pub open spec fn occurs_in(needle: Seq<u8>, haystack: Seq<u8>) -> bool {
    exists|start: int| occurs_at(needle, haystack, start)
}

/// Whether `start` is the least offset at which `needle` stands in `haystack`.
pub open spec fn is_first_offset(needle: Seq<u8>, haystack: Seq<u8>, start: int) -> bool {
    &&& occurs_at(needle, haystack, start)
    &&& forall|other: int| occurs_at(needle, haystack, other) ==> start <= other
}

/// The least offset at which `needle` stands in `haystack`, where it occurs.
pub open spec fn first_offset(needle: Seq<u8>, haystack: Seq<u8>) -> int {
    choose|start: int| is_first_offset(needle, haystack, start)
}

/// Whether `i` is the first position in `patterns` of the text it holds.
pub open spec fn is_lead(patterns: Seq<Seq<char>>, i: int) -> bool {
    &&& 0 <= i < patterns.len()
    &&& forall|j: int| 0 <= j < i ==> patterns[j] != patterns[i]
}

/// The first position of `text` in `patterns`, where it is listed.
pub open spec fn lead_of(patterns: Seq<Seq<char>>, text: Seq<char>) -> int {
    choose|i: int| is_lead(patterns, i) && patterns[i] == text
}

/// The order of a report: `x` comes before `y` when it first occurs at a
/// smaller offset, or at the same offset and earlier in the pattern list.
pub open spec fn comes_before(
    patterns: Seq<Seq<char>>,
    content: Seq<u8>,
    x: Seq<char>,
    y: Seq<char>,
) -> bool {
    let first_x = first_offset(needle(x), content);
    let first_y = first_offset(needle(y), content);
    first_x < first_y || (first_x == first_y && lead_of(patterns, x) < lead_of(patterns, y))
}

/// Whether `report` is the report of scanning `content` for `patterns`:
/// it lists no pattern twice, lists only listed patterns that occur, lists
/// every pattern that occurs, and is ordered by `comes_before`.
pub open spec fn is_match_report(
    patterns: Seq<Seq<char>>,
    content: Seq<u8>,
    report: Seq<Seq<char>>,
) -> bool {
    &&& report.no_duplicates()
    &&& forall|k: int|
        0 <= k < report.len() ==> patterns.contains(#[trigger] report[k]) && occurs_in(
            needle(report[k]),
            content,
        )
    &&& forall|i: int|
        0 <= i < patterns.len() && occurs_in(needle(#[trigger] patterns[i]), content)
            ==> report.contains(patterns[i])
    &&& forall|a: int, b: int|
        0 <= a < b < report.len() ==> comes_before(
            patterns,
            content,
            #[trigger] report[a],
            #[trigger] report[b],
        )
}

/// Whether `reported` can stand in a match record for `patterns`: it is not
/// empty, lists nothing twice, and lists only listed patterns.
pub open spec fn is_faithful(patterns: Seq<Seq<char>>, reported: Seq<Seq<char>>) -> bool {
    &&& reported.len() > 0
    &&& reported.no_duplicates()
    &&& forall|k: int| 0 <= k < reported.len() ==> patterns.contains(#[trigger] reported[k])
}

/// The report of scanning `content` for `patterns`. There is at most one
/// (see `lemma_match_report_unique`).
pub open spec fn match_report(patterns: Seq<Seq<char>>, content: Seq<u8>) -> Seq<Seq<char>> {
    choose|report: Seq<Seq<char>>| is_match_report(patterns, content, report)
}

/// A least offset is the first offset.
pub proof fn lemma_first_offset_is(needle: Seq<u8>, haystack: Seq<u8>, start: int)
    requires
        is_first_offset(needle, haystack, start),
    ensures
        first_offset(needle, haystack) == start,
{
    let chosen = first_offset(needle, haystack);
    assert(is_first_offset(needle, haystack, chosen));
    assert(occurs_at(needle, haystack, chosen));
    assert(occurs_at(needle, haystack, start));
}

/// A first position of a text is its lead.
pub proof fn lemma_lead_of_is(patterns: Seq<Seq<char>>, i: int)
    requires
        is_lead(patterns, i),
    ensures
        lead_of(patterns, patterns[i]) == i,
{
    let chosen = lead_of(patterns, patterns[i]);
    assert(is_lead(patterns, chosen) && patterns[chosen] == patterns[i]);
    if chosen < i {
        assert(patterns[chosen] != patterns[i]);
    }
    if i < chosen {
        assert(patterns[i] != patterns[chosen]);
    }
}

/// Every listed text has a first position.
pub proof fn lemma_lead_exists(patterns: Seq<Seq<char>>, i: int) -> (lead: int)
    requires
        0 <= i < patterns.len(),
    ensures
        is_lead(patterns, lead),
        patterns[lead] == patterns[i],
        lead <= i,
    decreases i,
{
    if exists|j: int| 0 <= j < i && patterns[j] == patterns[i] {
        let j = choose|j: int| 0 <= j < i && patterns[j] == patterns[i];
        lemma_lead_exists(patterns, j)
    } else {
        i
    }
}

/// Two reports of the same scan agree on their first `k` places.
proof fn lemma_reports_agree_upto(
    patterns: Seq<Seq<char>>,
    content: Seq<u8>,
    r1: Seq<Seq<char>>,
    r2: Seq<Seq<char>>,
    k: int,
)
    requires
        is_match_report(patterns, content, r1),
        is_match_report(patterns, content, r2),
        0 <= k <= r1.len(),
    ensures
        k <= r2.len(),
        forall|j: int| 0 <= j < k ==> r1[j] == r2[j],
    decreases k,
{
    if k > 0 {
        lemma_reports_agree_upto(patterns, content, r1, r2, k - 1);
        let x = r1[k - 1];
        // x is listed and occurs, so the other report holds it, at some place q
        assert(patterns.contains(x));
        let i = choose|i: int| 0 <= i < patterns.len() && patterns[i] == x;
        assert(occurs_in(needle(patterns[i]), content));
        assert(r2.contains(patterns[i]));
        let q = choose|q: int| 0 <= q < r2.len() && r2[q] == x;
        if q < k - 1 {
            assert(r1[q] == r2[q]);
            assert(false);
        }
        if q > k - 1 {
            let y = r2[k - 1];
            assert(comes_before(patterns, content, y, x));
            assert(patterns.contains(y));
            let iy = choose|iy: int| 0 <= iy < patterns.len() && patterns[iy] == y;
            assert(occurs_in(needle(patterns[iy]), content));
            assert(r1.contains(patterns[iy]));
            let p = choose|p: int| 0 <= p < r1.len() && r1[p] == y;
            if p < k - 1 {
                assert(r2[p] == r1[p]);
                assert(false);
            }
            if p == k - 1 {
                assert(false);
            }
            assert(comes_before(patterns, content, x, y));
            assert(false);
        }
    }
}

/// A scan has only one report: two sequences that both meet
/// `is_match_report` for the same patterns and content are equal.
pub proof fn lemma_match_report_unique(
    patterns: Seq<Seq<char>>,
    content: Seq<u8>,
    r1: Seq<Seq<char>>,
    r2: Seq<Seq<char>>,
)
    requires
        is_match_report(patterns, content, r1),
        is_match_report(patterns, content, r2),
    ensures
        r1 == r2,
{
    lemma_reports_agree_upto(patterns, content, r1, r2, r1.len() as int);
    lemma_reports_agree_upto(patterns, content, r2, r1, r2.len() as int);
    assert(r1 =~= r2);
}

/// A sequence that meets `is_match_report` is the report.
pub proof fn lemma_match_report_is(
    patterns: Seq<Seq<char>>,
    content: Seq<u8>,
    report: Seq<Seq<char>>,
)
    requires
        is_match_report(patterns, content, report),
    ensures
        match_report(patterns, content) == report,
{
    lemma_match_report_unique(patterns, content, match_report(patterns, content), report);
}

/// The place at which `x` goes into the ordered `listed`: behind the last
/// item that comes before it.
pub open spec fn place_of(
    patterns: Seq<Seq<char>>,
    content: Seq<u8>,
    listed: Seq<Seq<char>>,
    x: Seq<char>,
) -> int
    decreases listed.len(),
{
    if listed.len() == 0 {
        0
    } else if comes_before(patterns, content, listed.last(), x) {
        listed.len() as int
    } else {
        place_of(patterns, content, listed.drop_last(), x)
    }
}

/// The report built from the first `upto` patterns alone: each pattern that
/// is the first of its text and occurs is put at its place among those
/// before it.
pub open spec fn report_upto(patterns: Seq<Seq<char>>, content: Seq<u8>, upto: int) -> Seq<
    Seq<char>,
>
    decreases upto,
{
    if upto <= 0 {
        Seq::empty()
    } else {
        let earlier = report_upto(patterns, content, upto - 1);
        let x = patterns[upto - 1];
        if is_lead(patterns, upto - 1) && occurs_in(needle(x), content) {
            earlier.insert(place_of(patterns, content, earlier, x), x)
        } else {
            earlier
        }
    }
}

/// Whether `x` is the text of a pattern below `upto` that is the first of
/// its text and occurs in `content`.
pub open spec fn is_hit_below(
    patterns: Seq<Seq<char>>,
    content: Seq<u8>,
    upto: int,
    x: Seq<char>,
) -> bool {
    exists|i: int|
        0 <= i < upto && is_lead(patterns, i) && #[trigger] patterns[i] == x && occurs_in(
            needle(x),
            content,
        )
}

/// The place of `x` in an ordered sequence parts it: what stands before the
/// place comes before `x`, what stands at or behind it comes after.
proof fn lemma_place_parts(
    patterns: Seq<Seq<char>>,
    content: Seq<u8>,
    listed: Seq<Seq<char>>,
    x: Seq<char>,
)
    requires
        forall|a: int, b: int|
            0 <= a < b < listed.len() ==> comes_before(
                patterns,
                content,
                #[trigger] listed[a],
                #[trigger] listed[b],
            ),
        forall|k: int|
            0 <= k < listed.len() ==> lead_of(patterns, #[trigger] listed[k]) != lead_of(
                patterns,
                x,
            ),
    ensures
        0 <= place_of(patterns, content, listed, x) <= listed.len(),
        forall|a: int|
            0 <= a < place_of(patterns, content, listed, x) ==> comes_before(
                patterns,
                content,
                #[trigger] listed[a],
                x,
            ),
        forall|b: int|
            place_of(patterns, content, listed, x) <= b < listed.len() ==> comes_before(
                patterns,
                content,
                x,
                #[trigger] listed[b],
            ),
    decreases listed.len(),
{
    if listed.len() > 0 {
        let last = listed.last();
        if comes_before(patterns, content, last, x) {
            assert forall|a: int| 0 <= a < listed.len() implies comes_before(
                patterns,
                content,
                #[trigger] listed[a],
                x,
            ) by {
                if a < listed.len() - 1 {
                    assert(comes_before(patterns, content, listed[a], listed[listed.len() - 1]));
                }
            }
        } else {
            let shorter = listed.drop_last();
            assert forall|a: int, b: int| 0 <= a < b < shorter.len() implies comes_before(
                patterns,
                content,
                #[trigger] shorter[a],
                #[trigger] shorter[b],
            ) by {
                assert(shorter[a] == listed[a] && shorter[b] == listed[b]);
            }
            assert forall|k: int| 0 <= k < shorter.len() implies lead_of(
                patterns,
                #[trigger] shorter[k],
            ) != lead_of(patterns, x) by {
                assert(shorter[k] == listed[k]);
            }
            lemma_place_parts(patterns, content, shorter, x);
            let place = place_of(patterns, content, listed, x);
            assert forall|a: int| 0 <= a < place implies comes_before(
                patterns,
                content,
                #[trigger] listed[a],
                x,
            ) by {
                assert(shorter[a] == listed[a]);
            }
            assert forall|b: int| place <= b < listed.len() implies comes_before(
                patterns,
                content,
                x,
                #[trigger] listed[b],
            ) by {
                if b < listed.len() - 1 {
                    assert(shorter[b] == listed[b]);
                } else {
                    assert(listed[b] == last);
                    assert(lead_of(patterns, listed[b]) != lead_of(patterns, x));
                }
            }
        }
    }
}

/// The report built from the first `upto` patterns is ordered and holds
/// exactly the texts of the patterns below `upto` that are to be reported.
proof fn lemma_report_upto(patterns: Seq<Seq<char>>, content: Seq<u8>, upto: int)
    requires
        0 <= upto <= patterns.len(),
    ensures
        forall|a: int, b: int|
            0 <= a < b < report_upto(patterns, content, upto).len() ==> comes_before(
                patterns,
                content,
                #[trigger] report_upto(patterns, content, upto)[a],
                #[trigger] report_upto(patterns, content, upto)[b],
            ),
        forall|k: int|
            0 <= k < report_upto(patterns, content, upto).len() ==> is_hit_below(
                patterns,
                content,
                upto,
                #[trigger] report_upto(patterns, content, upto)[k],
            ),
        forall|x: Seq<char>|
            is_hit_below(patterns, content, upto, x) ==> report_upto(
                patterns,
                content,
                upto,
            ).contains(x),
    decreases upto,
{
    if upto > 0 {
        let i = upto - 1;
        let earlier = report_upto(patterns, content, i);
        let later = report_upto(patterns, content, upto);
        let x = patterns[i];
        lemma_report_upto(patterns, content, i);
        assert forall|k: int| 0 <= k < earlier.len() implies is_hit_below(
            patterns,
            content,
            upto,
            #[trigger] earlier[k],
        ) by {
            assert(is_hit_below(patterns, content, i, earlier[k]));
            let j = choose|j: int|
                0 <= j < i && is_lead(patterns, j) && #[trigger] patterns[j] == earlier[k]
                    && occurs_in(needle(earlier[k]), content);
            assert(0 <= j < upto && patterns[j] == earlier[k]);
        }
        if is_lead(patterns, i) && occurs_in(needle(x), content) {
            lemma_lead_of_is(patterns, i);
            assert forall|k: int| 0 <= k < earlier.len() implies lead_of(
                patterns,
                #[trigger] earlier[k],
            ) != lead_of(patterns, x) by {
                assert(is_hit_below(patterns, content, i, earlier[k]));
                let j = choose|j: int|
                    0 <= j < i && is_lead(patterns, j) && #[trigger] patterns[j] == earlier[k]
                        && occurs_in(needle(earlier[k]), content);
                lemma_lead_of_is(patterns, j);
            }
            lemma_place_parts(patterns, content, earlier, x);
            let place = place_of(patterns, content, earlier, x);
            earlier.insert_ensures(place, x);
            assert(later == earlier.insert(place, x));
            assert forall|a: int, b: int| 0 <= a < b < later.len() implies comes_before(
                patterns,
                content,
                #[trigger] later[a],
                #[trigger] later[b],
            ) by {
                if b < place {
                    assert(later[a] == earlier[a] && later[b] == earlier[b]);
                } else if b == place {
                    assert(later[a] == earlier[a]);
                } else {
                    assert(later[b] == earlier[b - 1]);
                    if a < place {
                        assert(later[a] == earlier[a]);
                        assert(comes_before(patterns, content, earlier[a], x));
                        assert(comes_before(patterns, content, x, earlier[b - 1]));
                    } else if a == place {
                    } else {
                        assert(later[a] == earlier[a - 1]);
                    }
                }
            }
            assert forall|k: int| 0 <= k < later.len() implies is_hit_below(
                patterns,
                content,
                upto,
                #[trigger] later[k],
            ) by {
                if k < place {
                    assert(later[k] == earlier[k]);
                } else if k == place {
                    assert(patterns[i] == x);
                } else {
                    assert(later[k] == earlier[k - 1]);
                }
            }
            assert forall|y: Seq<char>|
                is_hit_below(patterns, content, upto, y) implies later.contains(y) by {
                let j = choose|j: int|
                    0 <= j < upto && is_lead(patterns, j) && #[trigger] patterns[j] == y
                        && occurs_in(needle(y), content);
                if j == i {
                    assert(later[place] == y);
                } else {
                    assert(is_hit_below(patterns, content, i, y));
                    let k = choose|k: int| 0 <= k < earlier.len() && earlier[k] == y;
                    if k < place {
                        assert(later[k] == y);
                    } else {
                        assert(later[k + 1] == y);
                    }
                }
            }
        } else {
            assert forall|y: Seq<char>|
                is_hit_below(patterns, content, upto, y) implies later.contains(y) by {
                let j = choose|j: int|
                    0 <= j < upto && is_lead(patterns, j) && #[trigger] patterns[j] == y
                        && occurs_in(needle(y), content);
                assert(j != i);
                assert(is_hit_below(patterns, content, i, y));
            }
        }
    }
}

/// Every scan has a report: `match_report` meets `is_match_report` for every
/// pattern list and every content.
pub proof fn lemma_match_report_exists(patterns: Seq<Seq<char>>, content: Seq<u8>)
    ensures
        is_match_report(patterns, content, match_report(patterns, content)),
{
    let built = report_upto(patterns, content, patterns.len() as int);
    lemma_report_upto(patterns, content, patterns.len() as int);
    assert forall|a: int, b: int|
        0 <= a < built.len() && 0 <= b < built.len() && a != b implies built[a] != built[b] by {
        if a < b {
            assert(comes_before(patterns, content, built[a], built[b]));
        } else {
            assert(comes_before(patterns, content, built[b], built[a]));
        }
    }
    assert forall|k: int| 0 <= k < built.len() implies patterns.contains(#[trigger] built[k])
        && occurs_in(needle(built[k]), content) by {
        assert(is_hit_below(patterns, content, patterns.len() as int, built[k]));
    }
    assert forall|i: int|
        0 <= i < patterns.len() && occurs_in(
            needle(#[trigger] patterns[i]),
            content,
        ) implies built.contains(patterns[i]) by {
        let lead = lemma_lead_exists(patterns, i);
        assert(is_hit_below(patterns, content, patterns.len() as int, patterns[lead]));
    }
    assert(is_match_report(patterns, content, built));
}

} // verus!
