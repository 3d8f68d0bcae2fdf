//! The pattern matching engine: one Aho-Corasick automaton, built once from
//! the pattern list and used for every file.

use aho_corasick::{AhoCorasick, BuildError};
use vstd::prelude::*;
use crate::model::texts;
use crate::report::{
    comes_before, first_offset, is_lead, is_match_report, lemma_first_offset_is, lemma_lead_exists,
    lemma_lead_of_is, lemma_match_report_is, match_report, needle, needles, occurs_at, occurs_in,
};

verus! {

/// The automaton of the `aho-corasick` crate. Its inside is not visible to
/// the verifier.
#[verifier::external_type_specification]
#[verifier::external_body]
pub struct ExAhoCorasick(AhoCorasick);

/// The error of the `aho-corasick` crate for an automaton that cannot be
/// built because a size limit of the crate is exceeded.
#[verifier::external_type_specification]
#[verifier::external_body]
pub struct ExBuildError(BuildError);

/// The byte strings an automaton was built from, in the order they were
/// given. The position of a byte string in this list is its pattern
/// identifier.
pub uninterp spec fn automaton_patterns(automaton: AhoCorasick) -> Seq<Seq<u8>>;

/// Whether an automaton was built with the standard match semantics and for
/// unanchored search, the configuration under which it reports overlapping
/// matches.
pub uninterp spec fn automaton_reports_overlaps(automaton: AhoCorasick) -> bool;

/// Whether an automaton can be built for these byte strings, in this order:
/// whether they stay within the size limits of the `aho-corasick` crate (on
/// the number of patterns, on the length of a pattern, and on the number of
/// states the patterns need together). The limits are fixed numbers of the
/// crate, so the answer depends on the byte strings alone.
pub uninterp spec fn automaton_builds(patterns: Seq<Seq<u8>>) -> bool;

/// One match: the pattern, by its position in the pattern list, and the
/// offset in the haystack at which it starts.
struct Occurrence {
    pattern: usize,
    start: usize,
}

/// Builds the automaton for `patterns`.
///
/// Trusted: calls `AhoCorasick::new`, which builds with the default
/// configuration (standard match semantics, unanchored search) and numbers
/// the patterns in the order given. It fails exactly when the patterns
/// exceed a size limit of the crate, which `automaton_builds` names.
#[verifier::external_body]
fn build_automaton(patterns: &Vec<String>) -> (built: Result<AhoCorasick, BuildError>)
    ensures
        built is Ok <==> automaton_builds(needles(texts(patterns@))),
        built matches Ok(automaton) ==> automaton_patterns(automaton) == needles(texts(patterns@))
            && automaton_reports_overlaps(automaton),
{
    AhoCorasick::new(patterns)
}

/// Finds every occurrence of every pattern of `automaton` in `haystack`,
/// overlapping ones included.
///
/// Trusted: calls `AhoCorasick::find_overlapping_iter`, documented to yield
/// all possible matches at every position, and panics only for an automaton
/// that does not support overlapping search. The contract claims that every
/// item is an occurrence of its pattern and that every occurrence is among
/// the items. It says nothing about their order.
#[verifier::external_body]
fn overlapping_matches(automaton: &AhoCorasick, haystack: &[u8]) -> (found: Vec<Occurrence>)
    requires
        automaton_reports_overlaps(*automaton),
    ensures
        forall|k: int|
            0 <= k < found@.len() ==> (#[trigger] found@[k]).pattern < automaton_patterns(
                *automaton,
            ).len() && occurs_at(
                automaton_patterns(*automaton)[found@[k].pattern as int],
                haystack@,
                found@[k].start as int,
            ),
        forall|p: int, start: int|
            0 <= p < automaton_patterns(*automaton).len() && #[trigger] occurs_at(
                automaton_patterns(*automaton)[p],
                haystack@,
                start,
            ) ==> exists|k: int|
                0 <= k < found@.len() && (#[trigger] found@[k]).pattern == p && found@[k].start
                    == start,
{
    let mut found = Vec::new();
    for m in automaton.find_overlapping_iter(haystack) {
        found.push(Occurrence { pattern: m.pattern().as_usize(), start: m.start() });
    }
    found
}

/// Why a search could not start.
#[derive(Clone, Copy, Debug, PartialEq, Eq, Structural)]
pub enum SearchError {
    /// The pattern list is empty.
    EmptyPatternSet,
    /// The patterns exceed a size limit of the automaton.
    AutomatonTooLarge,
}

/// What keeps a search for `patterns` from starting, if anything: an empty
/// list, or a list for which no automaton can be built.
pub open spec fn start_error(patterns: Seq<Seq<char>>) -> Option<SearchError> {
    if patterns.len() == 0 {
        Some(SearchError::EmptyPatternSet)
    } else if !automaton_builds(needles(patterns)) {
        Some(SearchError::AutomatonTooLarge)
    } else {
        None
    }
}

/// Whether `first` is the least start among the first `upto` items of `found`
/// that belong to pattern `p`: `None` where there is no such item.
spec fn is_least_start(
    found: Seq<Occurrence>,
    upto: int,
    p: int,
    first: Option<usize>,
) -> bool {
    match first {
        None => forall|k: int| 0 <= k < upto ==> (#[trigger] found[k]).pattern != p,
        Some(least) => {
            &&& exists|k: int|
                0 <= k < upto && (#[trigger] found[k]).pattern == p && found[k].start == least
            &&& forall|k: int|
                0 <= k < upto && (#[trigger] found[k]).pattern == p ==> least <= found[k].start
        },
    }
}

/// For each of `n` patterns, the least start among its occurrences in `found`.
fn least_starts(found: &Vec<Occurrence>, n: usize) -> (firsts: Vec<Option<usize>>)
    requires
        forall|k: int| 0 <= k < found@.len() ==> (#[trigger] found@[k]).pattern < n,
    ensures
        firsts@.len() == n,
        forall|p: int|
            0 <= p < n ==> is_least_start(found@, found@.len() as int, p, #[trigger] firsts@[p]),
{
    let mut firsts: Vec<Option<usize>> = Vec::new();
    let mut p: usize = 0;
    while p < n
        invariant
            p <= n,
            firsts@.len() == p,
            forall|q: int| 0 <= q < p ==> (#[trigger] firsts@[q]) is None,
        decreases n - p,
    {
        firsts.push(None);
        p += 1;
    }
    let mut k: usize = 0;
    while k < found.len()
        invariant
            k <= found@.len(),
            firsts@.len() == n,
            forall|j: int| 0 <= j < found@.len() ==> (#[trigger] found@[j]).pattern < n,
            forall|q: int| 0 <= q < n ==> is_least_start(found@, k as int, q, #[trigger] firsts@[q]),
        decreases found@.len() - k,
    {
        let pattern = found[k].pattern;
        let start = found[k].start;
        let ghost before = firsts@;
        let improves = match firsts[pattern] {
            None => true,
            Some(least) => start < least,
        };
        if improves {
            firsts.set(pattern, Some(start));
        }
        proof {
            assert forall|q: int| 0 <= q < n implies is_least_start(
                found@,
                k + 1,
                q,
                #[trigger] firsts@[q],
            ) by {
                assert(is_least_start(found@, k as int, q, before[q]));
                if q == pattern && improves {
                    assert(found@[k as int].pattern == q && found@[k as int].start == start);
                } else if before[q] is Some {
                    // the earlier witness still stands
                    let least = before[q]->0;
                    let w = choose|w: int|
                        0 <= w < k && (#[trigger] found@[w]).pattern == q && found@[w].start
                            == least;
                    assert(0 <= w < k + 1 && found@[w].pattern == q && found@[w].start == least);
                }
            }
        }
        k += 1;
    }
    firsts
}

/// The order of sort keys: by offset, then by position in the pattern list.
spec fn key_lt(a: (usize, usize), b: (usize, usize)) -> bool {
    a.0 < b.0 || (a.0 == b.0 && a.1 < b.1)
}

/// Whether pattern `i` is to be reported: it is the first of its text and
/// has an occurrence.
spec fn is_hit(leads: Seq<bool>, firsts: Seq<Option<usize>>, i: int) -> bool {
    0 <= i < leads.len() && i < firsts.len() && leads[i] && firsts[i] is Some
}

/// Whether `keys` holds, in increasing order, the pair of first offset and
/// position of exactly the patterns below `upto` that are to be reported.
spec fn holds_hits(
    leads: Seq<bool>,
    firsts: Seq<Option<usize>>,
    keys: Seq<(usize, usize)>,
    upto: int,
) -> bool {
    &&& forall|a: int, b: int|
        0 <= a < b < keys.len() ==> key_lt(#[trigger] keys[a], #[trigger] keys[b])
    &&& forall|k: int|
        0 <= k < keys.len() ==> (#[trigger] keys[k]).1 < upto && is_hit(
            leads,
            firsts,
            keys[k].1 as int,
        ) && firsts[keys[k].1 as int] == Some(keys[k].0)
    &&& forall|i: int|
        0 <= i < upto && is_hit(leads, firsts, i) ==> exists|k: int|
            0 <= k < keys.len() && (#[trigger] keys[k]).1 == i
}

/// Puts `key` into the ordered `keys` at its place.
fn insert_key(keys: &mut Vec<(usize, usize)>, key: (usize, usize))
    requires
        forall|a: int, b: int|
            0 <= a < b < old(keys)@.len() ==> key_lt(
                #[trigger] old(keys)@[a],
                #[trigger] old(keys)@[b],
            ),
        forall|k: int| 0 <= k < old(keys)@.len() ==> (#[trigger] old(keys)@[k]).1 != key.1,
    ensures
        forall|a: int, b: int|
            0 <= a < b < final(keys)@.len() ==> key_lt(
                #[trigger] final(keys)@[a],
                #[trigger] final(keys)@[b],
            ),
        exists|pos: int|
            0 <= pos <= old(keys)@.len() && final(keys)@ == old(keys)@.insert(pos, key),
{
    let mut pos: usize = 0;
    while pos < keys.len() && (keys[pos].0 < key.0 || (keys[pos].0 == key.0 && keys[pos].1
        < key.1))
        invariant
            pos <= keys@.len(),
            keys@ == old(keys)@,
            forall|a: int| 0 <= a < pos ==> key_lt(#[trigger] keys@[a], key),
        decreases keys@.len() - pos,
    {
        pos += 1;
    }
    proof {
        old(keys)@.insert_ensures(pos as int, key);
        assert forall|b: int| pos <= b < keys@.len() implies key_lt(key, #[trigger] keys@[b]) by {
            assert(!key_lt(keys@[pos as int], key));
            assert(keys@[pos as int].1 != key.1);
            assert(key_lt(key, keys@[pos as int]));
            if b > pos {
                assert(key_lt(keys@[pos as int], keys@[b]));
            }
        }
    }
    keys.insert(pos, key);
    proof {
        let before = old(keys)@;
        let after = keys@;
        assert forall|a: int, b: int| 0 <= a < b < after.len() implies key_lt(
            #[trigger] after[a],
            #[trigger] after[b],
        ) by {
            if b < pos {
                assert(after[a] == before[a] && after[b] == before[b]);
            } else if b == pos {
                assert(after[a] == before[a]);
            } else {
                assert(after[b] == before[b - 1]);
                if a < pos {
                    assert(after[a] == before[a]);
                } else if a == pos {
                } else {
                    assert(after[a] == before[a - 1]);
                }
            }
        }
    }
}

/// The sort keys of the patterns to be reported, in report order.
fn ordered_hits(leads: &Vec<bool>, firsts: &Vec<Option<usize>>) -> (keys: Vec<(usize, usize)>)
    requires
        leads@.len() == firsts@.len(),
    ensures
        holds_hits(leads@, firsts@, keys@, leads@.len() as int),
{
    let mut keys: Vec<(usize, usize)> = Vec::new();
    let mut i: usize = 0;
    while i < leads.len()
        invariant
            i <= leads@.len(),
            leads@.len() == firsts@.len(),
            holds_hits(leads@, firsts@, keys@, i as int),
        decreases leads@.len() - i,
    {
        let ghost before = keys@;
        if leads[i] {
            match firsts[i] {
                Some(first) => {
                    insert_key(&mut keys, (first, i));
                    proof {
                        let key = (first, i);
                        let pos = choose|pos: int|
                            0 <= pos <= before.len() && keys@ == before.insert(pos, key);
                        before.insert_ensures(pos, key);
                        assert forall|k: int| 0 <= k < keys@.len() implies (#[trigger] keys@[k]).1
                            < i + 1 && is_hit(leads@, firsts@, keys@[k].1 as int)
                            && firsts@[keys@[k].1 as int] == Some(keys@[k].0) by {
                            if k < pos {
                                assert(keys@[k] == before[k]);
                            } else if k > pos {
                                assert(keys@[k] == before[k - 1]);
                            }
                        }
                        assert forall|j: int| 0 <= j < i + 1 && is_hit(leads@, firsts@, j) implies exists|
                            k: int,
                        |
                            0 <= k < keys@.len() && (#[trigger] keys@[k]).1 == j by {
                            if j == i {
                                assert(keys@[pos].1 == j);
                            } else {
                                let w = choose|w: int|
                                    0 <= w < before.len() && (#[trigger] before[w]).1 == j;
                                if w < pos {
                                    assert(keys@[w] == before[w]);
                                } else {
                                    assert(keys@[w + 1] == before[w]);
                                }
                            }
                        }
                    }
                },
                None => {},
            }
        }
        i += 1;
    }
    keys
}

/// The automaton together with the patterns it was built from.
pub struct Matcher {
    patterns: Vec<String>,
    leads: Vec<bool>,
    automaton: AhoCorasick,
}

impl Matcher {
    /// The pattern texts, in the order given at construction.
    pub closed spec fn patterns(&self) -> Seq<Seq<char>> {
        texts(self.patterns@)
    }

    /// The invariant of a matcher: the pattern list is not empty, and the
    /// automaton was built from it and reports overlapping matches.
    pub closed spec fn wf(&self) -> bool {
        &&& self.patterns@.len() > 0
        &&& self.leads@.len() == self.patterns@.len()
        &&& forall|i: int|
            0 <= i < self.leads@.len() ==> #[trigger] self.leads@[i] == is_lead(
                texts(self.patterns@),
                i,
            )
        &&& automaton_patterns(self.automaton) == needles(texts(self.patterns@))
        &&& automaton_reports_overlaps(self.automaton)
    }

    /// A matcher holds at least one pattern.
    pub proof fn lemma_patterns_nonempty(&self)
        requires
            self.wf(),
        ensures
            self.patterns().len() > 0,
    {
    }

    /// Builds the automaton for `patterns`, once for the whole search.
    ///
    /// An empty list is rejected. A list that is not empty is rejected
    /// exactly when no automaton can be built for it.
    pub fn new(patterns: Vec<String>) -> (made: Result<Matcher, SearchError>)
        ensures
            made is Ok <==> patterns@.len() > 0 && automaton_builds(needles(texts(patterns@))),
            match made {
                Ok(matcher) => matcher.wf() && matcher.patterns() == texts(patterns@),
                Err(error) => start_error(texts(patterns@)) == Some(error),
            },
    {
        if patterns.len() == 0 {
            return Err(SearchError::EmptyPatternSet);
        }
        let built = build_automaton(&patterns);
        Matcher::from_built(patterns, built)
    }

    /// Completes a matcher from the outcome of building the automaton for
    /// `patterns`: the matcher on success, `AutomatonTooLarge` on failure.
    fn from_built(patterns: Vec<String>, built: Result<AhoCorasick, BuildError>) -> (made: Result<
        Matcher,
        SearchError,
    >)
        requires
            patterns@.len() > 0,
            built matches Ok(automaton) ==> automaton_patterns(automaton) == needles(
                texts(patterns@),
            ) && automaton_reports_overlaps(automaton),
        ensures
            match made {
                Ok(matcher) => built is Ok && matcher.wf() && matcher.patterns() == texts(
                    patterns@,
                ),
                Err(error) => built is Err && error == SearchError::AutomatonTooLarge,
            },
    {
        match built {
            Ok(automaton) => {
                let leads = mark_leads(&patterns);
                Ok(Matcher { patterns, leads, automaton })
            },
            Err(_) => Err(SearchError::AutomatonTooLarge),
        }
    }

    /// Number of patterns.
    pub fn patterns_len(&self) -> (n: usize)
        ensures
            n == self.patterns().len(),
    {
        self.patterns.len()
    }

    /// Scans `content` and reports the patterns that occur in it: each text
    /// once, ordered by the offset of its first occurrence, and for equal
    /// offsets by position in the pattern list.
    pub fn scan(&self, content: &[u8]) -> (report: Vec<String>)
        requires
            self.wf(),
        ensures
            is_match_report(self.patterns(), content@, texts(report@)),
            texts(report@) == match_report(self.patterns(), content@),
    {
        let found = overlapping_matches(&self.automaton, content);
        let firsts = least_starts(&found, self.patterns.len());
        let keys = ordered_hits(&self.leads, &firsts);
        let mut report: Vec<String> = Vec::new();
        let mut k: usize = 0;
        while k < keys.len()
            invariant
                k <= keys@.len(),
                report@.len() == k,
                holds_hits(self.leads@, firsts@, keys@, self.leads@.len() as int),
                self.leads@.len() == self.patterns@.len(),
                forall|j: int|
                    0 <= j < k ==> (#[trigger] report@[j])@ == self.patterns@[keys@[j].1 as int]@,
            decreases keys@.len() - k,
        {
            let text = self.patterns[keys[k].1].clone();
            report.push(text);
            k += 1;
        }
        proof {
            let listed = texts(self.patterns@);
            assert forall|p: int| 0 <= p < listed.len() implies #[trigger] automaton_patterns(
                self.automaton,
            )[p] == needle(listed[p]) by {}
            assert forall|p: int, start: int|
                0 <= p < listed.len() && #[trigger] occurs_at(
                    needle(listed[p]),
                    content@,
                    start,
                ) implies exists|k: int|
                0 <= k < found@.len() && (#[trigger] found@[k]).pattern == p && found@[k].start
                    == start by {
                assert(occurs_at(automaton_patterns(self.automaton)[p], content@, start));
            }
            lemma_assembled_is_report(
                listed,
                content@,
                found@,
                self.leads@,
                firsts@,
                keys@,
                texts(report@),
            );
            lemma_match_report_is(listed, content@, texts(report@));
        }
        report
    }
}

/// For each pattern, whether it is the first in the list with its text.
fn mark_leads(patterns: &Vec<String>) -> (leads: Vec<bool>)
    ensures
        leads@.len() == patterns@.len(),
        forall|i: int|
            0 <= i < leads@.len() ==> #[trigger] leads@[i] == is_lead(texts(patterns@), i),
{
    let mut leads: Vec<bool> = Vec::new();
    let mut i: usize = 0;
    while i < patterns.len()
        invariant
            i <= patterns@.len(),
            leads@.len() == i,
            forall|q: int| 0 <= q < i ==> #[trigger] leads@[q] == is_lead(texts(patterns@), q),
        decreases patterns@.len() - i,
    {
        let mut lead = true;
        let mut j: usize = 0;
        while j < i
            invariant
                j <= i < patterns@.len(),
                lead == (forall|q: int|
                    0 <= q < j ==> (#[trigger] texts(patterns@)[q]) != texts(patterns@)[i as int]),
            decreases i - j,
        {
            if patterns[j] == patterns[i] {
                lead = false;
                assert(texts(patterns@)[j as int] == texts(patterns@)[i as int]);
            }
            j += 1;
        }
        leads.push(lead);
        i += 1;
    }
    leads
}

/// The sequence assembled from the sort keys is the report of the scan.
proof fn lemma_assembled_is_report(
    listed: Seq<Seq<char>>,
    content: Seq<u8>,
    found: Seq<Occurrence>,
    leads: Seq<bool>,
    firsts: Seq<Option<usize>>,
    keys: Seq<(usize, usize)>,
    report: Seq<Seq<char>>,
)
    requires
        leads.len() == listed.len(),
        firsts.len() == listed.len(),
        forall|i: int| 0 <= i < leads.len() ==> #[trigger] leads[i] == is_lead(listed, i),
        forall|k: int|
            0 <= k < found.len() ==> (#[trigger] found[k]).pattern < listed.len() && occurs_at(
                needle(listed[found[k].pattern as int]),
                content,
                found[k].start as int,
            ),
        forall|p: int, start: int|
            0 <= p < listed.len() && #[trigger] occurs_at(needle(listed[p]), content, start)
                ==> exists|k: int|
                0 <= k < found.len() && (#[trigger] found[k]).pattern == p && found[k].start
                    == start,
        forall|p: int|
            0 <= p < listed.len() ==> is_least_start(
                found,
                found.len() as int,
                p,
                #[trigger] firsts[p],
            ),
        holds_hits(leads, firsts, keys, leads.len() as int),
        report.len() == keys.len(),
        forall|k: int| 0 <= k < report.len() ==> #[trigger] report[k] == listed[keys[k].1 as int],
    ensures
        is_match_report(listed, content, report),
{
    // what the least starts say about the content
    assert forall|p: int| 0 <= p < listed.len() implies match #[trigger] firsts[p] {
        None => !occurs_in(needle(listed[p]), content),
        Some(least) => first_offset(needle(listed[p]), content) == least,
    } by {
        assert(is_least_start(found, found.len() as int, p, firsts[p]));
        match firsts[p] {
            None => {
                if occurs_in(needle(listed[p]), content) {
                    let start = choose|start: int| occurs_at(needle(listed[p]), content, start);
                    assert(occurs_at(needle(listed[p]), content, start));
                    assert(false);
                }
            },
            Some(least) => {
                let w = choose|w: int|
                    0 <= w < found.len() && (#[trigger] found[w]).pattern == p && found[w].start
                        == least;
                assert(occurs_at(needle(listed[p]), content, least as int));
                assert forall|other: int|
                    occurs_at(needle(listed[p]), content, other) implies least <= other by {
                    let v = choose|v: int|
                        0 <= v < found.len() && (#[trigger] found[v]).pattern == p
                            && found[v].start == other;
                    assert(least <= found[v].start);
                }
                lemma_first_offset_is(needle(listed[p]), content, least as int);
            },
        }
    }
    // no text is reported twice
    assert forall|a: int, b: int| 0 <= a < report.len() && 0 <= b < report.len() && a != b implies report[a] != report[b] by {
        let ia = keys[a].1 as int;
        let ib = keys[b].1 as int;
        assert(is_lead(listed, ia) && is_lead(listed, ib));
        if a < b {
            assert(key_lt(keys[a], keys[b]));
        } else {
            assert(key_lt(keys[b], keys[a]));
        }
        assert(ia != ib);
        if ia < ib {
            assert(listed[ia] != listed[ib]);
        } else {
            assert(listed[ib] != listed[ia]);
        }
    }
    // what is reported is listed and occurs
    assert forall|k: int| 0 <= k < report.len() implies listed.contains(#[trigger] report[k])
        && occurs_in(needle(report[k]), content) by {
        let i = keys[k].1 as int;
        assert(is_hit(leads, firsts, i));
        assert(listed[i] == report[k]);
        let least = firsts[i]->0;
        assert(is_least_start(found, found.len() as int, i, firsts[i]));
        let w = choose|w: int|
            0 <= w < found.len() && (#[trigger] found[w]).pattern == i && found[w].start == least;
        assert(occurs_at(needle(listed[i]), content, least as int));
    }
    // what occurs is reported
    assert forall|i: int|
        0 <= i < listed.len() && occurs_in(needle(#[trigger] listed[i]), content) implies report.contains(
        listed[i],
    ) by {
        let lead = lemma_lead_exists(listed, i);
        assert(firsts[lead] is Some);
        assert(leads[lead]);
        assert(is_hit(leads, firsts, lead));
        let k = choose|k: int| 0 <= k < keys.len() && (#[trigger] keys[k]).1 == lead;
        assert(report[k] == listed[i]);
    }
    // the order is that of first offset, then position
    assert forall|a: int, b: int| 0 <= a < b < report.len() implies comes_before(
        listed,
        content,
        #[trigger] report[a],
        #[trigger] report[b],
    ) by {
        let ia = keys[a].1 as int;
        let ib = keys[b].1 as int;
        assert(key_lt(keys[a], keys[b]));
        assert(is_hit(leads, firsts, ia) && is_hit(leads, firsts, ib));
        assert(firsts[ia] == Some(keys[a].0) && firsts[ib] == Some(keys[b].0));
        lemma_lead_of_is(listed, ia);
        lemma_lead_of_is(listed, ib);
    }
}

} // verus!
