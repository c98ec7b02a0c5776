//! Planning the transcription of a feed: which episodes, in which order, by how
//! many workers, and the files they go to.
use vstd::prelude::*;
use std::path::PathBuf;
use crate::jupiter_common::{earlier, Episode, EpisodeView, PubDate};
use crate::stt::ModelInfo;
use vstd::std_specs::convert::FromSpecImpl;

verus! {

// ---------------------------------------------------------------------------
// Latest first, stably.
// ---------------------------------------------------------------------------

/// `a` and `b` are the same instant.
pub open spec fn same_instant(a: PubDate, b: PubDate) -> bool {
    a.timestamp == b.timestamp && a.nanos == b.nanos
}

/// No episode of `s` is later than one before it.
pub open spec fn latest_first(s: Seq<EpisodeView>) -> bool {
    forall|i: int, j: int| 0 <= i < j < s.len() ==> !earlier(#[trigger] s[i].pub_date, #[trigger] s[j].pub_date)
}

/// `after` is `before` reordered by `perm` (`after[i] == before[perm[i]]`), latest
/// first, with episodes of the same instant in the order they had in `before`.
pub open spec fn sort_witness(before: Seq<EpisodeView>, after: Seq<EpisodeView>, perm: Seq<int>) -> bool {
    &&& after.len() == before.len()
    &&& perm.len() == before.len()
    &&& forall|i: int| 0 <= i < perm.len() ==> 0 <= #[trigger] perm[i] < before.len()
    &&& forall|i: int| 0 <= i < perm.len() ==> #[trigger] after[i] == before[perm[i]]
    &&& forall|i: int, j: int| 0 <= i < j < perm.len() ==> #[trigger] perm[i] != #[trigger] perm[j]
    &&& latest_first(after)
    &&& forall|i: int, j: int|
        0 <= i < j < after.len() && same_instant(#[trigger] after[i].pub_date, #[trigger] after[j].pub_date)
            ==> perm[i] < perm[j]
}

/// `after` is the stable latest-first ordering of `before`.
pub open spec fn is_latest_first_sort(before: Seq<EpisodeView>, after: Seq<EpisodeView>) -> bool {
    exists|perm: Seq<int>| sort_witness(before, after, perm)
}

/// Input position `x` goes before input position `y` in the stable latest-first
/// order of `before`.
pub open spec fn goes_before(before: Seq<EpisodeView>, x: int, y: int) -> bool {
    earlier(before[y].pub_date, before[x].pub_date) || (same_instant(before[x].pub_date, before[y].pub_date)
        && x < y)
}

/// A witness permutation takes every input position.
proof fn lemma_witness_onto(before: Seq<EpisodeView>, after: Seq<EpisodeView>, perm: Seq<int>)
    requires
        sort_witness(before, after, perm),
    ensures
        forall|x: int| 0 <= x < before.len() ==> perm.contains(x),
{
    let n = before.len() as int;
    assert(perm.no_duplicates()) by {
        assert forall|i: int, j: int| 0 <= i < perm.len() && 0 <= j < perm.len() && i != j implies perm[i] != perm[j] by {
            if i < j {
                assert(perm[i] != perm[j]);
            } else {
                assert(perm[j] != perm[i]);
            }
        }
    }
    perm.unique_seq_to_set();
    vstd::set_lib::lemma_int_range(0, n);
    let range = vstd::set_lib::set_int_range(0, n);
    assert(perm.to_set().subset_of(range)) by {
        assert forall|x: int| perm.to_set().contains(x) implies range.contains(x) by {
            let i = choose|i: int| 0 <= i < perm.len() && perm[i] == x;
        }
    }
    vstd::set_lib::lemma_len_subset(perm.to_set(), range);
    vstd::set_lib::lemma_subset_equality(perm.to_set(), range);
    assert forall|x: int| 0 <= x < before.len() implies perm.contains(x) by {
        assert(range.contains(x));
        assert(perm.to_set().contains(x));
    }
}

/// In a witness, the input positions that go before the one at output position `i`
/// are exactly those at output positions below `i`, so there are `i` of them.
proof fn lemma_witness_rank(before: Seq<EpisodeView>, after: Seq<EpisodeView>, perm: Seq<int>, i: int)
    requires
        sort_witness(before, after, perm),
        0 <= i < perm.len(),
    ensures
        Set::new(|y: int| 0 <= y < before.len() && goes_before(before, y, perm[i])) == perm.take(i).to_set(),
        perm.take(i).to_set().len() == i,
{
    let x = perm[i];
    let below = Set::new(|y: int| 0 <= y < before.len() && goes_before(before, y, x));
    lemma_witness_onto(before, after, perm);
    assert forall|j: int, k: int| 0 <= j < k < perm.len() implies goes_before(before, #[trigger] perm[j], #[trigger] perm[k]) by {
        assert(after[j] == before[perm[j]]);
        assert(after[k] == before[perm[k]]);
        assert(!earlier(after[j].pub_date, after[k].pub_date));
        if !earlier(after[k].pub_date, after[j].pub_date) {
            assert(same_instant(after[j].pub_date, after[k].pub_date));
        }
    }
    assert forall|y: int| below.contains(y) implies perm.take(i).to_set().contains(y) by {
        assert(perm.contains(y));
        let j = choose|j: int| 0 <= j < perm.len() && perm[j] == y;
        if j > i {
            assert(goes_before(before, perm[i], perm[j]));
        }
        assert(j != i);
        assert(perm.take(i)[j] == y);
    }
    assert forall|y: int| perm.take(i).to_set().contains(y) implies below.contains(y) by {
        let j = choose|j: int| 0 <= j < perm.take(i).len() && perm.take(i)[j] == y;
        assert(perm[j] == y);
        assert(goes_before(before, perm[j], perm[i]));
    }
    assert(below =~= perm.take(i).to_set());
    assert(perm.take(i).no_duplicates()) by {
        assert forall|j: int, k: int| 0 <= j < perm.take(i).len() && 0 <= k < perm.take(i).len() && j != k
            implies perm.take(i)[j] != perm.take(i)[k] by {
            if j < k {
                assert(perm[j] != perm[k]);
            } else {
                assert(perm[k] != perm[j]);
            }
        }
    }
    perm.take(i).unique_seq_to_set();
}

/// The stable latest-first order is unique: two orderings that both qualify are the
/// same.
pub proof fn lemma_latest_first_sort_unique(before: Seq<EpisodeView>, a1: Seq<EpisodeView>, a2: Seq<EpisodeView>)
    requires
        is_latest_first_sort(before, a1),
        is_latest_first_sort(before, a2),
    ensures
        a1 == a2,
{
    let p1 = choose|p: Seq<int>| sort_witness(before, a1, p);
    let p2 = choose|p: Seq<int>| sort_witness(before, a2, p);
    lemma_witness_onto(before, a2, p2);
    assert forall|i: int| 0 <= i < a1.len() implies #[trigger] a1[i] == a2[i] by {
        let x = p1[i];
        assert(p2.contains(x));
        let k = choose|k: int| 0 <= k < p2.len() && p2[k] == x;
        lemma_witness_rank(before, a1, p1, i);
        lemma_witness_rank(before, a2, p2, k);
        assert(i == k);
    }
    assert(a1 =~= a2);
}

/// Inserting the next episode `e` of the input in front of the first episode that is
/// earlier than it keeps the ordering stable and latest first.
proof fn lemma_insert_keeps_sort(
    before: Seq<EpisodeView>,
    after: Seq<EpisodeView>,
    perm: Seq<int>,
    e: EpisodeView,
    p: int,
)
    requires
        sort_witness(before, after, perm),
        0 <= p <= after.len(),
        forall|i: int| 0 <= i < p ==> !earlier(#[trigger] after[i].pub_date, e.pub_date),
        forall|i: int| p <= i < after.len() ==> earlier(#[trigger] after[i].pub_date, e.pub_date),
    ensures
        sort_witness(before.push(e), after.insert(p, e), perm.insert(p, before.len() as int)),
{
    let b2 = before.push(e);
    let a2 = after.insert(p, e);
    let p2 = perm.insert(p, before.len() as int);
    after.insert_ensures(p, e);
    perm.insert_ensures(p, before.len() as int);
    assert forall|i: int| 0 <= i < p2.len() implies 0 <= #[trigger] p2[i] < b2.len() && a2[i] == b2[p2[i]] by {
        if i < p {
            assert(p2[i] == perm[i]);
            assert(a2[i] == after[i]);
        } else if i > p {
            assert(p2[i] == perm[i - 1]);
            assert(a2[i] == after[i - 1]);
        }
    }
    assert forall|i: int, j: int| 0 <= i < j < p2.len() implies #[trigger] p2[i] != #[trigger] p2[j] by {
        let oi = if i < p { i } else { i - 1 };
        let oj = if j < p { j } else { j - 1 };
        if i != p && j != p {
            assert(p2[i] == perm[oi]);
            assert(p2[j] == perm[oj]);
            assert(perm[oi] != perm[oj]);
        } else if i == p {
            assert(p2[j] == perm[oj]);
        } else {
            assert(p2[i] == perm[oi]);
        }
    }
    assert forall|i: int, j: int| 0 <= i < j < a2.len() implies !earlier(#[trigger] a2[i].pub_date, #[trigger] a2[j].pub_date) by {
        let oi = if i < p { i } else { i - 1 };
        let oj = if j < p { j } else { j - 1 };
        if i != p && j != p {
            assert(a2[i] == after[oi]);
            assert(a2[j] == after[oj]);
        } else if i == p {
            assert(a2[j] == after[oj]);
        } else {
            assert(a2[i] == after[oi]);
        }
    }
    assert forall|i: int, j: int|
        0 <= i < j < a2.len() && same_instant(#[trigger] a2[i].pub_date, #[trigger] a2[j].pub_date)
        implies p2[i] < p2[j] by {
        let oi = if i < p { i } else { i - 1 };
        let oj = if j < p { j } else { j - 1 };
        if i != p && j != p {
            assert(a2[i] == after[oi]);
            assert(a2[j] == after[oj]);
            assert(p2[i] == perm[oi]);
            assert(p2[j] == perm[oj]);
        } else if i == p {
            assert(a2[j] == after[oj]);
        } else {
            assert(a2[i] == after[oi]);
            assert(p2[i] == perm[oi]);
        }
    }
}

/// The index of the first episode of `sorted` that is earlier than `date`, or its
/// length when there is none.
fn insert_position(sorted: &Vec<Episode>, date: &PubDate) -> (p: usize)
    requires
        latest_first(sorted@.map_values(|e: Episode| e@)),
    ensures
        p <= sorted@.len(),
        forall|i: int| 0 <= i < p ==> !earlier(#[trigger] sorted@[i].pub_date, *date),
        forall|i: int| p <= i < sorted@.len() ==> earlier(#[trigger] sorted@[i].pub_date, *date),
{
    let ghost views = sorted@.map_values(|e: Episode| e@);
    let mut i: usize = 0;
    while i < sorted.len()
        invariant
            i <= sorted@.len(),
            views == sorted@.map_values(|e: Episode| e@),
            latest_first(views),
            forall|k: int| 0 <= k < i ==> !earlier(#[trigger] sorted@[k].pub_date, *date),
        decreases sorted@.len() - i,
    {
        if sorted[i].pub_date.is_earlier_than(date) {
            assert forall|k: int| i <= k < sorted@.len() implies earlier(#[trigger] sorted@[k].pub_date, *date) by {
                if k > i {
                    assert(views[i as int].pub_date == sorted@[i as int].pub_date);
                    assert(views[k].pub_date == sorted@[k].pub_date);
                }
            }
            return i;
        }
        i = i + 1;
    }
    i
}

/// The episodes, latest first; episodes published at the same instant keep their
/// order.
pub fn sort_latest_first(episodes: Vec<Episode>) -> (res: Vec<Episode>)
    ensures
        is_latest_first_sort(episodes@.map_values(|e: Episode| e@), res@.map_values(|e: Episode| e@)),
{
    let ghost input = episodes@.map_values(|e: Episode| e@);
    let mut res: Vec<Episode> = Vec::new();
    let ghost mut perm: Seq<int> = Seq::empty();
    assert(sort_witness(input.take(0), res@.map_values(|e: Episode| e@), perm));
    for e in it: episodes
        invariant
            input == it.seq().map_values(|e: Episode| e@),
            sort_witness(input.take(it.index() as int), res@.map_values(|e: Episode| e@), perm),
    {
        let ghost k = it.index() as int;
        let ghost sorted_before = res@.map_values(|e: Episode| e@);
        let p = insert_position(&res, &e.pub_date);
        proof {
            assert(input.take(k + 1) =~= input.take(k).push(e@));
            lemma_insert_keeps_sort(input.take(k), sorted_before, perm, e@, p as int);
            perm = perm.insert(p as int, k);
        }
        res.insert(p, e);
        assert(res@.map_values(|e: Episode| e@) =~= sorted_before.insert(p as int, e@));
    }
    assert(input.take(input.len() as int) =~= input);
    res
}

// ---------------------------------------------------------------------------
// Picking episodes by title.
// ---------------------------------------------------------------------------

/// The lowercase form of `s`, as Unicode defines it.
pub uninterp spec fn unicode_lowercase(s: Seq<char>) -> Seq<char>;

/// `str::to_lowercase`: the lowercase equivalent of `s`, which the documentation
/// defines by Unicode's `Lowercase` property; named by `unicode_lowercase`.
#[verifier::external_body]
fn to_lowercase(s: &str) -> (res: String)
    ensures
        res@ == unicode_lowercase(s@),
{
    s.to_lowercase()
}

/// `needle` occurs in `haystack` as a run of consecutive characters.
pub open spec fn contains_text(haystack: Seq<char>, needle: Seq<char>) -> bool {
    exists|i: int| 0 <= i <= haystack.len() - needle.len() && #[trigger] haystack.subrange(i, i + needle.len()) == needle
}

/// Whether `needle` occurs in `haystack` at character position `at`.
fn occurs_at(haystack: &str, needle: &str, at: usize, needle_len: usize, haystack_len: usize) -> (res: bool)
    requires
        needle_len == needle@.len(),
        haystack_len == haystack@.len(),
        at + needle_len <= haystack@.len(),
    ensures
        res == (haystack@.subrange(at as int, at + needle_len) == needle@),
{
    let mut j: usize = 0;
    while j < needle_len
        invariant
            needle_len == needle@.len(),
            haystack_len == haystack@.len(),
            at + needle_len <= haystack@.len(),
            j <= needle_len,
            forall|t: int| 0 <= t < j ==> haystack@[at + t] == needle@[t],
        decreases needle_len - j,
    {
        if haystack.get_char(at + j) != needle.get_char(j) {
            assert(haystack@.subrange(at as int, at + needle_len)[j as int] != needle@[j as int]);
            return false;
        }
        j = j + 1;
    }
    assert(haystack@.subrange(at as int, at + needle_len) =~= needle@);
    true
}

/// Whether `needle` occurs in `haystack` as a run of consecutive characters, as
/// `str::contains` answers for a `&str` pattern.
pub fn str_contains(haystack: &str, needle: &str) -> (res: bool)
    ensures
        res == contains_text(haystack@, needle@),
{
    let hl = haystack.unicode_len();
    let nl = needle.unicode_len();
    if nl > hl {
        return false;
    }
    let mut i: usize = 0;
    loop
        invariant
            hl == haystack@.len(),
            nl == needle@.len(),
            nl <= hl,
            i <= hl - nl,
            forall|k: int| 0 <= k < i ==> #[trigger] haystack@.subrange(k, k + nl) != needle@,
        decreases hl - nl - i,
    {
        if occurs_at(haystack, needle, i, nl, hl) {
            return true;
        }
        if i == hl - nl {
            return false;
        }
        i = i + 1;
    }
}

/// An episode whose lowercased title contains `filter`.
pub open spec fn title_matches(e: EpisodeView, filter: Seq<char>) -> bool {
    contains_text(unicode_lowercase(e.title), filter)
}

/// The episodes of `s` whose lowercased title contains `filter`, in order.
pub open spec fn with_title_containing(s: Seq<EpisodeView>, filter: Seq<char>) -> Seq<EpisodeView>
    decreases s.len(),
{
    if s.len() == 0 {
        s
    } else if title_matches(s.last(), filter) {
        with_title_containing(s.drop_last(), filter).push(s.last())
    } else {
        with_title_containing(s.drop_last(), filter)
    }
}

/// `e` is one of the episodes of `s`.
pub open spec fn is_member(s: Seq<EpisodeView>, e: EpisodeView) -> bool {
    exists|i: int| 0 <= i < s.len() && #[trigger] s[i] == e
}

/// Each episode that the filter keeps is one of `s` whose title matches.
pub proof fn lemma_kept_are_matching_members(s: Seq<EpisodeView>, filter: Seq<char>)
    ensures
        with_title_containing(s, filter).len() <= s.len(),
        forall|k: int| #![trigger with_title_containing(s, filter)[k]]
            0 <= k < with_title_containing(s, filter).len() ==> title_matches(with_title_containing(s, filter)[k], filter)
                && exists|i: int| 0 <= i < s.len() && #[trigger] s[i] == with_title_containing(s, filter)[k],
    decreases s.len(),
{
    if s.len() > 0 {
        let p = s.drop_last();
        lemma_kept_are_matching_members(p, filter);
        let r = with_title_containing(s, filter);
        let rp = with_title_containing(p, filter);
        assert forall|k: int| #![trigger r[k]] 0 <= k < r.len() implies title_matches(r[k], filter)
            && exists|i: int| 0 <= i < s.len() && #[trigger] s[i] == r[k] by {
            if k < rp.len() {
                assert(r[k] == rp[k]);
                let i = choose|i: int| 0 <= i < p.len() && #[trigger] p[i] == rp[k];
                assert(s[i] == p[i]);
            } else {
                assert(s[s.len() - 1] == r[k]);
            }
        }
    }
}

/// Filtering keeps episodes latest first.
pub proof fn lemma_kept_latest_first(s: Seq<EpisodeView>, filter: Seq<char>)
    requires
        latest_first(s),
    ensures
        latest_first(with_title_containing(s, filter)),
    decreases s.len(),
{
    if s.len() > 0 {
        let p = s.drop_last();
        assert(latest_first(p)) by {
            assert forall|i: int, j: int| 0 <= i < j < p.len() implies !earlier(#[trigger] p[i].pub_date, #[trigger] p[j].pub_date) by {
                assert(p[i] == s[i] && p[j] == s[j]);
            }
        }
        lemma_kept_latest_first(p, filter);
        lemma_kept_are_matching_members(p, filter);
        let r = with_title_containing(s, filter);
        let rp = with_title_containing(p, filter);
        if title_matches(s.last(), filter) {
            assert forall|i: int, j: int| 0 <= i < j < r.len() implies !earlier(#[trigger] r[i].pub_date, #[trigger] r[j].pub_date) by {
                assert(r[i] == rp[i]);
                if j < rp.len() {
                    assert(r[j] == rp[j]);
                } else {
                    let m = choose|m: int| 0 <= m < p.len() && #[trigger] p[m] == rp[i];
                    assert(s[m] == p[m]);
                    assert(r[j] == s[s.len() - 1]);
                }
            }
        }
    }
}

/// The planned episodes come latest first, each is an episode of the feed whose
/// title matches the filter when there is one, and there are no more of them than
/// were asked for when a number was asked for; with no number, every episode that
/// passes the filter is planned.
pub proof fn lemma_plan_sound(
    input: Seq<EpisodeView>,
    sorted: Seq<EpisodeView>,
    filter: Option<Seq<char>>,
    n_elements: Option<usize>,
)
    requires
        is_latest_first_sort(input, sorted),
    ensures
        latest_first(planned_episodes(sorted, filter, n_elements)),
        n_elements matches Some(n) ==> planned_episodes(sorted, filter, n_elements).len() <= n,
        n_elements is None ==> planned_episodes(sorted, filter, n_elements) == match filter {
            Some(f) => with_title_containing(sorted, f),
            None => sorted,
        },
        forall|k: int| #![trigger planned_episodes(sorted, filter, n_elements)[k]]
            0 <= k < planned_episodes(sorted, filter, n_elements).len() ==> is_member(
                input,
                planned_episodes(sorted, filter, n_elements)[k],
            ),
        filter matches Some(f) ==> forall|k: int| #![trigger planned_episodes(sorted, filter, n_elements)[k]]
            0 <= k < planned_episodes(sorted, filter, n_elements).len() ==> title_matches(
                planned_episodes(sorted, filter, n_elements)[k],
                f,
            ),
{
    let perm = choose|perm: Seq<int>| sort_witness(input, sorted, perm);
    let kept = match filter {
        Some(f) => with_title_containing(sorted, f),
        None => sorted,
    };
    let plan = planned_episodes(sorted, filter, n_elements);
    if let Some(f) = filter {
        lemma_kept_latest_first(sorted, f);
        lemma_kept_are_matching_members(sorted, f);
    }
    assert(latest_first(kept));
    assert forall|k: int| 0 <= k < plan.len() implies #[trigger] plan[k] == kept[k] by {}
    assert forall|i: int, j: int| 0 <= i < j < plan.len() implies !earlier(#[trigger] plan[i].pub_date, #[trigger] plan[j].pub_date) by {
        assert(plan[i] == kept[i] && plan[j] == kept[j]);
    }
    assert forall|k: int| #![trigger plan[k]] 0 <= k < plan.len() implies is_member(input, plan[k]) by {
        assert(plan[k] == kept[k]);
        let m = if let Some(f) = filter {
            choose|m: int| 0 <= m < sorted.len() && #[trigger] sorted[m] == with_title_containing(sorted, f)[k]
        } else {
            k
        };
        assert(sorted[m] == input[perm[m]]);
    }
    if let Some(f) = filter {
        assert forall|k: int| #![trigger plan[k]] 0 <= k < plan.len() implies title_matches(plan[k], f) by {
            assert(plan[k] == kept[k]);
        }
    }
}

/// The title filter keeps exactly the episodes whose lowercased title contains the
/// filter, all of them, in their order.
pub proof fn lemma_title_filter_exact(s: Seq<EpisodeView>, filter: Seq<char>)
    ensures
        with_title_containing(s, filter) == s.filter(|e: EpisodeView| title_matches(e, filter)),
    decreases s.len(),
{
    reveal(Seq::filter);
    if s.len() > 0 {
        lemma_title_filter_exact(s.drop_last(), filter);
    }
}

/// Keeps the episodes whose lowercased title contains `filter`, in order.
pub fn retain_title_containing(episodes: Vec<Episode>, filter: &str) -> (res: Vec<Episode>)
    ensures
        res@.map_values(|e: Episode| e@) == with_title_containing(episodes@.map_values(|e: Episode| e@), filter@),
        res@.map_values(|e: Episode| e@) == episodes@.map_values(|e: Episode| e@).filter(
            |e: EpisodeView| title_matches(e, filter@),
        ),
{
    let ghost input = episodes@.map_values(|e: Episode| e@);
    let mut res: Vec<Episode> = Vec::new();
    assert(input.take(0) =~= Seq::<EpisodeView>::empty());
    assert(res@.map_values(|e: Episode| e@) =~= Seq::<EpisodeView>::empty());
    for e in it: episodes
        invariant
            input == it.seq().map_values(|e: Episode| e@),
            res@.map_values(|e: Episode| e@) == with_title_containing(input.take(it.index() as int), filter@),
    {
        let ghost k = it.index() as int;
        let ghost before = res@.map_values(|e: Episode| e@);
        assert(input.take(k + 1).drop_last() =~= input.take(k));
        assert(input.take(k + 1).last() == e@);
        let lower = to_lowercase(e.title.as_str());
        if str_contains(lower.as_str(), filter) {
            res.push(e);
            assert(res@.map_values(|e: Episode| e@) =~= before.push(e@));
        }
    }
    assert(input.take(input.len() as int) =~= input);
    proof {
        lemma_title_filter_exact(input, filter@);
    }
    res
}

// ---------------------------------------------------------------------------
// The plan of a run over a feed.
// ---------------------------------------------------------------------------

#[verifier::external_type_specification]
#[verifier::external_body]
pub struct ExPathBuf(std::path::PathBuf);

/// What a run over a feed is asked to do.
pub struct DownloadParams<'a> {
    pub rss_url: &'a str,
    pub worker_count: usize,
    pub model_file_path: &'a PathBuf,
    pub output_dir: &'a PathBuf,
    /// How many episodes to take; `None` takes every episode that passes the filter.
    pub n_elements: Option<usize>,
    pub debug: bool,
    pub download_directory: &'a PathBuf,
    pub threads_per_worker: usize,
    pub name_filter: Option<&'a str>,
}

/// The episodes to transcribe, in the order the workers take them from the back,
/// and the number of workers.
pub struct DownloadPlan {
    pub episodes: Vec<Episode>,
    pub workers: usize,
}

/// The number of episodes that `n_elements` asks for out of `available`: `None`
/// asks for all of them.
pub open spec fn episode_count(n_elements: Option<usize>, available: nat) -> nat {
    match n_elements {
        Some(n) => n as nat,
        None => available,
    }
}

/// The view of an optional text.
pub open spec fn opt_str_view(s: Option<&str>) -> Option<Seq<char>> {
    match s {
        Some(t) => Some(t@),
        None => None,
    }
}

/// From episodes already latest first: those whose title matches the filter, if
/// there is one, cut to the number asked for (all of them when no number is given).
pub open spec fn planned_episodes(sorted: Seq<EpisodeView>, filter: Option<Seq<char>>, n_elements: Option<usize>) -> Seq<EpisodeView> {
    let kept = match filter {
        Some(f) => with_title_containing(sorted, f),
        None => sorted,
    };
    if episode_count(n_elements, kept.len()) < kept.len() {
        kept.take(episode_count(n_elements, kept.len()) as int)
    } else {
        kept
    }
}

/// The number of workers for `n` episodes: the count asked for, but no more than
/// there are episodes.
pub open spec fn worker_number(n: nat, worker_count: usize) -> nat {
    if n < worker_count {
        n
    } else {
        worker_count as nat
    }
}

/// Which episodes of the feed to transcribe, latest first, and by how many workers.
pub fn plan_downloads(episodes: Vec<Episode>, params: &DownloadParams) -> (plan: DownloadPlan)
    ensures
        exists|sorted: Seq<EpisodeView>|
            #![trigger planned_episodes(sorted, opt_str_view(params.name_filter), params.n_elements)]
            is_latest_first_sort(episodes@.map_values(|e: Episode| e@), sorted)
                && plan.episodes@.map_values(|e: Episode| e@) == planned_episodes(
                sorted,
                opt_str_view(params.name_filter),
                params.n_elements,
            ),
        plan.workers == worker_number(plan.episodes@.len(), params.worker_count),
{
    let sorted = sort_latest_first(episodes);
    let ghost sorted_view = sorted@.map_values(|e: Episode| e@);
    let mut kept = match params.name_filter {
        Some(filter) => retain_title_containing(sorted, filter),
        None => sorted,
    };
    if let Some(n) = params.n_elements {
        kept.truncate(n);
    }
    assert(kept@.map_values(|e: Episode| e@) =~= planned_episodes(
        sorted_view,
        opt_str_view(params.name_filter),
        params.n_elements,
    ));
    let workers = if kept.len() < params.worker_count {
        kept.len()
    } else {
        params.worker_count
    };
    DownloadPlan { episodes: kept, workers }
}

/// Whether an episode was transcribed, or skipped because its transcript was
/// already there.
#[derive(Debug)]
pub enum TranscriptionResult {
    Downloaded { title: String },
    Skipped { title: String },
}

/// What a worker does with the episode titled `title`: skip it when its transcript
/// file is already there, else download and transcribe it.
pub fn transcription_outcome(title: String, transcript_exists: bool) -> (res: TranscriptionResult)
    ensures
        transcript_exists ==> res == (TranscriptionResult::Skipped { title }),
        !transcript_exists ==> res == (TranscriptionResult::Downloaded { title }),
{
    if transcript_exists {
        TranscriptionResult::Skipped { title }
    } else {
        TranscriptionResult::Downloaded { title }
    }
}

/// The name of the file that holds the transcript of the episode titled `title`.
pub fn transcript_file_name(title: &str) -> (name: String)
    ensures
        name@ == title@ + ".json"@,
{
    let mut name = String::from_str(title);
    name.append(".json");
    name
}

/// The name of the file that the audio of the episode titled `title` is saved to.
pub fn audio_file_name(title: &str) -> (name: String)
    ensures
        name@ == title@ + ".mp3"@,
{
    let mut name = String::from_str(title);
    name.append(".mp3");
    name
}

// ---------------------------------------------------------------------------
// The model a transcript was made with, as recorded next to it.
// ---------------------------------------------------------------------------

/// The speech recognition model, as recorded with each transcript.
#[derive(Debug)]
pub struct ModelData {
    pub model_file_name: String,
    pub model_size: usize,
    pub model_sha256: String,
}

impl From<ModelInfo> for ModelData {
    fn from(info: ModelInfo) -> (res: Self) {
        ModelData { model_file_name: info.file_name, model_size: info.size, model_sha256: info.sha256 }
    }
}

impl FromSpecImpl<ModelInfo> for ModelData {
    open spec fn obeys_from_spec() -> bool {
        true
    }

    open spec fn from_spec(info: ModelInfo) -> Self {
        ModelData { model_file_name: info.file_name, model_size: info.size, model_sha256: info.sha256 }
    }
}

} // verus!
