//! Episodes of a podcast feed, keyed by an identifier made from the title, with the
//! publication date kept as the feed writes it.
use vstd::prelude::*;
use crate::feed::{
    opt_view, read_channel_items, Enclosure, EnclosureView, FeedError, FeedItem, FeedItemView,
    rss_channel_items,
};

verus! {

/// `c` is an ASCII letter or digit.
pub open spec fn is_ascii_alnum(c: char) -> bool {
    ('a' <= c && c <= 'z') || ('A' <= c && c <= 'Z') || ('0' <= c && c <= '9')
}

/// The ASCII letters and digits of `s`, in order.
pub open spec fn ascii_alnum_only(s: Seq<char>) -> Seq<char>
    decreases s.len(),
{
    if s.len() == 0 {
        s
    } else if is_ascii_alnum(s.last()) {
        ascii_alnum_only(s.drop_last()).push(s.last())
    } else {
        ascii_alnum_only(s.drop_last())
    }
}

/// An identifier holds ASCII letters and digits only, and is no longer than the
/// title it is made from.
pub proof fn lemma_id_is_ascii_alnum(title: Seq<char>)
    ensures
        forall|i: int| 0 <= i < ascii_alnum_only(title).len() ==> is_ascii_alnum(#[trigger] ascii_alnum_only(title)[i]),
        ascii_alnum_only(title).len() <= title.len(),
    decreases title.len(),
{
    if title.len() > 0 {
        lemma_id_is_ascii_alnum(title.drop_last());
    }
}

/// One text of one character for each character of `s`, in order.
pub open spec fn char_texts(s: Seq<char>) -> Seq<Seq<char>> {
    s.map_values(|c: char| seq![c])
}

/// The texts of `parts` put one after the other.
pub open spec fn concat_texts(parts: Seq<Seq<char>>) -> Seq<char>
    decreases parts.len(),
{
    if parts.len() == 0 {
        Seq::empty()
    } else {
        concat_texts(parts.drop_last()) + parts.last()
    }
}

/// Putting the one-character texts of `s` together gives `s` back.
pub proof fn lemma_concat_char_texts(s: Seq<char>)
    ensures
        concat_texts(char_texts(s)) == s,
    decreases s.len(),
{
    if s.len() > 0 {
        lemma_concat_char_texts(s.drop_last());
        assert(char_texts(s).drop_last() =~= char_texts(s.drop_last()));
        assert(char_texts(s).last() == seq![s.last()]);
        assert(s.drop_last() + seq![s.last()] =~= s);
    } else {
        assert(concat_texts(char_texts(s)) =~= s);
    }
}

/// `regex::Regex::new(pattern)` and `Regex::find_iter(text)`: the text of each match,
/// in order. For the pattern `[a-zA-Z0-9]`, a class of single ASCII characters, the
/// matches are exactly the ASCII letters and digits of `text`, one character each,
/// left to right. Other patterns are not admitted (`Regex::new` fails on invalid
/// ones and the source unwraps it).
#[verifier::external_body]
fn regex_matches(pattern: &str, text: &str) -> (res: Vec<String>)
    requires
        pattern@ == "[a-zA-Z0-9]"@,
    ensures
        res@.map_values(|m: String| m@) == char_texts(ascii_alnum_only(text@)),
{
    regex::Regex::new(pattern).unwrap().find_iter(text).map(|m| m.as_str().to_string()).collect()
}

/// The texts of `parts` put one after the other.
pub fn join_texts(parts: &Vec<String>) -> (res: String)
    ensures
        res@ == concat_texts(parts@.map_values(|m: String| m@)),
{
    let ghost views = parts@.map_values(|m: String| m@);
    let mut res = String::new();
    let mut i: usize = 0;
    assert(views.take(0) =~= Seq::<Seq<char>>::empty());
    while i < parts.len()
        invariant
            i <= parts@.len(),
            views == parts@.map_values(|m: String| m@),
            res@ == concat_texts(views.take(i as int)),
        decreases parts@.len() - i,
    {
        res.append(parts[i].as_str());
        assert(views.take(i + 1).drop_last() =~= views.take(i as int));
        assert(views.take(i + 1).last() == parts@[i as int]@);
        i = i + 1;
    }
    assert(views.take(parts@.len() as int) =~= views);
    res
}

/// An episode of the feed.
#[derive(Clone, Debug)]
pub struct Episode {
    /// Only letters: a-zA-Z0-9; unique within a feed.
    pub id: String,
    pub title: String,
    pub description: Option<String>,
    pub content: Option<String>,
    pub link: String,
    pub enclosure: Enclosure,
    pub pub_date: String,
}

pub ghost struct EpisodeView {
    pub id: Seq<char>,
    pub title: Seq<char>,
    pub description: Option<Seq<char>>,
    pub content: Option<Seq<char>>,
    pub link: Seq<char>,
    pub enclosure: EnclosureView,
    pub pub_date: Seq<char>,
}

impl View for Episode {
    type V = EpisodeView;

    open spec fn view(&self) -> EpisodeView {
        EpisodeView {
            id: self.id@,
            title: self.title@,
            description: opt_view(self.description),
            content: opt_view(self.content),
            link: self.link@,
            enclosure: self.enclosure@,
            pub_date: self.pub_date@,
        }
    }
}

/// The episode that a feed item gives: the first missing field among title, link,
/// enclosure and publication date is the error.
pub open spec fn episode_from_item(item: FeedItemView) -> Result<EpisodeView, FeedError> {
    if item.title is None {
        Err(FeedError::MissingTitle)
    } else if item.link is None {
        Err(FeedError::MissingLink)
    } else if item.enclosure is None {
        Err(FeedError::MissingEnclosure)
    } else if item.pub_date is None {
        Err(FeedError::MissingPubDate)
    } else {
        Ok(
            EpisodeView {
                id: ascii_alnum_only(item.title.unwrap()),
                title: item.title.unwrap(),
                description: item.description,
                content: item.content,
                link: item.link.unwrap(),
                enclosure: item.enclosure.unwrap(),
                pub_date: item.pub_date.unwrap(),
            },
        )
    }
}

/// The identifier made of a title is the title's ASCII letters and digits, all of
/// them, in order.
pub proof fn lemma_id_is_title_letters_and_digits(title: Seq<char>)
    ensures
        ascii_alnum_only(title) == title.filter(
            |c: char| ('a' <= c && c <= 'z') || ('A' <= c && c <= 'Z') || ('0' <= c && c <= '9'),
        ),
    decreases title.len(),
{
    reveal(Seq::filter);
    if title.len() > 0 {
        lemma_id_is_title_letters_and_digits(title.drop_last());
    }
}

/// A feed item gives an episode exactly when it has a title, a link, an enclosure
/// and a publication date; the missing ones are reported in that order. The episode
/// keeps the item's fields as they are, and its identifier is the title's ASCII
/// letters and digits, in order.
pub proof fn lemma_episode_from_item_fields(item: FeedItemView)
    ensures
        item.title is None ==> episode_from_item(item) == Err::<EpisodeView, FeedError>(FeedError::MissingTitle),
        item.title is Some && item.link is None ==> episode_from_item(item) == Err::<EpisodeView, FeedError>(
            FeedError::MissingLink,
        ),
        item.title is Some && item.link is Some && item.enclosure is None ==> episode_from_item(item)
            == Err::<EpisodeView, FeedError>(FeedError::MissingEnclosure),
        item.title is Some && item.link is Some && item.enclosure is Some && item.pub_date is None
            ==> episode_from_item(item) == Err::<EpisodeView, FeedError>(FeedError::MissingPubDate),
        episode_from_item(item) is Ok <==> (item.title is Some && item.link is Some && item.enclosure is Some
            && item.pub_date is Some),
        episode_from_item(item) matches Ok(e) ==> {
            &&& e.id == item.title.unwrap().filter(
                |c: char| ('a' <= c && c <= 'z') || ('A' <= c && c <= 'Z') || ('0' <= c && c <= '9'),
            )
            &&& e.title == item.title.unwrap()
            &&& e.description == item.description
            &&& e.content == item.content
            &&& e.link == item.link.unwrap()
            &&& e.enclosure == item.enclosure.unwrap()
            &&& e.pub_date == item.pub_date.unwrap()
        },
{
    if item.title is Some {
        lemma_id_is_title_letters_and_digits(item.title.unwrap());
    }
}

/// The episodes that the items give, in order, or the error of the first item
/// that gives none.
pub open spec fn episodes_from_items(items: Seq<FeedItemView>) -> Result<Seq<EpisodeView>, FeedError>
    decreases items.len(),
{
    if items.len() == 0 {
        Ok(Seq::empty())
    } else {
        match episodes_from_items(items.drop_last()) {
            Err(e) => Err(e),
            Ok(prev) => match episode_from_item(items.last()) {
                Err(e) => Err(e),
                Ok(ep) => Ok(prev.push(ep)),
            },
        }
    }
}

/// No two episodes of `s` have the same identifier.
pub open spec fn ids_distinct(s: Seq<EpisodeView>) -> bool {
    forall|i: int, j: int| 0 <= i < s.len() && 0 <= j < s.len() && i != j ==> #[trigger] s[i].id != #[trigger] s[j].id
}

/// The episodes of the RSS channel in `xml`: an item that gives no episode is the
/// error, then two episodes with the same identifier are.
pub open spec fn episodes_from_xml(xml: Seq<char>) -> Result<Seq<EpisodeView>, FeedError> {
    match rss_channel_items(xml) {
        None => Err(FeedError::Rss),
        Some(items) => match episodes_from_items(items) {
            Err(e) => Err(e),
            Ok(v) => if ids_distinct(v) {
                Ok(v)
            } else {
                Err(FeedError::DuplicateId)
            },
        },
    }
}

/// A feed gives episodes exactly when each of its items gives one, and then the
/// episodes are those of the items, one per item, in the feed's order.
pub proof fn lemma_episodes_itemwise(items: Seq<FeedItemView>)
    ensures
        episodes_from_items(items) is Ok <==> forall|k: int| 0 <= k < items.len() ==> #[trigger] episode_from_item(items[k]) is Ok,
        episodes_from_items(items) matches Ok(v) ==> v.len() == items.len() && forall|k: int|
            0 <= k < items.len() ==> episode_from_item(items[k]) == Ok::<EpisodeView, FeedError>(#[trigger] v[k]),
    decreases items.len(),
{
    if items.len() > 0 {
        let p = items.drop_last();
        lemma_episodes_itemwise(p);
        assert forall|k: int| 0 <= k < p.len() implies #[trigger] p[k] == items[k] by {}
        if episodes_from_items(items) is Ok {
            let v = episodes_from_items(items)->Ok_0;
            let vp = episodes_from_items(p)->Ok_0;
            assert forall|k: int| 0 <= k < items.len() implies episode_from_item(items[k]) == Ok::<EpisodeView, FeedError>(#[trigger] v[k]) by {
                if k < p.len() {
                    assert(p[k] == items[k]);
                    assert(v[k] == vp[k]);
                }
            }
            assert forall|k: int| 0 <= k < items.len() implies #[trigger] episode_from_item(items[k]) is Ok by {
                assert(episode_from_item(items[k]) == Ok::<EpisodeView, FeedError>(v[k]));
            }
        } else if episodes_from_items(p) is Ok {
            assert(episode_from_item(items[items.len() - 1]) is Err);
        } else {
            let k = choose|k: int| 0 <= k < p.len() && !(#[trigger] episode_from_item(p[k]) is Ok);
            assert(p[k] == items[k]);
        }
    }
}

/// Once a prefix of the items fails, the whole sequence fails with the same error.
pub proof fn lemma_episodes_error_sticks(items: Seq<FeedItemView>, k: int)
    requires
        0 <= k <= items.len(),
        episodes_from_items(items.take(k)) is Err,
    ensures
        episodes_from_items(items) == episodes_from_items(items.take(k)),
    decreases items.len() - k,
{
    if k < items.len() {
        assert(items.take(k + 1).drop_last() =~= items.take(k));
        lemma_episodes_error_sticks(items, k + 1);
    } else {
        assert(items.take(k) =~= items);
    }
}

impl Episode {
    /// The episode that `episode` gives; see `episode_from_item`.
    pub fn try_from(episode: FeedItem) -> (res: Result<Episode, FeedError>)
        ensures
            match res {
                Ok(e) => episode_from_item(episode@) == Ok::<EpisodeView, FeedError>(e@),
                Err(err) => episode_from_item(episode@) == Err::<EpisodeView, FeedError>(err),
            },
            res matches Ok(e) ==> e@.title == episode@.title.unwrap() && e@.description == episode@.description
                && e@.content == episode@.content && e@.link == episode@.link.unwrap() && e@.enclosure
                == episode@.enclosure.unwrap(),
            res matches Ok(e) ==> e@.id == episode@.title.unwrap().filter(
                |c: char| ('a' <= c && c <= 'z') || ('A' <= c && c <= 'Z') || ('0' <= c && c <= '9'),
            ),
    {
        proof {
            lemma_episode_from_item_fields(episode@);
        }
        let title = match episode.title {
            Some(t) => t,
            None => return Err(FeedError::MissingTitle),
        };
        let matches = regex_matches("[a-zA-Z0-9]", title.as_str());
        let id = join_texts(&matches);
        proof {
            lemma_concat_char_texts(ascii_alnum_only(title@));
        }
        let link = match episode.link {
            Some(l) => l,
            None => return Err(FeedError::MissingLink),
        };
        let enclosure = match episode.enclosure {
            Some(e) => e,
            None => return Err(FeedError::MissingEnclosure),
        };
        let pub_date = match episode.pub_date {
            Some(d) => d,
            None => return Err(FeedError::MissingPubDate),
        };
        Ok(
            Episode {
                id,
                title,
                description: episode.description,
                content: episode.content,
                link,
                enclosure,
                pub_date,
            },
        )
    }
}

/// All episodes of a feed.
pub struct AllEpisodes {
    pub episodes: Vec<Episode>,
}

impl AllEpisodes {
    /// The episodes of the RSS channel in `value`; see `episodes_from_xml`.
    pub fn try_from(value: String) -> (res: Result<AllEpisodes, FeedError>)
        ensures
            match res {
                Ok(all) => episodes_from_xml(value@) == Ok::<Seq<EpisodeView>, FeedError>(
                    all.episodes@.map_values(|e: Episode| e@),
                ),
                Err(err) => episodes_from_xml(value@) == Err::<Seq<EpisodeView>, FeedError>(err),
            },
            res matches Ok(all) ==> ids_distinct(all.episodes@.map_values(|e: Episode| e@)),
    {
        let items = match read_channel_items(value.as_str()) {
            Ok(items) => items,
            Err(_) => return Err(FeedError::Rss),
        };
        let ghost item_views = items@.map_values(|i: FeedItem| i@);
        let mut episodes: Vec<Episode> = Vec::new();
        assert(item_views.take(0) =~= Seq::<FeedItemView>::empty());
        assert(episodes@.map_values(|e: Episode| e@) =~= Seq::<EpisodeView>::empty());
        for item in it: items
            invariant
                item_views == it.seq().map_values(|i: FeedItem| i@),
                rss_channel_items(value@) == Some(item_views),
                episodes_from_items(item_views.take(it.index() as int)) == Ok::<Seq<EpisodeView>, FeedError>(
                    episodes@.map_values(|e: Episode| e@),
                ),
        {
            let ghost k = it.index() as int;
            assert(item_views.take(k + 1).drop_last() =~= item_views.take(k));
            assert(item_views.take(k + 1).last() == item@);
            let ghost before = episodes@;
            match Episode::try_from(item) {
                Ok(e) => {
                    episodes.push(e);
                    assert(episodes@.map_values(|e: Episode| e@) =~= before.map_values(|e: Episode| e@).push(e@));
                },
                Err(err) => {
                    proof {
                        lemma_episodes_error_sticks(item_views, k + 1);
                    }
                    return Err(err);
                },
            }
        }
        assert(item_views.take(item_views.len() as int) =~= item_views);
        if !ids_are_distinct(&episodes) {
            return Err(FeedError::DuplicateId);
        }
        Ok(AllEpisodes { episodes })
    }
}

/// Whether no two of `episodes` have the same identifier.
fn ids_are_distinct(episodes: &Vec<Episode>) -> (b: bool)
    ensures
        b == ids_distinct(episodes@.map_values(|e: Episode| e@)),
{
    let ghost v = episodes@.map_values(|e: Episode| e@);
    let n = episodes.len();
    let mut j: usize = 0;
    while j < n
        invariant
            n == episodes@.len(),
            v == episodes@.map_values(|e: Episode| e@),
            j <= n,
            forall|a: int, b: int| 0 <= a < b < j ==> #[trigger] v[a].id != #[trigger] v[b].id,
        decreases n - j,
    {
        let mut i: usize = 0;
        while i < j
            invariant
                n == episodes@.len(),
                v == episodes@.map_values(|e: Episode| e@),
                i <= j < n,
                forall|a: int, b: int| 0 <= a < b < j ==> #[trigger] v[a].id != #[trigger] v[b].id,
                forall|a: int| 0 <= a < i ==> #[trigger] v[a].id != v[j as int].id,
            decreases j - i,
        {
            if episodes[i].id == episodes[j].id {
                assert(v[i as int].id == v[j as int].id);
                return false;
            }
            i = i + 1;
        }
        j = j + 1;
    }
    assert forall|a: int, b: int| 0 <= a < v.len() && 0 <= b < v.len() && a != b implies #[trigger] v[a].id != #[trigger] v[b].id by {
        if a > b {
            assert(v[b].id != v[a].id);
        }
    }
    true
}

// ---------------------------------------------------------------------------
// The earliest episode by its date text.
// ---------------------------------------------------------------------------

/// `a` comes strictly before `b` in lexicographic order of code points, which is the
/// order of their UTF-8 bytes.
pub open spec fn text_less(a: Seq<char>, b: Seq<char>) -> bool
    decreases a.len(),
{
    if a.len() == 0 {
        b.len() > 0
    } else if b.len() == 0 {
        false
    } else if a[0] != b[0] {
        (a[0] as int) < (b[0] as int)
    } else {
        text_less(a.drop_first(), b.drop_first())
    }
}

/// Comparing past a common prefix of length `i`.
proof fn lemma_text_less_skip(a: Seq<char>, b: Seq<char>, i: int)
    requires
        0 <= i <= a.len(),
        i <= b.len(),
        a.take(i) == b.take(i),
    ensures
        text_less(a, b) == text_less(a.skip(i), b.skip(i)),
    decreases i,
{
    if i > 0 {
        assert(a[0] == a.take(i)[0]);
        assert(b[0] == b.take(i)[0]);
        assert(a.drop_first().take(i - 1) =~= a.take(i).drop_first());
        assert(b.drop_first().take(i - 1) =~= b.take(i).drop_first());
        lemma_text_less_skip(a.drop_first(), b.drop_first(), i - 1);
        assert(a.drop_first().skip(i - 1) =~= a.skip(i));
        assert(b.drop_first().skip(i - 1) =~= b.skip(i));
    } else {
        assert(a.skip(0) =~= a);
        assert(b.skip(0) =~= b);
    }
}

/// `text_less` is transitive.
pub proof fn lemma_text_less_transitive(a: Seq<char>, b: Seq<char>, c: Seq<char>)
    requires
        text_less(a, b),
        text_less(b, c),
    ensures
        text_less(a, c),
    decreases a.len(),
{
    if a.len() > 0 && b.len() > 0 && c.len() > 0 && a[0] == b[0] && b[0] == c[0] {
        lemma_text_less_transitive(a.drop_first(), b.drop_first(), c.drop_first());
    }
}

/// No text comes before itself.
pub proof fn lemma_text_less_irreflexive(a: Seq<char>)
    ensures
        !text_less(a, a),
    decreases a.len(),
{
    if a.len() > 0 {
        lemma_text_less_irreflexive(a.drop_first());
    }
}

/// Of two different texts, one comes before the other.
pub proof fn lemma_text_less_total(a: Seq<char>, b: Seq<char>)
    ensures
        text_less(a, b) || a == b || text_less(b, a),
    decreases a.len(),
{
    if a.len() > 0 && b.len() > 0 {
        if a[0] == b[0] {
            lemma_text_less_total(a.drop_first(), b.drop_first());
            if a.drop_first() == b.drop_first() {
                assert(a =~= seq![a[0]] + a.drop_first());
                assert(b =~= seq![b[0]] + b.drop_first());
            }
        }
    } else if a.len() == 0 && b.len() == 0 {
        assert(a =~= b);
    }
}

/// Whether `a` comes strictly before `b`; see `text_less`.
pub fn str_less(a: &str, b: &str) -> (res: bool)
    ensures
        res == text_less(a@, b@),
{
    let la = a.unicode_len();
    let lb = b.unicode_len();
    let mut i: usize = 0;
    while i < la && i < lb
        invariant
            la == a@.len(),
            lb == b@.len(),
            i <= la,
            i <= lb,
            a@.take(i as int) == b@.take(i as int),
        decreases la - i,
    {
        let ca = a.get_char(i);
        let cb = b.get_char(i);
        if ca != cb {
            proof {
                lemma_text_less_skip(a@, b@, i as int);
                assert(a@.skip(i as int)[0] == ca);
                assert(b@.skip(i as int)[0] == cb);
            }
            return (ca as u32) < (cb as u32);
        }
        assert(a@.take(i + 1) =~= a@.take(i as int).push(ca));
        assert(b@.take(i + 1) =~= b@.take(i as int).push(cb));
        i = i + 1;
    }
    proof {
        lemma_text_less_skip(a@, b@, i as int);
    }
    i < lb
}

/// The first episode among those whose date text is least, which is the first one
/// after sorting the episodes stably by date text; `None` when there are none.
pub fn earliest_published(episodes: Vec<Episode>) -> (res: Option<Episode>)
    ensures
        res is None <==> episodes@.len() == 0,
        res matches Some(e) ==> exists|i: int|
            #![trigger episodes@[i]]
            0 <= i < episodes@.len() && episodes@[i] == e
                && (forall|j: int| 0 <= j < episodes@.len() ==> !text_less(#[trigger] episodes@[j].pub_date@, e.pub_date@))
                && (forall|j: int| 0 <= j < i ==> text_less(e.pub_date@, #[trigger] episodes@[j].pub_date@)),
{
    let mut episodes = episodes;
    let ghost input = episodes@;
    if episodes.len() == 0 {
        return None;
    }
    let mut best: usize = 0;
    let mut i: usize = 1;
    proof {
        lemma_text_less_irreflexive(input[0].pub_date@);
    }
    while i < episodes.len()
        invariant
            episodes@ == input,
            0 <= best < i <= input.len(),
            forall|j: int| 0 <= j < i ==> !text_less(#[trigger] input[j].pub_date@, input[best as int].pub_date@),
            forall|j: int| 0 <= j < best ==> text_less(input[best as int].pub_date@, #[trigger] input[j].pub_date@),
        decreases input.len() - i,
    {
        if str_less(episodes[i].pub_date.as_str(), episodes[best].pub_date.as_str()) {
            proof {
                let ni = input[i as int].pub_date@;
                let nb = input[best as int].pub_date@;
                lemma_text_less_irreflexive(ni);
                assert forall|j: int| 0 <= j < i implies !text_less(#[trigger] input[j].pub_date@, ni) by {
                    if text_less(input[j].pub_date@, ni) {
                        lemma_text_less_transitive(input[j].pub_date@, ni, nb);
                    }
                }
                assert forall|j: int| 0 <= j < i implies text_less(ni, #[trigger] input[j].pub_date@) by {
                    let nj = input[j].pub_date@;
                    if j < best {
                        lemma_text_less_transitive(ni, nb, nj);
                    } else if j > best {
                        lemma_text_less_total(nj, nb);
                        if text_less(nb, nj) {
                            lemma_text_less_transitive(ni, nb, nj);
                        }
                    }
                }
            }
            best = i;
        }
        i = i + 1;
    }
    let e = episodes.swap_remove(best);
    Some(e)
}

} // verus!
