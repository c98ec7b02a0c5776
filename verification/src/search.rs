//! The search index that the episodes are loaded into.
use vstd::prelude::*;

verus! {

/// The uid of the index whose settings are set before loading.
pub const SETTINGS_INDEX: &'static str = "podcasts";

/// The uid of the index that the episodes are loaded into.
pub const EPISODES_INDEX: &'static str = "podcasts2";

/// Settings of the search index: the relevancy ranking rules and the attributes
/// searched, shown and sortable.
pub struct IndexSettings {
    pub ranking_rules: Vec<String>,
    pub searchable_attributes: Vec<String>,
    pub displayed_attributes: Vec<String>,
    pub sortable_attributes: Vec<String>,
}

/// The views of `names`.
pub open spec fn names_view(names: Seq<String>) -> Seq<Seq<char>> {
    names.map_values(|s: String| s@)
}

/// Owned copies of `names`, in order.
fn to_strings(names: &[&str]) -> (res: Vec<String>)
    ensures
        names_view(res@) == names@.map_values(|s: &str| s@),
{
    let mut res: Vec<String> = Vec::new();
    let mut i: usize = 0;
    while i < names.len()
        invariant
            i <= names@.len(),
            names_view(res@) == names@.take(i as int).map_values(|s: &str| s@),
        decreases names@.len() - i,
    {
        let ghost before = res@;
        res.push(String::from_str(names[i]));
        assert(names@.take(i + 1) =~= names@.take(i as int).push(names@[i as int]));
        assert(names_view(res@) =~= names_view(before).push(names@[i as int]@));
        assert(names@.take(i + 1).map_values(|s: &str| s@) =~= names@.take(i as int).map_values(|s: &str| s@).push(names@[i as int]@));
        i = i + 1;
    }
    assert(names@.take(names@.len() as int) =~= names@);
    res
}

/// The settings of the episode index: the built-in ranking rules with the most
/// recent episodes first among equals, search over title and description.
pub fn podcast_index_settings() -> (s: IndexSettings)
    ensures
        names_view(s.ranking_rules@) == seq!["words"@, "typo"@, "proximity"@, "attribute"@, "sort"@, "exactness"@, "pub_date:desc"@],
        names_view(s.searchable_attributes@) == seq!["title"@, "description"@],
        names_view(s.displayed_attributes@) == seq!["title"@, "description"@, "link"@, "pub_date"@],
        names_view(s.sortable_attributes@) == seq!["title"@, "pub_date"@],
{
    let ranking = ["words", "typo", "proximity", "attribute", "sort", "exactness", "pub_date:desc"];
    let searchable = ["title", "description"];
    let displayed = ["title", "description", "link", "pub_date"];
    let sortable = ["title", "pub_date"];
    let ranking_rules = to_strings(&ranking);
    assert(ranking@.map_values(|s: &str| s@) =~= seq!["words"@, "typo"@, "proximity"@, "attribute"@, "sort"@, "exactness"@, "pub_date:desc"@]);
    let searchable_attributes = to_strings(&searchable);
    assert(searchable@.map_values(|s: &str| s@) =~= seq!["title"@, "description"@]);
    let displayed_attributes = to_strings(&displayed);
    assert(displayed@.map_values(|s: &str| s@) =~= seq!["title"@, "description"@, "link"@, "pub_date"@]);
    let sortable_attributes = to_strings(&sortable);
    assert(sortable@.map_values(|s: &str| s@) =~= seq!["title"@, "pub_date"@]);
    IndexSettings { ranking_rules, searchable_attributes, displayed_attributes, sortable_attributes }
}

/// Whether an index whose uid is `uid` is among the indexes `uids`.
pub fn has_index(uids: &Vec<String>, uid: &str) -> (b: bool)
    ensures
        b == exists|i: int| 0 <= i < uids@.len() && #[trigger] uids@[i]@ == uid@,
{
    let wanted = String::from_str(uid);
    let mut i: usize = 0;
    while i < uids.len()
        invariant
            i <= uids@.len(),
            wanted@ == uid@,
            forall|k: int| 0 <= k < i ==> #[trigger] uids@[k]@ != uid@,
        decreases uids@.len() - i,
    {
        if uids[i] == wanted {
            return true;
        }
        i = i + 1;
    }
    false
}

} // verus!
