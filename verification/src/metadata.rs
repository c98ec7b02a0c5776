//! Metadata read from the tags of an audio file.
use vstd::prelude::*;

verus! {

/// The texts of `parts` joined, with `sep` between each two.
pub open spec fn joined(parts: Seq<Seq<char>>, sep: Seq<char>) -> Seq<char>
    decreases parts.len(),
{
    if parts.len() == 0 {
        Seq::empty()
    } else if parts.len() == 1 {
        parts[0]
    } else {
        joined(parts.drop_last(), sep) + sep + parts.last()
    }
}

/// Title, pictures and podcast identifier of an episode's audio file.
#[derive(Clone, Debug)]
pub struct Metadata {
    pub title: String,
    pub pictures: Vec<String>,
    pub unique_id: String,
}

impl Metadata {
    /// The metadata of a file whose first tag has the title `title` and the podcast
    /// global unique identifiers `podcast_ids`: the identifiers are joined with `/`.
    /// Pictures are not kept.
    pub fn from_tag(title: String, podcast_ids: &Vec<String>) -> (meta: Metadata)
        ensures
            meta.title@ == title@,
            meta.pictures@.len() == 0,
            meta.unique_id@ == joined(podcast_ids@.map_values(|s: String| s@), "/"@),
    {
        let ghost parts = podcast_ids@.map_values(|s: String| s@);
        let mut id = String::new();
        let n = podcast_ids.len();
        let mut i: usize = 0;
        assert(parts.take(0) =~= Seq::<Seq<char>>::empty());
        while i < n
            invariant
                n == podcast_ids@.len(),
                parts == podcast_ids@.map_values(|s: String| s@),
                i <= n,
                i < n ==> id@ == joined(parts.take(i as int), "/"@) + (if i > 0 { "/"@ } else { Seq::empty() }),
                i == n ==> id@ == joined(parts.take(i as int), "/"@),
            decreases n - i,
        {
            let ghost before = id@;
            id.append(podcast_ids[i].as_str());
            assert(parts.take(i + 1).drop_last() =~= parts.take(i as int));
            assert(parts.take(i + 1).last() == parts[i as int]);
            if i > 0 {
                assert(id@ =~= joined(parts.take(i as int), "/"@) + "/"@ + parts[i as int]);
            } else {
                assert(parts.take(1).len() == 1);
                assert(id@ =~= parts[0]);
            }
            if i + 1 < n {
                id.append("/");
            }
            i = i + 1;
        }
        assert(parts.take(n as int) =~= parts);
        Metadata { title, pictures: Vec::new(), unique_id: id }
    }
}

} // verus!
