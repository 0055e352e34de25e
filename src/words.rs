use vstd::prelude::*;
use crate::tally::{string_views, tally_of, Tally};

verus! {

/// What `str::split_whitespace` yields for the text `s`.
pub uninterp spec fn words_of(s: Seq<char>) -> Seq<Seq<char>>;

/// What `str::to_lowercase` returns for the text `s`.
pub uninterp spec fn lower_of(s: Seq<char>) -> Seq<char>;

/// Relies on `str::split_whitespace`: the whitespace-separated words of `s`, in order.
#[verifier::external_body]
fn split_words(s: &str) -> (r: Vec<String>)
    ensures
        string_views(r@) == words_of(s@),
{
    s.split_whitespace().map(|w| w.to_string()).collect()
}

/// Relies on `str::to_lowercase`: the lowercase form of `s`.
#[verifier::external_body]
fn lowercase(s: &str) -> (r: String)
    ensures
        r@ == lower_of(s@),
{
    s.to_lowercase()
}

pub open spec fn lowered_words(ws: Seq<Seq<char>>) -> Seq<Seq<char>> {
    ws.map_values(|w: Seq<char>| lower_of(w))
}

/// Counts the words of `text`, split at whitespace, ignoring case.
pub fn word_count(text: &str) -> (r: Tally)
    ensures
        r@ == tally_of(lowered_words(words_of(text@))),
{
    let words = split_words(text);
    let mut lower: Vec<String> = Vec::new();
    let mut i: usize = 0;
    while i < words.len()
        invariant
            i <= words@.len(),
            lower@.len() == i,
            string_views(lower@) == lowered_words(string_views(words@)).subrange(0, i as int),
        decreases words.len() - i,
    {
        let w = lowercase(words[i].as_str());
        let ghost before = lower@;
        lower.push(w);
        proof {
            let target = lowered_words(string_views(words@)).subrange(0, i + 1);
            assert forall|k: int| 0 <= k < i + 1 implies #[trigger] string_views(lower@)[k] == target[k] by {
                if k < i {
                    assert(lower@[k] == before[k]);
                    assert(string_views(before)[k] == target[k]);
                }
            }
            assert(string_views(lower@) =~= target);
        }
        i = i + 1;
    }
    proof {
        assert(lowered_words(string_views(words@)).subrange(0, i as int) =~= lowered_words(string_views(words@)));
    }
    Tally::of_words(&lower)
}

/// Counts how often each name occurs in `names`.
pub fn count_fruits(names: &Vec<&str>) -> (r: Tally)
    ensures
        r@ == tally_of(names@.map_values(|f: &str| f@)),
{
    let mut owned: Vec<String> = Vec::new();
    let mut i: usize = 0;
    while i < names.len()
        invariant
            i <= names@.len(),
            owned@.len() == i,
            string_views(owned@) == names@.map_values(|f: &str| f@).subrange(0, i as int),
        decreases names.len() - i,
    {
        let ghost before = owned@;
        owned.push(names[i].to_owned());
        proof {
            let target = names@.map_values(|f: &str| f@).subrange(0, i + 1);
            assert forall|k: int| 0 <= k < i + 1 implies #[trigger] string_views(owned@)[k] == target[k] by {
                if k < i {
                    assert(owned@[k] == before[k]);
                    assert(string_views(before)[k] == target[k]);
                }
            }
            assert(string_views(owned@) =~= target);
        }
        i = i + 1;
    }
    proof {
        assert(names@.map_values(|f: &str| f@).subrange(0, i as int) =~= names@.map_values(|f: &str| f@));
    }
    Tally::of_words(&owned)
}

} // verus!
