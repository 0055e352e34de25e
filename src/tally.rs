use vstd::prelude::*;
use crate::counting::{count_where, lemma_count_push};

verus! {

/// Number of times `k` occurs in `ws`.
pub open spec fn occurrences(ws: Seq<Seq<char>>, k: Seq<char>) -> nat {
    count_where(ws, |w: Seq<char>| w == k)
}

/// Each distinct word of `ws`, with the number of times it occurs.
pub open spec fn tally_of(ws: Seq<Seq<char>>) -> Map<Seq<char>, nat> {
    Map::new(|k: Seq<char>| ws.contains(k), |k: Seq<char>| occurrences(ws, k))
}

pub open spec fn string_views(v: Seq<String>) -> Seq<Seq<char>> {
    v.map_values(|s: String| s@)
}

proof fn lemma_count_none(ws: Seq<Seq<char>>, k: Seq<char>)
    requires
        !ws.contains(k),
    ensures
        occurrences(ws, k) == 0,
    decreases ws.len(),
{
    if ws.len() > 0 {
        let d = ws.drop_last();
        assert(!d.contains(k)) by {
            if d.contains(k) {
                let i = choose|i: int| 0 <= i < d.len() && d[i] == k;
                assert(ws[i] == k);
            }
        }
        lemma_count_none(d, k);
        assert(ws.last() != k) by {
            if ws.last() == k {
                assert(ws[ws.len() - 1] == k);
            }
        }
    }
}

/// Index of the first string of `keys` equal to `w`.
fn position_of(keys: &Vec<String>, w: &String) -> (r: Option<usize>)
    ensures
        r is None ==> forall|x: int| 0 <= x < keys@.len() ==> keys@[x]@ != w@,
        r is Some ==> r->Some_0 < keys@.len() && keys@[r->Some_0 as int]@ == w@,
{
    let mut j: usize = 0;
    while j < keys.len()
        invariant
            j <= keys@.len(),
            forall|x: int| 0 <= x < j ==> keys@[x]@ != w@,
        decreases keys.len() - j,
    {
        if keys[j] == *w {
            return Some(j);
        }
        j = j + 1;
    }
    None
}

/// Words with the number of times each occurred, in order of first occurrence.
#[derive(Debug)]
pub struct Tally {
    keys: Vec<String>,
    counts: Vec<usize>,
}

impl View for Tally {
    type V = Map<Seq<char>, nat>;

    closed spec fn view(&self) -> Map<Seq<char>, nat> {
        Map::new(
            |k: Seq<char>| string_views(self.keys@).contains(k),
            |k: Seq<char>|
                self.counts@[choose|i: int| 0 <= i < self.keys@.len() && self.keys@[i]@ == k] as nat,
        )
    }
}

impl Tally {
    #[verifier::type_invariant]
    closed spec fn wf(&self) -> bool {
        &&& self.keys@.len() == self.counts@.len()
        &&& string_views(self.keys@).no_duplicates()
    }

    /// Counts every word of `words`.
    pub fn of_words(words: &Vec<String>) -> (t: Tally)
        ensures
            t@ == tally_of(string_views(words@)),
    {
        let ghost ws = string_views(words@);
        let mut keys: Vec<String> = Vec::new();
        let mut counts: Vec<usize> = Vec::new();
        let mut i: usize = 0;
        while i < words.len()
            invariant
                ws == string_views(words@),
                i <= words@.len(),
                keys@.len() == counts@.len(),
                string_views(keys@).no_duplicates(),
                forall|j: int|
                    0 <= j < keys@.len() ==> #[trigger] counts@[j] == occurrences(
                        ws.subrange(0, i as int),
                        keys@[j]@,
                    ) && ws.subrange(0, i as int).contains(keys@[j]@) && counts@[j] <= i,
                forall|k: Seq<char>|
                    #[trigger] ws.subrange(0, i as int).contains(k) ==> string_views(keys@).contains(k),
            decreases words.len() - i,
        {
            let w = &words[i];
            let ghost pre = ws.subrange(0, i as int);
            let ghost post = ws.subrange(0, i + 1);
            let ghost keys0 = keys@;
            let ghost counts0 = counts@;
            proof {
                assert forall|j: int| 0 <= j < keys0.len() implies #[trigger] counts0[j] == occurrences(pre, keys0[j]@)
                    && pre.contains(keys0[j]@) by {
                    assert(counts@[j] == counts0[j]);
                }
            }
            proof {
                assert(post =~= pre.push(w@));
                assert forall|k: Seq<char>| true implies occurrences(post, k) == occurrences(pre, k) + if w@
                    == k {
                    1nat
                } else {
                    0nat
                } by {
                    lemma_count_push(pre, w@, |x: Seq<char>| x == k);
                }
            }
            match position_of(&keys, w) {
                Some(x) => {
                    let c = counts[x];
                    counts.set(x, c + 1);
                    proof {
                        assert forall|y: int| 0 <= y < keys@.len() && y != x implies keys@[y]@ != w@ by {
                            assert(string_views(keys@)[y] != string_views(keys@)[x as int]);
                        }
                        assert(string_views(keys@)[x as int] == w@);
                    }
                },
                None => {
                    proof {
                        assert(!string_views(keys@).contains(w@)) by {
                            if string_views(keys@).contains(w@) {
                                let y = choose|y: int| 0 <= y < keys@.len() && string_views(keys@)[y] == w@;
                                assert(keys@[y]@ == w@);
                            }
                        }
                        assert(!pre.contains(w@));
                        lemma_count_none(pre, w@);
                    }
                    let ghost old_keys = keys@;
                    keys.push(w.clone());
                    counts.push(1);
                    proof {
                        assert(string_views(keys@) =~= string_views(old_keys).push(w@));
                        assert(string_views(keys@)[keys@.len() - 1] == w@);
                    }
                },
            }
            proof {
                assert forall|k: Seq<char>| #[trigger] post.contains(k) implies string_views(keys@).contains(k) by {
                    let y = choose|y: int| 0 <= y < post.len() && post[y] == k;
                    if y < i {
                        assert(pre[y] == k);
                        assert(pre.contains(k));
                        assert(string_views(keys0).contains(k));
                        let x = choose|x: int| 0 <= x < keys0.len() && string_views(keys0)[x] == k;
                        assert(keys@[x] == keys0[x]);
                        assert(string_views(keys@)[x] == k);
                    } else {
                        assert(k == w@);
                    }
                }
                assert forall|j: int| 0 <= j < keys@.len() implies #[trigger] counts@[j] == occurrences(
                    post,
                    keys@[j]@,
                ) && post.contains(keys@[j]@) && counts@[j] <= i + 1 by {
                    if keys@[j]@ == w@ {
                        assert(post[i as int] == w@);
                    } else {
                        assert(j < keys0.len());
                        assert(keys@[j] == keys0[j]);
                        assert(forall|jj: int| 0 <= jj < keys0.len() ==> #[trigger] counts0[jj] == occurrences(pre, keys0[jj]@));
                        assert(counts0[j] == occurrences(pre, keys0[j]@));
                        assert(pre.contains(keys0[j]@));
                        let y = choose|y: int| 0 <= y < pre.len() && pre[y] == keys@[j]@;
                        assert(post[y] == keys@[j]@);
                    }
                }
            }
            i = i + 1;
        }
        let t = Tally { keys, counts };
        proof {
            assert(ws.subrange(0, ws.len() as int) =~= ws);
            assert forall|k: Seq<char>| #[trigger] t@.contains_key(k) implies t@[k] == occurrences(ws, k) by {
                let x = choose|x: int| 0 <= x < t.keys@.len() && t.keys@[x]@ == k;
                let y = choose|y: int| 0 <= y < string_views(t.keys@).len() && string_views(t.keys@)[y] == k;
                assert(string_views(t.keys@)[x] == k);
            }
            assert(t@ =~= tally_of(ws));
        }
        t
    }

    /// How many times `key` was counted; `None` if never.
    pub fn get(&self, key: &str) -> (r: Option<&usize>)
        ensures
            r is Some == self@.contains_key(key@),
            r is Some ==> *r->Some_0 as nat == self@[key@],
    {
        proof {
            use_type_invariant(self);
        }
        let k = key.to_owned();
        let mut j: usize = 0;
        while j < self.keys.len()
            invariant
                k@ == key@,
                self.keys@.len() == self.counts@.len(),
                string_views(self.keys@).no_duplicates(),
                j <= self.keys@.len(),
                forall|x: int| 0 <= x < j ==> self.keys@[x]@ != key@,
            decreases self.keys.len() - j,
        {
            if self.keys[j] == k {
                proof {
                    let x = choose|x: int| 0 <= x < self.keys@.len() && self.keys@[x]@ == key@;
                    assert(string_views(self.keys@)[x] == string_views(self.keys@)[j as int]);
                    assert(string_views(self.keys@)[j as int] == key@);
                }
                return Some(&self.counts[j]);
            }
            j = j + 1;
        }
        proof {
            if string_views(self.keys@).contains(key@) {
                let y = choose|y: int| 0 <= y < self.keys@.len() && string_views(self.keys@)[y] == key@;
                assert(self.keys@[y]@ == key@);
            }
        }
        None
    }

    /// Number of distinct words.
    pub fn len(&self) -> (n: usize)
        ensures
            n == self@.dom().len(),
    {
        proof {
            use_type_invariant(self);
            string_views(self.keys@).unique_seq_to_set();
            assert(self@.dom() =~= string_views(self.keys@).to_set());
        }
        self.keys.len()
    }
}

} // verus!
