//! Slash-delimited path segmentation.
//!
//! Paths are addressed by their nonempty slash-separated segments; empty
//! segments, as arise from leading, trailing or doubled separators, are
//! dropped, so `"a//b/"`, `"/a/b"` and `"a/b"` all denote the same segments.

use vstd::prelude::*;

verus! {

/// Index of the first `'/'` in `s`, or `s.len()` if there is none.
pub open spec fn first_sep(s: Seq<char>) -> int
    decreases s,
{
    if s.len() == 0 {
        0
    } else if s[0] == '/' {
        0
    } else {
        1 + first_sep(s.drop_first())
    }
}

pub proof fn lemma_first_sep(s: Seq<char>)
    ensures
        0 <= first_sep(s) <= s.len(),
        forall|j: int| 0 <= j < first_sep(s) ==> s[j] != '/',
        first_sep(s) < s.len() ==> s[first_sep(s)] == '/',
    decreases s,
{
    if s.len() > 0 && s[0] != '/' {
        lemma_first_sep(s.drop_first());
        assert forall|j: int| 0 <= j < first_sep(s) implies s[j] != '/' by {
            if j > 0 {
                assert(s.drop_first()[j - 1] != '/');
            }
        }
        if first_sep(s) < s.len() {
            assert(s.drop_first()[first_sep(s) - 1] == '/');
        }
    }
}

/// The slash-separated segments of a path, with empty segments dropped.
pub open spec fn seg_split(s: Seq<char>) -> Seq<Seq<char>>
    decreases s.len(),
    via seg_split_decreases
{
    if s.len() == 0 {
        Seq::empty()
    } else {
        let i = first_sep(s);
        let rest = if i == s.len() {
            Seq::<char>::empty()
        } else {
            s.subrange(i + 1, s.len() as int)
        };
        if i == 0 {
            seg_split(rest)
        } else {
            seq![s.subrange(0, i)] + seg_split(rest)
        }
    }
}

#[via_fn]
proof fn seg_split_decreases(s: Seq<char>) {
    lemma_first_sep(s);
}

/// Every segment that `seg_split` yields is nonempty.
pub proof fn lemma_seg_split_nonempty(s: Seq<char>)
    ensures
        forall|i: int| 0 <= i < seg_split(s).len() ==> seg_split(s)[i].len() > 0,
    decreases s.len(),
{
    if s.len() > 0 {
        lemma_first_sep(s);
        let i = first_sep(s);
        let rest = if i == s.len() {
            Seq::<char>::empty()
        } else {
            s.subrange(i + 1, s.len() as int)
        };
        lemma_seg_split_nonempty(rest);
        if i != 0 {
            assert(seg_split(s) == seq![s.subrange(0, i)] + seg_split(rest));
            assert forall|k: int| 0 <= k < seg_split(s).len() implies seg_split(s)[k].len() > 0 by {
                if k == 0 {
                    assert(seg_split(s)[0] == s.subrange(0, i));
                } else {
                    assert(seg_split(s)[k] == seg_split(rest)[k - 1]);
                }
            }
        }
    }
}

/// Split a path on `'/'`, keeping only the nonempty segments.
pub fn split_path(s: &str) -> (r: Vec<String>)
    ensures
        r.deep_view() == seg_split(s@),
    decreases s@.len(),
{
    let n = s.unicode_len();
    if n == 0 {
        let r: Vec<String> = Vec::new();
        assert(r.deep_view() =~~= seg_split(s@));
        return r;
    }
    let mut i: usize = 0;
    while i < n && s.get_char(i) != '/'
        invariant
            0 <= i <= n,
            n == s@.len(),
            forall|j: int| 0 <= j < i ==> s@[j] != '/',
        decreases n - i,
    {
        i = i + 1;
    }
    proof {
        lemma_first_sep(s@);
        assert(i == first_sep(s@)) by {
            if i < first_sep(s@) {
                assert(s@[i as int] != '/');
            }
            if first_sep(s@) < i {
                assert(s@[first_sep(s@)] == '/');
            }
        }
    }
    let rest: Vec<String> = if i == n {
        Vec::new()
    } else {
        split_path(s.substring_char(i + 1, n))
    };
    if i > 0 {
        let head = s.substring_char(0, i);
        let head_owned = head.to_owned();
        let ghost grest: Seq<Seq<char>> = rest.deep_view();
        let ghost grest_vec: Seq<String> = rest@;
        let mut r: Vec<String> = Vec::new();
        r.push(head_owned);
        let mut tail = rest;
        r.append(&mut tail);
        proof {
            reveal_with_fuel(seg_split, 2);
            let gi = i as int;
            let grest_chars = if gi == s@.len() {
                Seq::<char>::empty()
            } else {
                s@.subrange(gi + 1, s@.len() as int)
            };
            assert(grest =~~= seg_split(grest_chars));
            assert(seg_split(s@) == seq![s@.subrange(0, gi)] + seg_split(grest_chars));
            assert(r@ =~= seq![head_owned] + grest_vec);
            assert forall|k: int| 0 <= k < r.deep_view().len() implies r.deep_view()[k]
                == seg_split(s@)[k] by {
                assert(r.deep_view()[k] == r@[k].deep_view());
                if k == 0 {
                    assert(seg_split(s@)[0] == s@.subrange(0, i as int));
                } else {
                    assert(r@[k] == grest_vec[k - 1]);
                    assert(grest[k - 1] == grest_vec[k - 1].deep_view());
                    assert(seg_split(s@)[k] == grest[k - 1]);
                }
            }
            assert(r.deep_view() =~~= seg_split(s@));
        }
        r
    } else {
        proof {
            assert(rest.deep_view() =~~= seg_split(s@));
        }
        rest
    }
}

} // verus!
