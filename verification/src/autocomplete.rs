//! The suggestions under a text field: which completions match what was
//! typed, which one is highlighted, and how tall the list is.
use vstd::prelude::*;
use crate::text::{chars_of, contains_chars, contains_text, lemma_filter_positions, strings_view, trim, trim_chars};

verus! {

/// The completions that contain the typed text (trimmed), in order; none
/// while nothing is typed.
pub open spec fn matching(complete: Seq<Seq<char>>, value: Seq<char>) -> Seq<Seq<char>> {
    if value.len() == 0 {
        Seq::empty()
    } else {
        complete.filter(|c: Seq<char>| contains_text(c, trim(value)))
    }
}

/// The completions that match what was typed (see `matching`).
pub fn candidates(complete: &Vec<String>, value: &str) -> (res: Vec<String>)
    ensures
        strings_view(res@) == matching(strings_view(complete@), value@),
{
    let mut res: Vec<String> = Vec::new();
    if value.is_empty() {
        assert(strings_view(res@) =~= Seq::<Seq<char>>::empty());
        return res;
    }
    let t = trim_chars(&chars_of(value));
    let ghost cv = strings_view(complete@);
    let ghost keep = |c: Seq<char>| contains_text(c, trim(value@));
    assert(cv.take(0) =~= Seq::<Seq<char>>::empty());
    assert(strings_view(res@) =~= Seq::<Seq<char>>::empty());
    for k in 0..complete.len()
        invariant
            cv == strings_view(complete@),
            t@ == trim(value@),
            keep == (|c: Seq<char>| contains_text(c, trim(value@))),
            strings_view(res@) == cv.take(k as int).filter(keep),
    {
        assert(cv.take(k + 1).drop_last() =~= cv.take(k as int));
        assert(cv.take(k + 1).last() == complete@[k as int]@);
        reveal_with_fuel(Seq::<Seq<char>>::filter, 1);
        if contains_chars(&chars_of(complete[k].as_str()), &t) {
            let ghost before = strings_view(res@);
            let item = complete[k].clone();
            res.push(item);
            assert(strings_view(res@) =~= before.push(complete@[k as int]@));
        }
    }
    assert(cv.take(complete.len() as int) =~= cv);
    res
}

/// The highlighted suggestion: the chosen one, held within the list.
pub fn highlighted(selected: usize, len: usize) -> (res: usize)
    ensures
        len == 0 ==> res == 0,
        len > 0 ==> res == if selected < len - 1 { selected } else { (len - 1) as usize },
{
    if len > 0 {
        if selected < len - 1 { selected } else { len - 1 }
    } else {
        0
    }
}

/// The suggestion highlighted after pressing the down arrow.
pub fn next_highlight(current: usize, len: usize) -> (res: usize)
    requires
        len > 0,
        current < len,
    ensures
        res as int == if current + 1 < len - 1 { current + 1 } else { len - 1 },
{
    if current + 1 < len - 1 { current + 1 } else { len - 1 }
}

/// The suggestion highlighted after pressing the up arrow.
pub fn previous_highlight(current: usize) -> (res: usize)
    ensures
        res == if current > 1 { current - 1 } else { 0 },
{
    let m = if current > 1 { current } else { 1 };
    m - 1
}

/// The height in pixels of a list of `len` suggestions.
pub fn suggestions_height(len: usize) -> (res: usize)
    requires
        25 + len * 70 <= usize::MAX,
    ensures
        res == if 25 + len * 70 < 300 { 25 + len * 70 } else { 300 },
{
    let h = 25 + len * 70;
    if h < 300 { h } else { 300 }
}

/// With nothing typed there are no candidates. With text typed, the
/// candidates are exactly the completions in which the trimmed text occurs
/// at some position, in the completions' order: the `k`-th candidate is
/// completion `f[k]`, the positions `f` increase, and a completion is among
/// them exactly when it holds the text.
pub proof fn law_candidates_hold_the_text(complete: Seq<Seq<char>>, value: Seq<char>) -> (f: Seq<int>)
    ensures
        value.len() == 0 ==> matching(complete, value).len() == 0,
        value.len() > 0 ==> {
            let r = matching(complete, value);
            &&& f.len() == r.len()
            &&& forall|k: int| 0 <= k < f.len() ==> 0 <= #[trigger] f[k] < complete.len() && r[k] == complete[f[k]]
            &&& forall|k1: int, k2: int| 0 <= k1 < k2 < f.len() ==> f[k1] < f[k2]
            &&& forall|t: int| 0 <= t < complete.len() ==> (contains_text(#[trigger] complete[t], trim(value))
                <==> exists|k: int| 0 <= k < f.len() && f[k] == t)
        },
{
    let p = |c: Seq<char>| contains_text(c, trim(value));
    let f = lemma_filter_positions(complete, p);
    if value.len() > 0 {
        assert forall|t: int| 0 <= t < complete.len() implies (contains_text(#[trigger] complete[t], trim(value))
            <==> exists|k: int| 0 <= k < f.len() && f[k] == t) by {
            if exists|k: int| 0 <= k < f.len() && f[k] == t {
                let k = choose|k: int| 0 <= k < f.len() && f[k] == t;
                assert(p(complete[f[k]]));
            }
            if contains_text(complete[t], trim(value)) {
                assert(p(complete[t]));
            }
        }
    }
    f
}

} // verus!
