//! The stock screen's decisions: which entries it lists, in which order,
//! which entry a form is open for, and what a submitted form asks of the
//! stock.
use vstd::prelude::*;
use crate::stock_state::{Entry, StockActions, entries_view};
use crate::text::{
    chars_of, contains_chars, contains_text, lex_less, lex_lt, parse_i64_chars, parse_signed,
    push_str, lemma_filter_positions, string_of, strings_view, IntErrorKind, lemma_lex_asymmetric,
    lemma_lex_transitive,
};

verus! {

/// Which form of the stock list is open: adding to an entry, changing an
/// entry, or none.
#[derive(PartialEq, Eq, Clone, Debug)]
pub enum Selected {
    Add(String),
    Change(String),
    Nothing,
}

impl Selected {
    /// The entry a form is open for.
    pub fn value(&self) -> (res: Option<&String>)
        ensures
            match self {
                Selected::Add(a) => res == Some(a),
                Selected::Change(a) => res == Some(a),
                Selected::Nothing => res is None,
            },
    {
        match self {
            Selected::Add(a) => Some(a),
            Selected::Change(a) => Some(a),
            Selected::Nothing => None,
        }
    }

    /// No form open (`Default`).
    pub fn default() -> (res: Selected)
        ensures
            res == Selected::Nothing,
    {
        Selected::Nothing
    }
}

/// Where `x` goes among `s` in name order: after every entry whose name is
/// not after it.
pub open spec fn name_pos(s: Seq<(Seq<char>, u64)>, x: (Seq<char>, u64)) -> int
    decreases s.len(),
{
    if s.len() == 0 {
        0
    } else if !lex_lt(x.0, s[0].0) {
        1 + name_pos(s.drop_first(), x)
    } else {
        0
    }
}

/// The entries in name order (entries of the same name keep their order).
pub open spec fn by_name(s: Seq<(Seq<char>, u64)>) -> Seq<(Seq<char>, u64)>
    decreases s.len(),
{
    if s.len() == 0 {
        Seq::empty()
    } else {
        let r = by_name(s.drop_last());
        r.insert(name_pos(r, s.last()), s.last())
    }
}

/// Names never go down along the sequence.
pub open spec fn name_sorted(s: Seq<(Seq<char>, u64)>) -> bool {
    forall|i: int, j: int| 0 <= i < j < s.len() ==> !lex_lt(s[j].0, s[i].0)
}

/// What the stock screen lists: the entries in name order, only those whose
/// name contains the search text when there is one.
pub open spec fn listed(entries: Seq<(Seq<char>, u64)>, filter: Seq<char>) -> Seq<(Seq<char>, u64)> {
    let sorted = by_name(entries);
    if filter.len() == 0 {
        sorted
    } else {
        sorted.filter(|e: (Seq<char>, u64)| contains_text(e.0, filter))
    }
}

proof fn lemma_name_pos(s: Seq<(Seq<char>, u64)>, x: (Seq<char>, u64))
    ensures
        0 <= name_pos(s, x) <= s.len(),
        forall|i: int| 0 <= i < name_pos(s, x) ==> !lex_lt(x.0, #[trigger] s[i].0),
        name_pos(s, x) < s.len() ==> lex_lt(x.0, s[name_pos(s, x)].0),
    decreases s.len(),
{
    if s.len() > 0 && !lex_lt(x.0, s[0].0) {
        lemma_name_pos(s.drop_first(), x);
        assert forall|i: int| 0 <= i < name_pos(s, x) implies !lex_lt(x.0, #[trigger] s[i].0) by {
            if i > 0 {
                assert(s[i] == s.drop_first()[i - 1]);
            }
        }
    }
}

/// The entries the stock screen lists (see `listed`).
pub fn listed_stock(entries: &Vec<Entry>, filter: &str) -> (res: Vec<Entry>)
    ensures
        entries_view(res@) == listed(entries_view(entries@), filter@),
{
    let ghost s = entries_view(entries@);
    let mut sorted: Vec<Entry> = Vec::new();
    assert(s.take(0) =~= Seq::<(Seq<char>, u64)>::empty());
    assert(entries_view(sorted@) =~= by_name(s.take(0)));
    for k in 0..entries.len()
        invariant
            s == entries_view(entries@),
            entries_view(sorted@) == by_name(s.take(k as int)),
    {
        let x = (entries[k].0.clone(), entries[k].1);
        assert((x.0@, x.1) == s[k as int]);
        let xc = chars_of(x.0.as_str());
        let ghost r = entries_view(sorted@);
        proof {
            lemma_name_pos(r, s[k as int]);
        }
        let mut p: usize = 0;
        assert(r.skip(0) =~= r);
        while p < sorted.len() && !lex_less(&xc, &chars_of(sorted[p].0.as_str()))
            invariant
                0 <= p <= sorted.len(),
                r == entries_view(sorted@),
                (x.0@, x.1) == s[k as int],
                xc@ == x.0@,
                name_pos(r, s[k as int]) == p + name_pos(r.skip(p as int), s[k as int]),
            decreases sorted.len() - p,
        {
            assert(r.skip(p as int)[0] == r[p as int]);
            assert(r.skip(p as int).drop_first() =~= r.skip(p + 1));
            p += 1;
        }
        proof {
            if p < sorted.len() {
                assert(r.skip(p as int)[0] == r[p as int]);
            }
            assert(name_pos(r.skip(p as int), s[k as int]) == 0);
        }
        sorted.insert(p, x);
        assert(s.take(k + 1).drop_last() =~= s.take(k as int));
        assert(s.take(k + 1).last() == s[k as int]);
        assert(entries_view(sorted@) =~= r.insert(p as int, s[k as int]));
    }
    assert(s.take(entries.len() as int) =~= s);
    if filter.is_empty() {
        return sorted;
    }
    let f = chars_of(filter);
    let ghost t = entries_view(sorted@);
    let ghost keep = |e: (Seq<char>, u64)| contains_text(e.0, filter@);
    let mut res: Vec<Entry> = Vec::new();
    assert(t.take(0) =~= Seq::<(Seq<char>, u64)>::empty());
    assert(entries_view(res@) =~= Seq::<(Seq<char>, u64)>::empty());
    for k in 0..sorted.len()
        invariant
            t == entries_view(sorted@),
            f@ == filter@,
            keep == (|e: (Seq<char>, u64)| contains_text(e.0, filter@)),
            entries_view(res@) == t.take(k as int).filter(keep),
    {
        assert(t.take(k + 1).drop_last() =~= t.take(k as int));
        assert(t.take(k + 1).last() == t[k as int]);
        reveal_with_fuel(Seq::<(Seq<char>, u64)>::filter, 1);
        let name = chars_of(sorted[k].0.as_str());
        if contains_chars(&name, &f) {
            let ghost before = entries_view(res@);
            res.push((sorted[k].0.clone(), sorted[k].1));
            assert(entries_view(res@) =~= before.push(t[k as int]));
        }
    }
    assert(t.take(sorted.len() as int) =~= t);
    res
}

/// The listing is in name order.
pub proof fn law_listing_name_sorted(s: Seq<(Seq<char>, u64)>)
    ensures
        name_sorted(by_name(s)),
    decreases s.len(),
{
    if s.len() > 0 {
        let r = by_name(s.drop_last());
        let x = s.last();
        law_listing_name_sorted(s.drop_last());
        lemma_name_pos(r, x);
        let p = name_pos(r, x);
        let t = r.insert(p, x);
        assert forall|i: int, j: int| 0 <= i < j < t.len() implies !lex_lt(t[j].0, t[i].0) by {
            if j < p {
                assert(t[i] == r[i] && t[j] == r[j]);
            } else if j == p {
                assert(t[i] == r[i]);
            } else if i < p {
                assert(t[i] == r[i] && t[j] == r[j - 1]);
            } else if i == p {
                assert(t[j] == r[j - 1]);
                lemma_lex_asymmetric(x.0, r[p].0);
                lemma_lex_transitive(r[j - 1].0, x.0, r[p].0);
            } else {
                assert(t[i] == r[i - 1] && t[j] == r[j - 1]);
            }
        }
    }
}

/// The listing holds exactly the entries it was given.
pub proof fn law_listing_keeps_entries(s: Seq<(Seq<char>, u64)>)
    ensures
        by_name(s).to_multiset() == s.to_multiset(),
    decreases s.len(),
{
    if s.len() > 0 {
        let r = by_name(s.drop_last());
        let x = s.last();
        law_listing_keeps_entries(s.drop_last());
        lemma_name_pos(r, x);
        vstd::seq_lib::to_multiset_insert(r, name_pos(r, x), x);
        vstd::seq_lib::to_multiset_build(s.drop_last(), x);
        assert(s.drop_last().push(x) =~= s);
        assert(by_name(s).to_multiset() == r.to_multiset().insert(x));
        assert(s.to_multiset() == s.drop_last().to_multiset().insert(x));
    } else {
        assert(s =~= Seq::<(Seq<char>, u64)>::empty());
        assert(by_name(s) =~= Seq::<(Seq<char>, u64)>::empty());
    }
}

/// What submitting an open form asks: nothing when no form is open, an
/// invalid number (reported to the user) when the text is not an `i64`,
/// else setting the entry (never below zero) or adding to it.
pub open spec fn entry_request(selected: Selected, is_set: bool, text: Seq<char>) -> Option<
    Result<(Seq<char>, bool, int), IntErrorKind>,
> {
    match selected {
        Selected::Nothing => None,
        Selected::Add(a) | Selected::Change(a) => match parse_signed(text, i64::MIN as int, i64::MAX as int) {
            Err(k) => Some(Err(k)),
            Ok(q) => Some(Ok((a@, is_set, if is_set && q < 0 { 0 } else { q }))),
        },
    }
}

/// The action a submitted form asks for, as `(name, is_set, quantity)`.
pub open spec fn action_request(a: StockActions) -> Option<(Seq<char>, bool, int)> {
    match a {
        StockActions::SetValue(n, q) => Some((n@, true, q as int)),
        StockActions::Add(n, q) => Some((n@, false, q as int)),
        _ => None,
    }
}

/// The stock action a submitted form asks for (see `entry_request`).
pub fn stock_entry(selected: &Selected, is_set: bool, text: &str) -> (res: Option<Result<StockActions, IntErrorKind>>)
    ensures
        match entry_request(*selected, is_set, text@) {
            None => res is None,
            Some(Err(k)) => res == Some(Err::<StockActions, IntErrorKind>(k)),
            Some(Ok(r)) => res matches Some(Ok(a)) && action_request(a) == Some(r),
        },
{
    let sel = match selected {
        Selected::Add(a) => a.clone(),
        Selected::Change(a) => a.clone(),
        Selected::Nothing => return None,
    };
    let t = chars_of(text);
    match parse_i64_chars(&t) {
        Err(k) => Some(Err(k)),
        Ok(q) => {
            if is_set {
                Some(Ok(StockActions::SetValue(sel, if q < 0 { 0 } else { q as u64 })))
            } else {
                Some(Ok(StockActions::Add(sel, q)))
            }
        },
    }
}

/// `(name)`: the stock name of a group value.
pub open spec fn group_stock_name(v: Seq<char>) -> Seq<char> {
    seq!['('] + v + seq![')']
}

/// The stock names for each value of a group, in order.
pub fn group_stock_names(values: &Vec<String>) -> (res: Vec<String>)
    ensures
        strings_view(res@) == Seq::new(values@.len(), |i: int| group_stock_name(values@[i]@)),
{
    let mut res: Vec<String> = Vec::new();
    let ghost want = Seq::new(values@.len(), |i: int| group_stock_name(values@[i]@));
    for k in 0..values.len()
        invariant
            want == Seq::new(values@.len(), |i: int| group_stock_name(values@[i]@)),
            strings_view(res@) == want.take(k as int),
    {
        let mut c: Vec<char> = Vec::new();
        c.push('(');
        push_str(&mut c, values[k].as_str());
        c.push(')');
        assert(c@ =~= group_stock_name(values@[k as int]@));
        let ghost before = strings_view(res@);
        let item = string_of(&c);
        res.push(item);
        assert(strings_view(res@) =~= before.push(c@));
        assert(want.take(k + 1) =~= want.take(k as int).push(want[k as int]));
    }
    assert(want.take(values.len() as int) =~= want);
    res
}

/// The stock screen lists the entries in name order. With no search text it
/// lists them all; with one, it lists exactly the entries whose name holds
/// the text at some position: the `k`-th listed entry is entry `f[k]` of
/// the entries in name order, the positions `f` increase, and an entry is
/// among them exactly when its name holds the text.
pub proof fn law_listing_filters_by_text(entries: Seq<(Seq<char>, u64)>, filter: Seq<char>) -> (f: Seq<int>)
    ensures
        name_sorted(listed(entries, filter)),
        by_name(entries).to_multiset() == entries.to_multiset(),
        filter.len() == 0 ==> listed(entries, filter) == by_name(entries),
        filter.len() > 0 ==> {
            let s = by_name(entries);
            let r = listed(entries, filter);
            &&& f.len() == r.len()
            &&& forall|k: int| 0 <= k < f.len() ==> 0 <= #[trigger] f[k] < s.len() && r[k] == s[f[k]]
            &&& forall|k1: int, k2: int| 0 <= k1 < k2 < f.len() ==> f[k1] < f[k2]
            &&& forall|t: int| 0 <= t < s.len() ==> (contains_text(#[trigger] s[t].0, filter) <==> exists|k: int|
                0 <= k < f.len() && f[k] == t)
        },
{
    let s = by_name(entries);
    let p = |e: (Seq<char>, u64)| contains_text(e.0, filter);
    let f = lemma_filter_positions(s, p);
    law_listing_name_sorted(entries);
    law_listing_keeps_entries(entries);
    if filter.len() > 0 {
        let r = listed(entries, filter);
        assert forall|t: int| 0 <= t < s.len() implies (contains_text(#[trigger] s[t].0, filter) <==> exists|k: int|
            0 <= k < f.len() && f[k] == t) by {
            if exists|k: int| 0 <= k < f.len() && f[k] == t {
                let k = choose|k: int| 0 <= k < f.len() && f[k] == t;
                assert(p(s[f[k]]));
            }
            if contains_text(s[t].0, filter) {
                assert(p(s[t]));
            }
        }
        assert forall|i: int, j: int| 0 <= i < j < r.len() implies !lex_lt(r[j].0, r[i].0) by {
            assert(f[i] < f[j]);
            assert(r[i] == s[f[i]] && r[j] == s[f[j]]);
        }
    }
    f
}

} // verus!
