//! The stock screen's state: how many units of each product are left, how a
//! product name finds its stock entry, and how each action changes the stock.
use vstd::prelude::*;
use crate::text::{chars_of, same_chars, slice, split, split_chars, string_of, trim, trim_chars};

verus! {

/// One stock entry: the product's name and its quantity.
pub type Entry = (String, u64);

/// The entries as text and quantity.
pub open spec fn entries_view(v: Seq<Entry>) -> Seq<(Seq<char>, u64)> {
    Seq::new(v.len(), |i: int| (v[i].0@, v[i].1))
}

/// No name occurs twice.
pub open spec fn unique_keys(e: Seq<(Seq<char>, u64)>) -> bool {
    forall|i: int, j: int| 0 <= i < e.len() && 0 <= j < e.len() && i != j ==> e[i].0 != e[j].0
}

/// The index of the entry named `k`, searched from the end.
pub open spec fn find(e: Seq<(Seq<char>, u64)>, k: Seq<char>) -> Option<int>
    decreases e.len(),
{
    if e.len() == 0 {
        None
    } else if e.last().0 == k {
        Some(e.len() - 1)
    } else {
        find(e.drop_last(), k)
    }
}

/// The stock as a map from name to quantity.
pub open spec fn as_map(e: Seq<(Seq<char>, u64)>) -> Map<Seq<char>, u64> {
    Map::new(|k: Seq<char>| find(e, k) is Some, |k: Seq<char>| e[find(e, k)->0].1)
}

/// `a` without one closing parenthesis at its end.
pub open spec fn strip_close(a: Seq<char>) -> Seq<char> {
    if a.len() > 0 && a.last() == ')' {
        a.drop_last()
    } else {
        a
    }
}

/// For a name of the form `product(variant)`, the trimmed variant.
pub open spec fn variant_of(k: Seq<char>) -> Option<Seq<char>> {
    let sp = split(k, '(');
    if sp.len() == 2 {
        Some(strip_close(trim(sp[1])))
    } else {
        None
    }
}

/// The index of the last entry whose variant is `last`.
pub open spec fn last_with_variant(e: Seq<(Seq<char>, u64)>, last: Seq<char>) -> Option<int>
    decreases e.len(),
{
    if e.len() == 0 {
        None
    } else if variant_of(e.last().0) == Some(last) {
        Some(e.len() - 1)
    } else {
        last_with_variant(e.drop_last(), last)
    }
}

/// `(variant)`: the name of the stock shared by every product of a variant.
pub open spec fn shared_name(last: Seq<char>) -> Seq<char> {
    seq!['('] + last + seq![')']
}

/// Which entry a product name draws from. A plain name is looked up as it
/// is. A name `product(variant)` uses its own entry when there is one, else
/// the entry `(variant)`; failing both, a name with nothing before the
/// parenthesis uses the last entry of that variant, and any other name has
/// no entry.
pub open spec fn resolve(e: Seq<(Seq<char>, u64)>, name: Seq<char>) -> Option<int> {
    let sp = split(name, '(');
    if sp.len() != 2 {
        find(e, name)
    } else {
        let first = trim(sp[0]);
        let last = strip_close(trim(sp[1]));
        if find(e, name) is Some {
            find(e, name)
        } else if find(e, shared_name(last)) is Some {
            find(e, shared_name(last))
        } else if first.len() == 0 {
            last_with_variant(e, last)
        } else {
            None
        }
    }
}

/// The stock: names with their quantities, each name once.
#[derive(Clone, Debug)]
pub struct StockMap {
    entries: Vec<Entry>,
}

impl StockMap {
    /// The entries in the order the map keeps them.
    pub closed spec fn view_entries(&self) -> Seq<(Seq<char>, u64)> {
        entries_view(self.entries@)
    }

    pub open spec fn wf(&self) -> bool {
        unique_keys(self.view_entries())
    }

    /// An empty stock.
    pub fn new() -> (res: StockMap)
        ensures
            res.wf(),
            res.view_entries() == Seq::<(Seq<char>, u64)>::empty(),
    {
        let res = StockMap { entries: Vec::new() };
        assert(res.view_entries() =~= Seq::<(Seq<char>, u64)>::empty());
        res
    }

    /// The entries, for listing and saving.
    pub fn entries(&self) -> (res: &Vec<Entry>)
        ensures
            entries_view(res@) == self.view_entries(),
    {
        &self.entries
    }

    /// The quantity stored under exactly `key`.
    pub fn lookup(&self, key: &str) -> (res: Option<u64>)
        requires
            self.wf(),
        ensures
            res == (match find(self.view_entries(), key@) {
                Some(i) => Some(self.view_entries()[i].1),
                None => None,
            }),
    {
        proof {
            lemma_find_some(self.view_entries(), key@);
        }
        match self.find_index(key) {
            Some(i) => {
                assert(self.view_entries()[i as int] == (self.entries@[i as int].0@, self.entries@[i as int].1));
                Some(self.entries[i].1)
            },
            None => None,
        }
    }

    fn find_index(&self, key: &str) -> (res: Option<usize>)
        ensures
            res == (match find(self.view_entries(), key@) {
                Some(i) => Some(i as usize),
                None => None::<usize>,
            }),
            res matches Some(i) ==> i < self.entries.len() && self.view_entries()[i as int].0 == key@,
    {
        let k = key.to_owned();
        let mut j = self.entries.len();
        let ghost e = self.view_entries();
        proof {
            lemma_find_some(e, key@);
        }
        assert(e.take(j as int) =~= e);
        while j > 0
            invariant
                j <= self.entries.len(),
                e == self.view_entries(),
                k@ == key@,
                find(e, key@) == find(e.take(j as int), key@),
            decreases j,
        {
            assert(e.take(j as int).drop_last() =~= e.take(j - 1));
            assert(e.take(j as int).last() == e[j - 1]);
            if self.entries[j - 1].0 == k {
                return Some(j - 1);
            }
            j -= 1;
        }
        None
    }

    /// Sets the quantity of `key`, adding the entry when it is new
    /// (`HashMap::insert`).
    pub fn insert(&mut self, key: String, value: u64)
        requires
            old(self).wf(),
        ensures
            final(self).wf(),
            final(self).view_entries() == insert_entry(old(self).view_entries(), key@, value),
    {
        let ghost e = self.view_entries();
        match self.find_index(key.as_str()) {
            Some(i) => {
                self.entries.set(i, (key, value));
                assert(self.view_entries() =~= e.update(i as int, (key@, value)));
                proof {
                    lemma_find_some(e, key@);
                }
            },
            None => {
                let ghost k = key@;
                self.entries.push((key, value));
                assert(self.view_entries() =~= e.push((k, value)));
                proof {
                    lemma_find_none(e, k);
                }
            },
        }
    }

    /// Removes the entry `key`, if there is one.
    pub fn remove(&mut self, key: &str)
        requires
            old(self).wf(),
        ensures
            final(self).wf(),
            final(self).view_entries() == remove_entry(old(self).view_entries(), key@),
    {
        let ghost e = self.view_entries();
        proof {
            lemma_find_some(e, key@);
        }
        match self.find_index(key) {
            Some(i) => {
                self.entries.remove(i);
                assert(self.view_entries() =~= e.remove(i as int));
                assert(self.view_entries() == remove_entry(e, key@));
            },
            None => {
                assert(self.view_entries() == remove_entry(e, key@));
            },
        }
    }
}

impl StockMap {
    /// The variant of a name `product(variant)`.
    fn variant_chars(k: &str) -> (res: Option<Vec<char>>)
        ensures
            match res {
                Some(v) => variant_of(k@) == Some(v@),
                None => variant_of(k@) is None,
            },
    {
        let c = chars_of(k);
        let sp = split_chars(&c, '(');
        if sp.len() != 2 {
            return None;
        }
        assert(sp@[1]@ == split(k@, '(')[1]);
        let t = trim_chars(&sp[1]);
        Some(strip_close_chars(&t))
    }

    /// The index of the last entry whose variant is `last`.
    fn last_with_variant_index(&self, last: &Vec<char>) -> (res: Option<usize>)
        ensures
            res == (match last_with_variant(self.view_entries(), last@) {
                Some(i) => Some(i as usize),
                None => None::<usize>,
            }),
    {
        let ghost e = self.view_entries();
        proof {
            lemma_last_with_variant_bounds(e, last@);
        }
        let mut j = self.entries.len();
        assert(e.take(j as int) =~= e);
        while j > 0
            invariant
                j <= self.entries.len(),
                e == self.view_entries(),
                last_with_variant(e, last@) == last_with_variant(e.take(j as int), last@),
            decreases j,
        {
            assert(e.take(j as int).drop_last() =~= e.take(j - 1));
            assert(e.take(j as int).last() == e[j - 1]);
            assert(e[j - 1].0 == self.entries@[j - 1].0@);
            match Self::variant_chars(self.entries[j - 1].0.as_str()) {
                Some(v) => {
                    if same_chars(&v, last) {
                        return Some(j - 1);
                    }
                },
                None => {},
            }
            j -= 1;
        }
        None
    }

    /// The index of the entry a product name draws from (see `resolve`).
    fn resolve_index(&self, name: &str) -> (res: Option<usize>)
        ensures
            res == (match resolve(self.view_entries(), name@) {
                Some(i) => Some(i as usize),
                None => None::<usize>,
            }),
            res matches Some(i) ==> i < self.entries.len(),
    {
        let ghost e = self.view_entries();
        proof {
            lemma_resolve_bounds(e, name@);
        }
        let c = chars_of(name);
        let sp = split_chars(&c, '(');
        if sp.len() != 2 {
            return self.find_index(name);
        }
        assert(sp@[0]@ == split(name@, '(')[0]);
        assert(sp@[1]@ == split(name@, '(')[1]);
        let first = trim_chars(&sp[0]);
        let t = trim_chars(&sp[1]);
        let last = strip_close_chars(&t);
        match self.find_index(name) {
            Some(i) => return Some(i),
            None => {},
        }
        let mut shared: Vec<char> = Vec::new();
        shared.push('(');
        crate::text::extend(&mut shared, &last);
        shared.push(')');
        assert(shared@ =~= shared_name(last@));
        let shared_name_str = string_of(&shared);
        match self.find_index(shared_name_str.as_str()) {
            Some(i) => return Some(i),
            None => {},
        }
        if first.len() == 0 {
            self.last_with_variant_index(&last)
        } else {
            None
        }
    }
}

/// Every prefix of a list whose subtractions fit fits too.
proof fn lemma_sub_all_fits_prefix(e: Seq<(Seq<char>, u64)>, vs: Seq<(Seq<char>, i64)>)
    requires
        sub_all_fits(e, vs),
    ensures
        forall|j: int| 0 <= j <= vs.len() ==> sub_all_fits(e, #[trigger] vs.take(j)),
    decreases vs.len(),
{
    if vs.len() > 0 {
        lemma_sub_all_fits_prefix(e, vs.drop_last());
        assert forall|j: int| 0 <= j <= vs.len() implies sub_all_fits(e, #[trigger] vs.take(j)) by {
            if j < vs.len() {
                assert(vs.take(j) =~= vs.drop_last().take(j));
            } else {
                assert(vs.take(j) =~= vs);
            }
        }
    } else {
        assert forall|j: int| 0 <= j <= vs.len() implies sub_all_fits(e, #[trigger] vs.take(j)) by {
            assert(vs.take(j) =~= vs);
        }
    }
}

/// Changing a quantity keeps the names.
proof fn lemma_with_quantity_keys(e: Seq<(Seq<char>, u64)>, i: int)
    requires
        0 <= i < e.len(),
        unique_keys(e),
    ensures
        forall|q: u64| #[trigger] unique_keys(with_quantity(e, i, q)),
{
    assert forall|q: u64| #[trigger] unique_keys(with_quantity(e, i, q)) by {
        let f = with_quantity(e, i, q);
        assert forall|a: int, b: int| 0 <= a < f.len() && 0 <= b < f.len() && a != b implies f[a].0 != f[b].0 by {
            assert(f[a].0 == e[a].0);
            assert(f[b].0 == e[b].0);
        }
    }
}

/// `a` without one closing parenthesis at its end.
fn strip_close_chars(a: &Vec<char>) -> (res: Vec<char>)
    ensures
        res@ == strip_close(a@),
{
    if a.len() > 0 && a[a.len() - 1] == ')' {
        slice(a, 0, a.len() - 1)
    } else {
        slice(a, 0, a.len())
    }
}

proof fn lemma_last_with_variant_bounds(e: Seq<(Seq<char>, u64)>, last: Seq<char>)
    ensures
        last_with_variant(e, last) matches Some(i) ==> 0 <= i < e.len(),
    decreases e.len(),
{
    if e.len() > 0 {
        lemma_last_with_variant_bounds(e.drop_last(), last);
    }
}

proof fn lemma_resolve_bounds(e: Seq<(Seq<char>, u64)>, name: Seq<char>)
    ensures
        resolve(e, name) matches Some(i) ==> 0 <= i < e.len(),
{
    lemma_find_some(e, name);
    let sp = split(name, '(');
    if sp.len() == 2 {
        let last = strip_close(trim(sp[1]));
        lemma_find_some(e, shared_name(last));
        lemma_last_with_variant_bounds(e, last);
    }
}

/// `e` with `k` set to `v`.
pub open spec fn insert_entry(e: Seq<(Seq<char>, u64)>, k: Seq<char>, v: u64) -> Seq<(Seq<char>, u64)> {
    match find(e, k) {
        Some(i) => e.update(i, (k, v)),
        None => e.push((k, v)),
    }
}

/// `e` without the entry `k`.
pub open spec fn remove_entry(e: Seq<(Seq<char>, u64)>, k: Seq<char>) -> Seq<(Seq<char>, u64)> {
    match find(e, k) {
        Some(i) => e.remove(i),
        None => e,
    }
}

proof fn lemma_find_some(e: Seq<(Seq<char>, u64)>, k: Seq<char>)
    ensures
        find(e, k) matches Some(i) ==> 0 <= i < e.len() && e[i].0 == k,
        find(e, k) is None ==> forall|i: int| 0 <= i < e.len() ==> e[i].0 != k,
    decreases e.len(),
{
    if e.len() > 0 {
        lemma_find_some(e.drop_last(), k);
        if find(e, k) is None {
            assert forall|i: int| 0 <= i < e.len() implies e[i].0 != k by {
                if i < e.len() - 1 {
                    assert(e.drop_last()[i] == e[i]);
                }
            }
        }
    }
}

proof fn lemma_find_none(e: Seq<(Seq<char>, u64)>, k: Seq<char>)
    ensures
        find(e, k) is None ==> forall|i: int| 0 <= i < e.len() ==> e[i].0 != k,
{
    lemma_find_some(e, k);
}

/// `e` with the quantity of entry `i` replaced by `q`.
pub open spec fn with_quantity(e: Seq<(Seq<char>, u64)>, i: int, q: u64) -> Seq<(Seq<char>, u64)> {
    e.update(i, (e[i].0, q))
}

/// `old + value`, read as signed numbers, no lower than zero.
pub open spec fn added(old: u64, value: i64) -> u64 {
    let r = (old as i64) + value;
    if r < 0 { 0 } else { r as u64 }
}

/// `old - value`, read as signed numbers, no lower than zero.
pub open spec fn subtracted(old: u64, value: i64) -> u64 {
    let r = (old as i64) - value;
    if r < 0 { 0 } else { r as u64 }
}

/// The signed sum stays within `i64`.
pub open spec fn add_fits(old: u64, value: i64) -> bool {
    i64::MIN <= (old as i64) + value <= i64::MAX
}

/// The signed difference stays within `i64`.
pub open spec fn sub_fits(old: u64, value: i64) -> bool {
    i64::MIN <= (old as i64) - value <= i64::MAX
}

/// Adds `value` to the entry that `name` draws from, if any.
pub open spec fn add_to(e: Seq<(Seq<char>, u64)>, name: Seq<char>, value: i64) -> Seq<(Seq<char>, u64)> {
    match resolve(e, name) {
        Some(i) => with_quantity(e, i, added(e[i].1, value)),
        None => e,
    }
}

/// Takes `value` from the entry that `name` draws from, if any.
pub open spec fn sub_from(e: Seq<(Seq<char>, u64)>, name: Seq<char>, value: i64) -> Seq<(Seq<char>, u64)> {
    match resolve(e, name) {
        Some(i) => with_quantity(e, i, subtracted(e[i].1, value)),
        None => e,
    }
}

/// Sets the entry that `name` draws from, if any.
pub open spec fn set_quantity(e: Seq<(Seq<char>, u64)>, name: Seq<char>, q: u64) -> Seq<(Seq<char>, u64)> {
    match resolve(e, name) {
        Some(i) => with_quantity(e, i, q),
        None => e,
    }
}

/// Takes each quantity from its entry, in order.
pub open spec fn sub_all(e: Seq<(Seq<char>, u64)>, vs: Seq<(Seq<char>, i64)>) -> Seq<(Seq<char>, u64)>
    decreases vs.len(),
{
    if vs.len() == 0 {
        e
    } else {
        sub_from(sub_all(e, vs.drop_last()), vs.last().0, vs.last().1)
    }
}

/// No subtraction of `sub_all` leaves `i64`.
pub open spec fn sub_all_fits(e: Seq<(Seq<char>, u64)>, vs: Seq<(Seq<char>, i64)>) -> bool
    decreases vs.len(),
{
    if vs.len() == 0 {
        true
    } else {
        let p = sub_all(e, vs.drop_last());
        &&& sub_all_fits(e, vs.drop_last())
        &&& match resolve(p, vs.last().0) {
            Some(i) => sub_fits(p[i].1, vs.last().1),
            None => true,
        }
    }
}

/// Adds each name that draws from no entry, with quantity zero, in order.
pub open spec fn create_all(e: Seq<(Seq<char>, u64)>, names: Seq<Seq<char>>) -> Seq<(Seq<char>, u64)>
    decreases names.len(),
{
    if names.len() == 0 {
        e
    } else {
        let p = create_all(e, names.drop_last());
        if resolve(p, names.last()) is None {
            insert_entry(p, names.last(), 0)
        } else {
            p
        }
    }
}

/// The stock holding the pairs, a later pair overriding an earlier one.
pub open spec fn from_pairs(ps: Seq<(Seq<char>, u64)>) -> Seq<(Seq<char>, u64)>
    decreases ps.len(),
{
    if ps.len() == 0 {
        Seq::empty()
    } else {
        insert_entry(from_pairs(ps.drop_last()), ps.last().0, ps.last().1)
    }
}

/// What the stock screen asks of the stock.
#[derive(Clone, Debug)]
pub enum StockActions {
    /// Adds to a product's stock (never below zero).
    Add(String, i64),
    /// Takes the sold quantities from their products.
    SubVec(Vec<(String, i64)>),
    /// Sets a product's stock.
    SetValue(String, u64),
    /// Adds a product (its name trimmed) when its name draws from no entry.
    Create(String, u64),
    /// Adds each product that draws from no entry, with zero units.
    CreateVec(Vec<String>),
    /// Replaces the whole stock.
    SetStock(Vec<(String, u64)>),
    /// Removes the entry of exactly this name.
    Remove(String),
}

pub open spec fn signed_pairs(v: Seq<(String, i64)>) -> Seq<(Seq<char>, i64)> {
    Seq::new(v.len(), |i: int| (v[i].0@, v[i].1))
}

pub open spec fn names_view(v: Seq<String>) -> Seq<Seq<char>> {
    Seq::new(v.len(), |i: int| v[i]@)
}

/// The stock after an action.
pub open spec fn next_stock(e: Seq<(Seq<char>, u64)>, a: StockActions) -> Seq<(Seq<char>, u64)> {
    match a {
        StockActions::Add(name, value) => add_to(e, name@, value),
        StockActions::SubVec(values) => sub_all(e, signed_pairs(values@)),
        StockActions::SetValue(name, q) => set_quantity(e, name@, q),
        StockActions::Create(name, q) => if resolve(e, name@) is None {
            insert_entry(e, trim(name@), q)
        } else {
            e
        },
        StockActions::CreateVec(names) => create_all(e, names_view(names@)),
        StockActions::SetStock(pairs) => from_pairs(entries_view(pairs@)),
        StockActions::Remove(name) => remove_entry(e, name@),
    }
}

/// The action's arithmetic stays within `i64` (it would overflow otherwise).
pub open spec fn action_fits(e: Seq<(Seq<char>, u64)>, a: StockActions) -> bool {
    match a {
        StockActions::Add(name, value) => match resolve(e, name@) {
            Some(i) => add_fits(e[i].1, value),
            None => true,
        },
        StockActions::SubVec(values) => sub_all_fits(e, signed_pairs(values@)),
        _ => true,
    }
}

/// The stock screen's state.
#[derive(Clone, Debug)]
pub struct StockState {
    pub stock: StockMap,
}

impl StockState {
    /// An empty stock.
    pub fn default() -> (res: StockState)
        ensures
            res.stock.wf(),
            res.stock.view_entries() == Seq::<(Seq<char>, u64)>::empty(),
    {
        StockState { stock: StockMap::new() }
    }

    /// The quantity that `name` draws from (see `resolve`).
    pub fn get<'a>(stock: &'a StockMap, name: &str) -> (res: Option<&'a u64>)
        ensures
            match resolve(stock.view_entries(), name@) {
                Some(i) => res == Some(&stock.view_entries()[i].1),
                None => res is None,
            },
    {
        proof {
            lemma_resolve_bounds(stock.view_entries(), name@);
        }
        match stock.resolve_index(name) {
            Some(i) => {
                assert(stock.view_entries()[i as int].1 == stock.entries@[i as int].1);
                Some(&stock.entries[i].1)
            },
            None => None,
        }
    }

    /// The quantity that `name` draws from, to be changed in place.
    pub fn get_mut<'a>(stock: &'a mut StockMap, name: &str) -> (res: Option<&'a mut u64>)
        requires
            old(stock).wf(),
        ensures
            match resolve(old(stock).view_entries(), name@) {
                Some(i) => res matches Some(r) && *r == old(stock).view_entries()[i].1
                    && final(stock).view_entries() == with_quantity(
                    old(stock).view_entries(),
                    i,
                    *final(r),
                ),
                None => res is None && final(stock).view_entries() == old(stock).view_entries(),
            },
            final(stock).wf(),
    {
        let ghost e = stock.view_entries();
        proof {
            lemma_resolve_bounds(e, name@);
        }
        match stock.resolve_index(name) {
            Some(i) => {
                assert(e[i as int].1 == stock.entries@[i as int].1);
                proof {
                    lemma_with_quantity_keys(e, i as int);
                }
                Some(&mut stock.entries[i].1)
            },
            None => None,
        }
    }

    /// Takes each sold quantity from its entry, in order; `false` (with the
    /// stock left in some state) when a subtraction leaves `i64`.
    fn sub_vec(stock: &mut StockMap, values: &Vec<(String, i64)>) -> (ok: bool)
        requires
            old(stock).wf(),
        ensures
            final(stock).wf(),
            ok == sub_all_fits(old(stock).view_entries(), signed_pairs(values@)),
            ok ==> final(stock).view_entries() == sub_all(old(stock).view_entries(), signed_pairs(values@)),
    {
        let ghost e0 = stock.view_entries();
        let ghost vs = signed_pairs(values@);
        assert(vs.take(0) =~= Seq::<(Seq<char>, i64)>::empty());
        for k in 0..values.len()
            invariant
                vs == signed_pairs(values@),
                e0 == old(stock).view_entries(),
                stock.wf(),
                stock.view_entries() == sub_all(e0, vs.take(k as int)),
                sub_all_fits(e0, vs.take(k as int)),
        {
            assert(vs.take(k + 1).drop_last() =~= vs.take(k as int));
            assert(vs.take(k + 1).last() == vs[k as int]);
            let pair = &values[k];
            assert(pair.0@ == vs[k as int].0 && pair.1 == vs[k as int].1);
            let ghost before = stock.view_entries();
            proof {
                lemma_resolve_bounds(before, pair.0@);
            }
            if let Some(a) = Self::get_mut(stock, pair.0.as_str()) {
                let r = (*a as i64) as i128 - pair.1 as i128;
                if r < i64::MIN as i128 || r > i64::MAX as i128 {
                    proof {
                        let i = resolve(before, pair.0@)->0;
                        assert(before[i].1 == *a);
                        assert(!sub_fits(before[i].1, pair.1));
                        assert(!sub_all_fits(e0, vs.take(k + 1)));
                        lemma_sub_all_fits_prefix_fails(e0, vs, k + 1);
                    }
                    return false;
                }
                *a = if r < 0 { 0 } else { r as u64 };
            }
        }
        assert(vs.take(values.len() as int) =~= vs);
        true
    }

    /// The state after an action whose arithmetic fits (see `action_fits`).
    pub fn reduce(self, action: StockActions) -> (res: StockState)
        requires
            self.stock.wf(),
            action_fits(self.stock.view_entries(), action),
        ensures
            res.stock.wf(),
            res.stock.view_entries() == next_stock(self.stock.view_entries(), action),
    {
        match self.try_reduce(action) {
            Some(s) => s,
            None => StockState::default(),
        }
    }

    /// The state after an action, or `None` when its arithmetic leaves
    /// `i64` (where the screen's integer arithmetic would overflow).
    pub fn try_reduce(self, action: StockActions) -> (res: Option<StockState>)
        requires
            self.stock.wf(),
        ensures
            res is Some <==> action_fits(self.stock.view_entries(), action),
            res matches Some(s) ==> s.stock.wf() && s.stock.view_entries() == next_stock(
                self.stock.view_entries(),
                action,
            ),
    {
        let ghost e0 = self.stock.view_entries();
        let ghost act = action;
        let mut new_state = self;
        match action {
            StockActions::Add(name, value) => {
                if let Some(a) = Self::get_mut(&mut new_state.stock, name.as_str()) {
                    let r = (*a as i64) as i128 + value as i128;
                    if r < i64::MIN as i128 || r > i64::MAX as i128 {
                        return None;
                    }
                    *a = if r < 0 { 0 } else { r as u64 };
                }
            },
            StockActions::SetValue(name, value) => {
                if let Some(a) = Self::get_mut(&mut new_state.stock, name.as_str()) {
                    *a = value;
                }
            },
            StockActions::SubVec(values) => {
                if !Self::sub_vec(&mut new_state.stock, &values) {
                    return None;
                }
            },
            StockActions::Create(name, value) => {
                if Self::get(&new_state.stock, name.as_str()).is_none() {
                    let c = chars_of(name.as_str());
                    let t = trim_chars(&c);
                    let key = string_of(&t);
                    new_state.stock.insert(key, value);
                }
            },
            StockActions::CreateVec(names) => {
                let ghost ns = names_view(names@);
                assert(ns.take(0) =~= Seq::<Seq<char>>::empty());
                for k in 0..names.len()
                    invariant
                        ns == names_view(names@),
                        new_state.stock.wf(),
                        new_state.stock.view_entries() == create_all(e0, ns.take(k as int)),
                {
                    assert(ns.take(k + 1).drop_last() =~= ns.take(k as int));
                    assert(ns.take(k + 1).last() == ns[k as int]);
                    if Self::get(&new_state.stock, names[k].as_str()).is_none() {
                        new_state.stock.insert(names[k].clone(), 0);
                    }
                }
                assert(ns.take(names.len() as int) =~= ns);
            },
            StockActions::SetStock(pairs) => {
                let ghost ps = entries_view(pairs@);
                let mut fresh = StockMap::new();
                assert(ps.take(0) =~= Seq::<(Seq<char>, u64)>::empty());
                for k in 0..pairs.len()
                    invariant
                        ps == entries_view(pairs@),
                        fresh.wf(),
                        fresh.view_entries() == from_pairs(ps.take(k as int)),
                {
                    assert(ps.take(k + 1).drop_last() =~= ps.take(k as int));
                    assert(ps.take(k + 1).last() == ps[k as int]);
                    fresh.insert(pairs[k].0.clone(), pairs[k].1);
                }
                assert(ps.take(pairs.len() as int) =~= ps);
                new_state.stock = fresh;
            },
            StockActions::Remove(name) => {
                new_state.stock.remove(name.as_str());
            },
        }
        Some(new_state)
    }
}

/// Once a prefix of the subtractions leaves `i64`, so does the whole list.
proof fn lemma_sub_all_fits_prefix_fails(e: Seq<(Seq<char>, u64)>, vs: Seq<(Seq<char>, i64)>, k: int)
    requires
        0 <= k <= vs.len(),
        !sub_all_fits(e, vs.take(k)),
    ensures
        !sub_all_fits(e, vs),
{
    if sub_all_fits(e, vs) {
        lemma_sub_all_fits_prefix(e, vs);
        assert(sub_all_fits(e, vs.take(k)));
    }
}

/// Two stocks with the same names in the same order.
pub open spec fn same_names(a: Seq<(Seq<char>, u64)>, b: Seq<(Seq<char>, u64)>) -> bool {
    a.len() == b.len() && forall|i: int| 0 <= i < a.len() ==> a[i].0 == b[i].0
}

proof fn lemma_same_names_resolve(a: Seq<(Seq<char>, u64)>, b: Seq<(Seq<char>, u64)>, name: Seq<char>)
    requires
        same_names(a, b),
    ensures
        resolve(a, name) == resolve(b, name),
        forall|k: Seq<char>| #[trigger] find(a, k) == find(b, k),
    decreases a.len(),
{
    lemma_same_names_find(a, b);
    lemma_same_names_variant(a, b, strip_close(trim(split(name, '(')[1])));
}

proof fn lemma_same_names_find(a: Seq<(Seq<char>, u64)>, b: Seq<(Seq<char>, u64)>)
    requires
        same_names(a, b),
    ensures
        forall|k: Seq<char>| #[trigger] find(a, k) == find(b, k),
    decreases a.len(),
{
    if a.len() > 0 {
        assert(same_names(a.drop_last(), b.drop_last()));
        lemma_same_names_find(a.drop_last(), b.drop_last());
        assert(a.last().0 == b.last().0);
        assert forall|k: Seq<char>| #[trigger] find(a, k) == find(b, k) by {
            assert(find(a.drop_last(), k) == find(b.drop_last(), k));
        }
    } else {
        assert forall|k: Seq<char>| #[trigger] find(a, k) == find(b, k) by {}
    }
}

proof fn lemma_same_names_variant(a: Seq<(Seq<char>, u64)>, b: Seq<(Seq<char>, u64)>, last: Seq<char>)
    requires
        same_names(a, b),
    ensures
        last_with_variant(a, last) == last_with_variant(b, last),
    decreases a.len(),
{
    if a.len() > 0 {
        assert(same_names(a.drop_last(), b.drop_last()));
        lemma_same_names_variant(a.drop_last(), b.drop_last(), last);
    }
}

/// After setting the stock that a name draws from, the name reads the new
/// quantity.
pub proof fn law_set_value_then_get(e: Seq<(Seq<char>, u64)>, name: String, q: u64)
    requires
        unique_keys(e),
        resolve(e, name@) is Some,
    ensures
        ({
            let after = next_stock(e, StockActions::SetValue(name, q));
            &&& resolve(after, name@) == resolve(e, name@)
            &&& after[resolve(after, name@)->0].1 == q
        }),
{
    lemma_resolve_bounds(e, name@);
    let i = resolve(e, name@)->0;
    let after = with_quantity(e, i, q);
    assert(same_names(e, after));
    lemma_same_names_resolve(e, after, name@);
}

/// Adding to a name's stock keeps every name, in the same order, each once.
pub proof fn law_add_keeps_names(e: Seq<(Seq<char>, u64)>, name: String, value: i64)
    requires
        unique_keys(e),
    ensures
        same_names(e, next_stock(e, StockActions::Add(name, value))),
        unique_keys(next_stock(e, StockActions::Add(name, value))),
{
    lemma_resolve_bounds(e, name@);
    if resolve(e, name@) is Some {
        lemma_with_quantity_keys(e, resolve(e, name@)->0);
    }
}

/// A removed name is no longer in the stock, and every other name keeps its
/// quantity.
pub proof fn law_remove_then_absent(e: Seq<(Seq<char>, u64)>, name: String)
    requires
        unique_keys(e),
    ensures
        find(next_stock(e, StockActions::Remove(name)), name@) is None,
        forall|k: Seq<char>| k != name@ ==> #[trigger] as_map(next_stock(e, StockActions::Remove(name))).contains_key(k)
            == as_map(e).contains_key(k),
{
    lemma_find_some(e, name@);
    let after = remove_entry(e, name@);
    lemma_find_some(after, name@);
    if find(after, name@) is Some {
        let j = find(after, name@)->0;
        let i = find(e, name@)->0;
        if j < i {
            assert(after[j] == e[j]);
        } else {
            assert(after[j] == e[j + 1]);
        }
    }
    assert forall|k: Seq<char>| k != name@ implies #[trigger] as_map(after).contains_key(k) == as_map(e).contains_key(k) by {
        lemma_find_some(e, k);
        lemma_find_some(after, k);
        if find(e, k) is Some {
            let a = find(e, k)->0;
            match find(e, name@) {
                Some(i) => {
                    if a < i {
                        assert(after[a].0 == k);
                    } else {
                        assert(after[a - 1].0 == k);
                    }
                },
                None => {},
            }
        }
        if find(after, k) is Some {
            let b = find(after, k)->0;
            match find(e, name@) {
                Some(i) => {
                    if b < i {
                        assert(e[b].0 == k);
                    } else {
                        assert(e[b + 1].0 == k);
                    }
                },
                None => {},
            }
        }
    }
}

/// A product created with a name that drew from nothing is found under its
/// trimmed name with the given quantity.
pub proof fn law_create_then_lookup(e: Seq<(Seq<char>, u64)>, name: String, q: u64)
    requires
        unique_keys(e),
        resolve(e, name@) is None,
    ensures
        ({
            let after = next_stock(e, StockActions::Create(name, q));
            &&& find(after, trim(name@)) is Some
            &&& after[find(after, trim(name@))->0].1 == q
        }),
{
    let k = trim(name@);
    let after = insert_entry(e, k, q);
    lemma_find_some(e, k);
    lemma_insert_finds(e, k, q);
}

/// After an insert the key is found with the inserted value.
proof fn lemma_insert_finds(e: Seq<(Seq<char>, u64)>, k: Seq<char>, v: u64)
    requires
        unique_keys(e),
    ensures
        find(insert_entry(e, k, v), k) is Some,
        insert_entry(e, k, v)[find(insert_entry(e, k, v), k)->0] == (k, v),
{
    lemma_find_some(e, k);
    let after = insert_entry(e, k, v);
    lemma_find_some(after, k);
    match find(e, k) {
        Some(i) => {
            assert(after[i].0 == k);
            if find(after, k) is Some {
                let j = find(after, k)->0;
                if j != i {
                    assert(after[j].0 == e[j].0);
                }
            }
        },
        None => {
            assert(after[e.len() as int].0 == k);
            if find(after, k) is Some {
                let j = find(after, k)->0;
                if j != e.len() {
                    assert(after[j].0 == e[j].0);
                }
            }
        },
    }
}

proof fn lemma_find_push(e: Seq<(Seq<char>, u64)>, x: (Seq<char>, u64), k: Seq<char>)
    ensures
        x.0 == k ==> find(e.push(x), k) == Some(e.len() as int),
        x.0 != k ==> find(e.push(x), k) == find(e, k),
{
    assert(e.push(x).drop_last() =~= e);
}

proof fn lemma_variant_push(e: Seq<(Seq<char>, u64)>, x: (Seq<char>, u64), v: Seq<char>)
    ensures
        last_with_variant(e, v) is Some ==> last_with_variant(e.push(x), v) is Some,
{
    assert(e.push(x).drop_last() =~= e);
}

/// A name that draws from an entry still does after one more entry.
proof fn lemma_resolve_push(e: Seq<(Seq<char>, u64)>, x: (Seq<char>, u64), n: Seq<char>)
    ensures
        resolve(e, n) is Some ==> resolve(e.push(x), n) is Some,
{
    let sp = split(n, '(');
    lemma_find_push(e, x, n);
    if sp.len() == 2 {
        let last = strip_close(trim(sp[1]));
        lemma_find_push(e, x, shared_name(last));
        lemma_variant_push(e, x, last);
    }
}

/// Creating entries for names that all draw from one already changes
/// nothing.
proof fn lemma_create_all_present(a: Seq<(Seq<char>, u64)>, ns: Seq<Seq<char>>)
    requires
        forall|i: int| 0 <= i < ns.len() ==> #[trigger] resolve(a, ns[i]) is Some,
    ensures
        create_all(a, ns) == a,
    decreases ns.len(),
{
    if ns.len() > 0 {
        let prev = ns.drop_last();
        assert forall|i: int| 0 <= i < prev.len() implies #[trigger] resolve(a, prev[i]) is Some by {
            assert(prev[i] == ns[i]);
        }
        lemma_create_all_present(a, prev);
        assert(resolve(a, ns[ns.len() - 1]) is Some);
    }
}

proof fn lemma_create_all(e: Seq<(Seq<char>, u64)>, names: Seq<Seq<char>>)
    requires
        unique_keys(e),
    ensures
        ({
            let a = create_all(e, names);
            &&& e.len() <= a.len()
            &&& forall|i: int| 0 <= i < e.len() ==> #[trigger] a[i] == e[i]
            &&& forall|j: int| #![trigger a[j]] e.len() <= j < a.len() ==> a[j].1 == 0 && names.contains(a[j].0)
            &&& forall|k: Seq<char>| #[trigger] find(e, k) is Some ==> find(a, k) == find(e, k)
            &&& forall|i: int| 0 <= i < names.len() ==> #[trigger] resolve(a, names[i]) is Some
            &&& unique_keys(a)
        }),
    decreases names.len(),
{
    if names.len() > 0 {
        let prev = names.drop_last();
        let n = names.last();
        lemma_create_all(e, prev);
        let p = create_all(e, prev);
        assert forall|j: int| #![trigger p[j]] e.len() <= j < p.len() implies names.contains(p[j].0) by {
            assert(p[j].1 == 0 && prev.contains(p[j].0));
            let t = choose|t: int| 0 <= t < prev.len() && prev[t] == p[j].0;
            assert(names[t] == prev[t]);
        }
        if resolve(p, n) is None {
            let x = (n, 0u64);
            let sp = split(n, '(');
            assert(find(p, n) is None);
            lemma_find_some(p, n);
            assert(insert_entry(p, n, 0) == p.push(x));
            let a = p.push(x);
            lemma_find_push(p, x, n);
            assert(resolve(a, n) is Some);
            assert forall|i: int| 0 <= i < names.len() implies #[trigger] resolve(a, names[i]) is Some by {
                if i < names.len() - 1 {
                    assert(names[i] == prev[i]);
                    lemma_resolve_push(p, x, names[i]);
                }
            }
            assert forall|k: Seq<char>| #[trigger] find(e, k) is Some implies find(a, k) == find(e, k) by {
                lemma_find_some(p, k);
                lemma_find_push(p, x, k);
            }
            assert forall|j: int| #![trigger a[j]] e.len() <= j < a.len() implies a[j].1 == 0 && names.contains(a[j].0) by {
                if j == p.len() {
                    assert(names[names.len() - 1] == n);
                } else {
                    assert(a[j] == p[j]);
                }
            }
            assert forall|i: int, j: int| 0 <= i < a.len() && 0 <= j < a.len() && i != j implies a[i].0 != a[j].0 by {
                if i < p.len() && j < p.len() {
                } else if i == p.len() {
                    assert(p[j].0 != n);
                } else {
                    assert(p[i].0 != n);
                }
            }
        } else {
            assert forall|i: int| 0 <= i < names.len() implies #[trigger] resolve(p, names[i]) is Some by {
                if i < names.len() - 1 {
                    assert(names[i] == prev[i]);
                }
            }
        }
    }
}

/// Creating entries for a list of names (`CreateVec`) keeps every entry
/// there was, in place and with its quantity; adds only names of the list,
/// each with zero; leaves every name of the list drawing from an entry and
/// each name once; and doing it a second time changes nothing.
pub proof fn law_create_all(e: Seq<(Seq<char>, u64)>, names: Vec<String>)
    requires
        unique_keys(e),
    ensures
        ({
            let after = next_stock(e, StockActions::CreateVec(names));
            let ns = names_view(names@);
            &&& e.len() <= after.len()
            &&& forall|i: int| 0 <= i < e.len() ==> #[trigger] after[i] == e[i]
            &&& forall|k: Seq<char>| #[trigger] as_map(e).contains_key(k) ==> as_map(after).contains_key(k)
                && as_map(after)[k] == as_map(e)[k]
            &&& forall|j: int| #![trigger after[j]] e.len() <= j < after.len() ==> after[j].1 == 0 && ns.contains(
                after[j].0,
            )
            &&& forall|i: int| 0 <= i < ns.len() ==> #[trigger] resolve(after, ns[i]) is Some
            &&& unique_keys(after)
            &&& next_stock(after, StockActions::CreateVec(names)) == after
        }),
{
    let ns = names_view(names@);
    let after = create_all(e, ns);
    lemma_create_all(e, ns);
    assert forall|k: Seq<char>| #[trigger] as_map(e).contains_key(k) implies as_map(after).contains_key(k)
        && as_map(after)[k] == as_map(e)[k] by {
        assert(find(e, k) is Some);
        lemma_find_some(e, k);
        assert(find(after, k) == find(e, k));
    }
    lemma_create_all_present(after, ns);
}

/// Adds each negated quantity to its entry, in order.
pub open spec fn add_each_negated(e: Seq<(Seq<char>, u64)>, vs: Seq<(Seq<char>, i64)>) -> Seq<(Seq<char>, u64)>
    decreases vs.len(),
{
    if vs.len() == 0 {
        e
    } else {
        add_to(add_each_negated(e, vs.drop_last()), vs.last().0, (-vs.last().1) as i64)
    }
}

proof fn lemma_sub_all_negated(e: Seq<(Seq<char>, u64)>, vs: Seq<(Seq<char>, i64)>)
    requires
        forall|i: int| 0 <= i < vs.len() ==> #[trigger] vs[i].1 != i64::MIN,
    ensures
        sub_all(e, vs) == add_each_negated(e, vs),
    decreases vs.len(),
{
    if vs.len() > 0 {
        let prev = vs.drop_last();
        assert forall|i: int| 0 <= i < prev.len() implies #[trigger] prev[i].1 != i64::MIN by {
            assert(prev[i] == vs[i]);
        }
        lemma_sub_all_negated(e, prev);
        assert(vs[vs.len() - 1].1 != i64::MIN);
        let q = vs.last().1;
        assert((-q) as i64 == -q);
    }
}

/// Taking sold quantities from the stock (`SubVec`) is adding each negated
/// quantity in turn (`Add`), whenever no quantity is `i64::MIN` (whose
/// negation is no `i64`).
pub proof fn law_sub_is_negated_add(e: Seq<(Seq<char>, u64)>, vs: Vec<(String, i64)>)
    requires
        forall|i: int| 0 <= i < vs@.len() ==> #[trigger] vs@[i].1 != i64::MIN,
    ensures
        next_stock(e, StockActions::SubVec(vs)) == add_each_negated(e, signed_pairs(vs@)),
        forall|i: int| 0 <= i < vs@.len() ==> #[trigger] add_each_negated(e, signed_pairs(vs@).take(i + 1))
            == next_stock(
            add_each_negated(e, signed_pairs(vs@).take(i)),
            StockActions::Add(vs@[i].0, (-vs@[i].1) as i64),
        ),
{
    let ps = signed_pairs(vs@);
    assert forall|i: int| 0 <= i < ps.len() implies #[trigger] ps[i].1 != i64::MIN by {
        assert(vs@[i].1 != i64::MIN);
    }
    lemma_sub_all_negated(e, ps);
    assert forall|i: int| 0 <= i < vs@.len() implies #[trigger] add_each_negated(e, ps.take(i + 1))
        == next_stock(add_each_negated(e, ps.take(i)), StockActions::Add(vs@[i].0, (-vs@[i].1) as i64)) by {
        assert(ps.take(i + 1).drop_last() =~= ps.take(i));
        assert(ps.take(i + 1).last() == ps[i]);
    }
}

} // verus!
