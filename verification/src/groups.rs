//! Groups of a product's values (such as the points of a steak): finding a
//! group, editing it on the settings screen, and checking that each line of
//! a comand that needs a group value has a valid one.
use vstd::prelude::*;
use crate::comand::{Input, input_view};
use crate::storage::groups_view;
use crate::text::{chars_of, push_str, same_chars, string_of, strings_view, trim, trim_chars};

verus! {

/// Groups as text: each group's name and values.
pub type GroupsModel = Seq<(Seq<char>, Seq<Seq<char>>)>;

/// The index of the group named `k`, searched from the end.
pub open spec fn find_group(gs: GroupsModel, k: Seq<char>) -> Option<int>
    decreases gs.len(),
{
    if gs.len() == 0 {
        None
    } else if gs.last().0 == k {
        Some(gs.len() - 1)
    } else {
        find_group(gs.drop_last(), k)
    }
}

pub(crate) proof fn lemma_find_group(gs: GroupsModel, k: Seq<char>)
    ensures
        find_group(gs, k) matches Some(i) ==> 0 <= i < gs.len() && gs[i].0 == k,
        find_group(gs, k) is None ==> forall|i: int| 0 <= i < gs.len() ==> gs[i].0 != k,
    decreases gs.len(),
{
    if gs.len() > 0 {
        lemma_find_group(gs.drop_last(), k);
        if find_group(gs, k) is None {
            assert forall|i: int| 0 <= i < gs.len() implies gs[i].0 != k by {
                if i < gs.len() - 1 {
                    assert(gs.drop_last()[i] == gs[i]);
                }
            }
        }
    }
}

pub(crate) fn find_group_index(groups: &Vec<(String, Vec<String>)>, name: &Vec<char>) -> (res: Option<usize>)
    ensures
        res == (match find_group(groups_view(groups@), name@) {
            Some(i) => Some(i as usize),
            None => None::<usize>,
        }),
        res matches Some(i) ==> i < groups.len(),
{
    let ghost gs = groups_view(groups@);
    proof {
        lemma_find_group(gs, name@);
    }
    let mut j = groups.len();
    assert(gs.take(j as int) =~= gs);
    while j > 0
        invariant
            j <= groups.len(),
            gs == groups_view(groups@),
            find_group(gs, name@) == find_group(gs.take(j as int), name@),
        decreases j,
    {
        assert(gs.take(j as int).drop_last() =~= gs.take(j - 1));
        assert(gs.take(j as int).last() == gs[j - 1]);
        let k = chars_of(groups[j - 1].0.as_str());
        if same_chars(&k, name) {
            return Some(j - 1);
        }
        j -= 1;
    }
    None
}

fn values_contain(values: &Vec<String>, v: &Vec<char>) -> (res: bool)
    ensures
        res == strings_view(values@).contains(v@),
{
    let ghost sv = strings_view(values@);
    for k in 0..values.len()
        invariant
            sv == strings_view(values@),
            forall|i: int| 0 <= i < k ==> sv[i] != v@,
    {
        let c = chars_of(values[k].as_str());
        if same_chars(&c, v) {
            assert(sv[k as int] == v@);
            return true;
        }
    }
    false
}

fn copy_strings(v: &Vec<String>) -> (res: Vec<String>)
    ensures
        strings_view(res@) == strings_view(v@),
{
    let mut res: Vec<String> = Vec::new();
    for k in 0..v.len()
        invariant
            strings_view(res@) == strings_view(v@).take(k as int),
    {
        let ghost before = strings_view(res@);
        let item = v[k].clone();
        res.push(item);
        assert(strings_view(res@) =~= before.push(v@[k as int]@));
        assert(strings_view(v@).take(k + 1) =~= strings_view(v@).take(k as int).push(v@[k as int]@));
    }
    assert(strings_view(v@).take(v.len() as int) =~= strings_view(v@));
    res
}

/// The groups with group `i`'s values replaced.
fn with_values(groups: &Vec<(String, Vec<String>)>, i: usize, values: Vec<String>) -> (res: Vec<(String, Vec<String>)>)
    requires
        i < groups.len(),
    ensures
        groups_view(res@) == groups_view(groups@).update(i as int, (groups@[i as int].0@, strings_view(values@))),
{
    let ghost gs = groups_view(groups@);
    let ghost want = gs.update(i as int, (groups@[i as int].0@, strings_view(values@)));
    let mut res: Vec<(String, Vec<String>)> = Vec::new();
    let mut values = Some(values);
    for k in 0..groups.len()
        invariant
            gs == groups_view(groups@),
            i < groups.len(),
            k <= i ==> values is Some && strings_view(values->0@) == want[i as int].1,
            want == gs.update(i as int, (groups@[i as int].0@, want[i as int].1)),
            groups_view(res@) == want.take(k as int),
    {
        let name = groups[k].0.clone();
        let vs = if k == i {
            let taken = values.take();
            match taken {
                Some(v) => v,
                None => copy_strings(&groups[k].1),
            }
        } else {
            copy_strings(&groups[k].1)
        };
        let ghost before = groups_view(res@);
        let ghost entry = (name@, strings_view(vs@));
        res.push((name, vs));
        assert(groups_view(res@) =~= before.push(entry));
        assert(want.take(k + 1) =~= want.take(k as int).push(want[k as int]));
    }
    assert(want.take(groups.len() as int) =~= want);
    res
}

/// Adds `value` (trimmed) to group `name`: `None` when the group already
/// holds it.
pub open spec fn group_value_added(gs: GroupsModel, name: Seq<char>, value: Seq<char>) -> Option<GroupsModel> {
    let i = find_group(gs, name)->0;
    let v = trim(value);
    if gs[i].1.contains(v) {
        None
    } else {
        Some(gs.update(i, (gs[i].0, gs[i].1.push(v))))
    }
}

/// Replaces value `pos` of group `name` by `value` (trimmed): `None` when
/// the group already holds it.
pub open spec fn group_value_renamed(gs: GroupsModel, name: Seq<char>, pos: int, value: Seq<char>) -> Option<GroupsModel> {
    let i = find_group(gs, name)->0;
    let v = trim(value);
    if gs[i].1.contains(v) {
        None
    } else {
        Some(gs.update(i, (gs[i].0, gs[i].1.update(pos, v))))
    }
}

/// Removes every value of group `name` equal to `value` (trimmed).
pub open spec fn group_value_removed(gs: GroupsModel, name: Seq<char>, value: Seq<char>) -> GroupsModel {
    let i = find_group(gs, name)->0;
    let v = trim(value);
    gs.update(i, (gs[i].0, gs[i].1.filter(|x: Seq<char>| x != v)))
}

/// Adds an empty group named `name` (trimmed), emptying a group of that
/// name that already exists.
pub open spec fn group_added(gs: GroupsModel, name: Seq<char>) -> GroupsModel {
    let k = trim(name);
    match find_group(gs, k) {
        Some(i) => gs.update(i, (k, Seq::empty())),
        None => gs.push((k, Seq::empty())),
    }
}

/// Removes the group named `name`.
pub open spec fn group_removed(gs: GroupsModel, name: Seq<char>) -> GroupsModel {
    match find_group(gs, name) {
        Some(i) => gs.remove(i),
        None => gs,
    }
}

/// A value added to a group is in the group afterwards, and a group that
/// held no value twice still holds none twice.
pub proof fn law_added_value_present(gs: GroupsModel, name: Seq<char>, value: Seq<char>)
    requires
        find_group(gs, name) is Some,
    ensures
        group_value_added(gs, name, value) matches Some(g) ==> {
            let i = find_group(gs, name)->0;
            &&& g[i].1.contains(trim(value))
            &&& gs[i].1.no_duplicates() ==> g[i].1.no_duplicates()
        },
{
    lemma_find_group(gs, name);
    let i = find_group(gs, name)->0;
    let v = trim(value);
    if let Some(g) = group_value_added(gs, name, value) {
        assert(g[i].1 == gs[i].1.push(v));
        assert(g[i].1[gs[i].1.len() as int] == v);
    }
}

/// A value removed from a group is no longer in it, and every other value
/// stays.
pub proof fn law_removed_value_absent(gs: GroupsModel, name: Seq<char>, value: Seq<char>)
    requires
        find_group(gs, name) is Some,
    ensures
        ({
            let i = find_group(gs, name)->0;
            let g = group_value_removed(gs, name, value);
            &&& !g[i].1.contains(trim(value))
            &&& forall|x: Seq<char>| x != trim(value) && gs[i].1.contains(x) ==> #[trigger] g[i].1.contains(x)
        }),
{
    lemma_find_group(gs, name);
    let i = find_group(gs, name)->0;
    let v = trim(value);
    let f = |x: Seq<char>| x != v;
    let g = gs[i].1.filter(f);
    if g.contains(v) {
        let j = choose|j: int| 0 <= j < g.len() && g[j] == v;
        gs[i].1.lemma_filter_pred(f, j);
    }
    assert forall|x: Seq<char>| x != v && gs[i].1.contains(x) implies #[trigger] g.contains(x) by {
        let j = choose|j: int| 0 <= j < gs[i].1.len() && gs[i].1[j] == x;
        gs[i].1.lemma_filter_contains(f, j);
    }
}

/// The groups after adding a value to a group (see `group_value_added`).
pub fn add_group_value(groups: &Vec<(String, Vec<String>)>, name: &str, value: &str) -> (res: Option<Vec<(String, Vec<String>)>>)
    requires
        find_group(groups_view(groups@), name@) is Some,
    ensures
        match group_value_added(groups_view(groups@), name@, value@) {
            None => res is None,
            Some(g) => res matches Some(r) && groups_view(r@) == g,
        },
{
    let ghost gs = groups_view(groups@);
    proof {
        lemma_find_group(gs, name@);
    }
    let i = find_group_index(groups, &chars_of(name)).unwrap();
    let v = trim_chars(&chars_of(value));
    assert(strings_view(groups@[i as int].1@) == gs[i as int].1);
    if values_contain(&groups[i].1, &v) {
        return None;
    }
    let mut values = copy_strings(&groups[i].1);
    let ghost before = strings_view(values@);
    values.push(string_of(&v));
    assert(strings_view(values@) =~= before.push(v@));
    Some(with_values(groups, i, values))
}

/// The groups after renaming a value of a group (see `group_value_renamed`).
pub fn rename_group_value(groups: &Vec<(String, Vec<String>)>, name: &str, pos: usize, value: &str) -> (res: Option<Vec<(String, Vec<String>)>>)
    requires
        find_group(groups_view(groups@), name@) matches Some(i) && (pos < groups_view(groups@)[i].1.len()
            || groups_view(groups@)[i].1.contains(trim(value@))),
    ensures
        match group_value_renamed(groups_view(groups@), name@, pos as int, value@) {
            None => res is None,
            Some(g) => res matches Some(r) && groups_view(r@) == g,
        },
{
    let ghost gs = groups_view(groups@);
    proof {
        lemma_find_group(gs, name@);
    }
    let i = find_group_index(groups, &chars_of(name)).unwrap();
    let v = trim_chars(&chars_of(value));
    assert(strings_view(groups@[i as int].1@) == gs[i as int].1);
    if values_contain(&groups[i].1, &v) {
        return None;
    }
    let mut values = copy_strings(&groups[i].1);
    let ghost before = strings_view(values@);
    values.set(pos, string_of(&v));
    assert(strings_view(values@) =~= before.update(pos as int, v@));
    Some(with_values(groups, i, values))
}

/// The groups after removing a value from a group (see
/// `group_value_removed`).
pub fn remove_group_value(groups: &Vec<(String, Vec<String>)>, name: &str, value: &str) -> (res: Vec<(String, Vec<String>)>)
    requires
        find_group(groups_view(groups@), name@) is Some,
    ensures
        groups_view(res@) == group_value_removed(groups_view(groups@), name@, value@),
{
    let ghost gs = groups_view(groups@);
    proof {
        lemma_find_group(gs, name@);
    }
    let i = find_group_index(groups, &chars_of(name)).unwrap();
    let v = trim_chars(&chars_of(value));
    let ghost sv = strings_view(groups@[i as int].1@);
    let ghost keep = |x: Seq<char>| x != v@;
    assert(sv == gs[i as int].1);
    let mut values: Vec<String> = Vec::new();
    assert(sv.take(0) =~= Seq::<Seq<char>>::empty());
    assert(strings_view(values@) =~= Seq::<Seq<char>>::empty());
    let n = groups[i].1.len();
    for k in 0..n
        invariant
            i < groups.len(),
            n == groups@[i as int].1@.len(),
            sv == strings_view(groups@[i as int].1@),
            keep == (|x: Seq<char>| x != v@),
            strings_view(values@) == sv.take(k as int).filter(keep),
    {
        assert(sv.take(k + 1).drop_last() =~= sv.take(k as int));
        assert(sv.take(k + 1).last() == groups@[i as int].1@[k as int]@);
        reveal_with_fuel(Seq::<Seq<char>>::filter, 1);
        let c = chars_of(groups[i].1[k].as_str());
        if !same_chars(&c, &v) {
            let ghost before = strings_view(values@);
            let item = groups[i].1[k].clone();
            values.push(item);
            assert(strings_view(values@) =~= before.push(c@));
        }
    }
    assert(sv.take(groups@[i as int].1@.len() as int) =~= sv);
    assert(keep =~= (|x: Seq<char>| x != trim(value@)));
    assert(find_group(gs, name@) == Some(i as int));
    with_values(groups, i, values)
}

/// The groups after adding an empty group (see `group_added`).
pub fn add_group(groups: &Vec<(String, Vec<String>)>, name: &str) -> (res: Vec<(String, Vec<String>)>)
    ensures
        groups_view(res@) == group_added(groups_view(groups@), name@),
{
    let ghost gs = groups_view(groups@);
    let k = trim_chars(&chars_of(name));
    proof {
        lemma_find_group(gs, k@);
    }
    match find_group_index(groups, &k) {
        Some(i) => {
            let empty: Vec<String> = Vec::new();
            assert(strings_view(empty@) =~= Seq::<Seq<char>>::empty());
            let r = with_values(groups, i, empty);
            assert(groups@[i as int].0@ == k@);
            assert(groups_view(r@) =~= gs.update(i as int, (k@, Seq::empty())));
            r
        },
        None => {
            let mut r = with_all(groups);
            let ghost before = groups_view(r@);
            let empty: Vec<String> = Vec::new();
            assert(strings_view(empty@) =~= Seq::<Seq<char>>::empty());
            r.push((string_of(&k), empty));
            assert(groups_view(r@) =~= before.push((k@, Seq::empty())));
            r
        },
    }
}

fn with_all(groups: &Vec<(String, Vec<String>)>) -> (res: Vec<(String, Vec<String>)>)
    ensures
        groups_view(res@) == groups_view(groups@),
{
    let mut res: Vec<(String, Vec<String>)> = Vec::new();
    for k in 0..groups.len()
        invariant
            groups_view(res@) == groups_view(groups@).take(k as int),
    {
        let name = groups[k].0.clone();
        let vs = copy_strings(&groups[k].1);
        let ghost before = groups_view(res@);
        let ghost entry = (name@, strings_view(vs@));
        res.push((name, vs));
        assert(groups_view(res@) =~= before.push(entry));
        assert(groups_view(groups@).take(k + 1) =~= groups_view(groups@).take(k as int).push(groups_view(groups@)[k as int]));
    }
    assert(groups_view(groups@).take(groups.len() as int) =~= groups_view(groups@));
    res
}

/// The groups after removing a group (see `group_removed`).
pub fn remove_group(groups: &Vec<(String, Vec<String>)>, name: &str) -> (res: Vec<(String, Vec<String>)>)
    ensures
        groups_view(res@) == group_removed(groups_view(groups@), name@),
{
    let ghost gs = groups_view(groups@);
    proof {
        lemma_find_group(gs, name@);
    }
    let mut r = with_all(groups);
    match find_group_index(groups, &chars_of(name)) {
        Some(i) => {
            r.remove(i);
            assert(groups_view(r@) =~= gs.remove(i as int));
        },
        None => {},
    }
    r
}

// ---------------------------------------------------------------------------
// Checking a comand's group values
// ---------------------------------------------------------------------------

/// The group of product `name`, as the product list gives it (`None` when
/// the product is unknown or has no group).
pub open spec fn product_group(products: Seq<(Seq<char>, Option<Seq<char>>)>, name: Seq<char>) -> Option<Seq<char>>
    decreases products.len(),
{
    if products.len() == 0 {
        None
    } else if products.last().0 == name {
        products.last().1
    } else {
        product_group(products.drop_last(), name)
    }
}

pub open spec fn products_view(v: Seq<(String, Option<String>)>) -> Seq<(Seq<char>, Option<Seq<char>>)> {
    Seq::new(
        v.len(),
        |i: int|
            (
                v[i].0@,
                match v[i].1 {
                    Some(g) => Some(g@),
                    None => None,
                },
            ),
    )
}

/// A line lacks its group value: its product (looked up by the trimmed
/// name) has a group that exists, and the line's value is missing or not
/// one of the group's values.
pub open spec fn lacks_group_value(
    products: Seq<(Seq<char>, Option<Seq<char>>)>,
    gs: GroupsModel,
    input: (Seq<char>, u32, Option<Seq<char>>),
) -> bool {
    match product_group(products, trim(input.0)) {
        None => false,
        Some(g) => match find_group(gs, g) {
            None => false,
            Some(i) => match input.2 {
                Some(v) => !gs[i].1.contains(v),
                None => true,
            },
        },
    }
}

/// The message for a line that lacks its group value.
pub open spec fn group_message(name: Seq<char>) -> Seq<char> {
    "Escolha um valor no grupo de '"@ + name + "'"@
}

/// The message of the last line that lacks its group value, if any.
pub open spec fn group_error(
    products: Seq<(Seq<char>, Option<Seq<char>>)>,
    gs: GroupsModel,
    inputs: Seq<(Seq<char>, u32, Option<Seq<char>>)>,
) -> Option<Seq<char>>
    decreases inputs.len(),
{
    if inputs.len() == 0 {
        None
    } else if lacks_group_value(products, gs, inputs.last()) {
        Some(group_message(inputs.last().0))
    } else {
        group_error(products, gs, inputs.drop_last())
    }
}

fn product_group_of(products: &Vec<(String, Option<String>)>, name: &Vec<char>) -> (res: Option<Vec<char>>)
    ensures
        match product_group(products_view(products@), name@) {
            Some(g) => res matches Some(r) && r@ == g,
            None => res is None,
        },
{
    let ghost ps = products_view(products@);
    let mut j = products.len();
    assert(ps.take(j as int) =~= ps);
    while j > 0
        invariant
            j <= products.len(),
            ps == products_view(products@),
            product_group(ps, name@) == product_group(ps.take(j as int), name@),
        decreases j,
    {
        assert(ps.take(j as int).drop_last() =~= ps.take(j - 1));
        assert(ps.take(j as int).last() == ps[j - 1]);
        let k = chars_of(products[j - 1].0.as_str());
        if same_chars(&k, name) {
            return match &products[j - 1].1 {
                Some(g) => Some(chars_of(g.as_str())),
                None => None,
            };
        }
        j -= 1;
    }
    None
}

fn lacks_value(products: &Vec<(String, Option<String>)>, groups: &Vec<(String, Vec<String>)>, input: &Input) -> (res: bool)
    ensures
        res == lacks_group_value(products_view(products@), groups_view(groups@), input_view(*input)),
{
    let name = trim_chars(&chars_of(input.name.as_str()));
    match product_group_of(products, &name) {
        None => false,
        Some(g) => {
            proof {
                lemma_find_group(groups_view(groups@), g@);
            }
            match find_group_index(groups, &g) {
                None => false,
                Some(i) => {
                    assert(strings_view(groups@[i as int].1@) == groups_view(groups@)[i as int].1);
                    match &input.group {
                        Some(v) => !values_contain(&groups[i].1, &chars_of(v.as_str())),
                        None => true,
                    }
                },
            }
        },
    }
}

/// Checks that each line of a comand whose product has a group carries one
/// of the group's values: the message of the last line that does not, or
/// `None` when all do. `products` gives each product's group.
pub fn group_check(inputs: &Vec<Input>, products: &Vec<(String, Option<String>)>, groups: &Vec<(String, Vec<String>)>) -> (res: Option<String>)
    ensures
        match group_error(
            products_view(products@),
            groups_view(groups@),
            Seq::new(inputs@.len(), |i: int| input_view(inputs@[i])),
        ) {
            None => res is None,
            Some(m) => res matches Some(r) && r@ == m,
        },
{
    let ghost iv = Seq::new(inputs@.len(), |i: int| input_view(inputs@[i]));
    let mut error: Option<String> = None;
    assert(iv.take(0) =~= Seq::<(Seq<char>, u32, Option<Seq<char>>)>::empty());
    for k in 0..inputs.len()
        invariant
            iv == Seq::new(inputs@.len(), |i: int| input_view(inputs@[i])),
            match group_error(products_view(products@), groups_view(groups@), iv.take(k as int)) {
                None => error is None,
                Some(m) => error matches Some(r) && r@ == m,
            },
    {
        assert(iv.take(k + 1).drop_last() =~= iv.take(k as int));
        assert(iv.take(k + 1).last() == input_view(inputs@[k as int]));
        if lacks_value(products, groups, &inputs[k]) {
            let mut m = chars_of("Escolha um valor no grupo de '");
            push_str(&mut m, inputs[k].name.as_str());
            push_str(&mut m, "'");
            error = Some(string_of(&m));
        }
    }
    assert(iv.take(inputs.len() as int) =~= iv);
    error
}

/// The name a comand line is saved and counted under: with its group value
/// (trimmed) in parentheses when the line has one and its product has a
/// group.
pub open spec fn saved_name(name: Seq<char>, group: Option<Seq<char>>, product_has_group: bool) -> Seq<char> {
    match group {
        Some(g) => if product_has_group {
            name + seq!['('] + trim(g) + seq![')']
        } else {
            name
        },
        None => name,
    }
}

/// The name a comand line is saved under (see `saved_name`).
pub fn saved_line_name(input: &Input, product_has_group: bool) -> (res: String)
    ensures
        res@ == saved_name(input.name@, input_view(*input).2, product_has_group),
{
    match &input.group {
        Some(g) => {
            if product_has_group {
                let mut c = chars_of(input.name.as_str());
                c.push('(');
                let t = trim_chars(&chars_of(g.as_str()));
                crate::text::extend(&mut c, &t);
                c.push(')');
                string_of(&c)
            } else {
                input.name.clone()
            }
        },
        None => input.name.clone(),
    }
}

/// A line holds a proper group value: when its product (looked up by its
/// trimmed name) has a group, and that group exists, the line carries a
/// value and the group holds it.
pub open spec fn holds_group_value(
    products: Seq<(Seq<char>, Option<Seq<char>>)>,
    gs: GroupsModel,
    x: (Seq<char>, u32, Option<Seq<char>>),
) -> bool {
    let g = product_group(products, trim(x.0));
    (g is Some && find_group(gs, g->0) is Some) ==> (x.2 is Some && gs[find_group(gs, g->0)->0].1.contains(x.2->0))
}

/// A comand passes the group check exactly when every line holds a proper
/// group value (see `holds_group_value`); when it fails, the message names a
/// line that does not, and every later line does.
pub proof fn law_group_check_exact(
    products: Seq<(Seq<char>, Option<Seq<char>>)>,
    gs: GroupsModel,
    inputs: Seq<(Seq<char>, u32, Option<Seq<char>>)>,
)
    ensures
        group_error(products, gs, inputs) is None <==> forall|i: int| 0 <= i < inputs.len() ==> holds_group_value(
            products,
            gs,
            #[trigger] inputs[i],
        ),
        group_error(products, gs, inputs) matches Some(m) ==> exists|j: int| 0 <= j < inputs.len() && m
            == group_message(inputs[j].0) && !holds_group_value(products, gs, #[trigger] inputs[j]) && forall|
            l: int,
        | j < l < inputs.len() ==> holds_group_value(products, gs, #[trigger] inputs[l]),
    decreases inputs.len(),
{
    if inputs.len() > 0 {
        let prev = inputs.drop_last();
        law_group_check_exact(products, gs, prev);
        let last = inputs.last();
        let n = inputs.len() - 1;
        assert(inputs[n] == last);
        assert(lacks_group_value(products, gs, last) == !holds_group_value(products, gs, last));
        assert forall|i: int| 0 <= i < n implies #[trigger] inputs[i] == prev[i] by {}
        if group_error(products, gs, prev) is Some && !lacks_group_value(products, gs, last) {
            let j = choose|j: int| 0 <= j < prev.len() && group_error(products, gs, prev)->0
                == group_message(prev[j].0) && !holds_group_value(products, gs, #[trigger] prev[j]) && forall|
                l: int,
            | j < l < prev.len() ==> holds_group_value(products, gs, #[trigger] prev[l]);
            assert(inputs[j] == prev[j]);
            assert forall|l: int| j < l < inputs.len() implies holds_group_value(products, gs, #[trigger] inputs[l]) by {
                if l < n {
                    assert(inputs[l] == prev[l]);
                }
            }
        }
        if group_error(products, gs, prev) is None {
            assert forall|i: int| 0 <= i < n implies holds_group_value(products, gs, #[trigger] inputs[i]) by {
                assert(inputs[i] == prev[i]);
            }
        }
    }
}

} // verus!
