//! Where the day's report puts each comand and each product: the rows of
//! every comand block, the cells its totals sum, and the table of products
//! sold, in name order, with the quantity cells of every line of each.
use vstd::prelude::*;
use crate::export::{Position, Positions};
use crate::text::{chars_of, lex_less, lex_lt, same_chars, strings_view,
    lemma_lex_transitive, lemma_lex_total};

verus! {

/// The first row of comand `k`'s block: the blocks start at row 1 and each
/// takes its lines plus four rows (title, heading, total, gap).
pub open spec fn start_row(counts: Seq<nat>, k: int) -> int
    decreases k,
{
    if k <= 0 {
        1
    } else {
        start_row(counts, k - 1) + counts[k - 1] + 4
    }
}

/// The row of line `j` of comand `k`.
pub open spec fn line_row(counts: Seq<nat>, k: int, j: int) -> int {
    start_row(counts, k) + 2 + j
}

/// The row of comand `k`'s total.
pub open spec fn total_row(counts: Seq<nat>, k: int) -> int {
    start_row(counts, k) + 2 + counts[k]
}

/// How many lines each comand has.
pub open spec fn counts_of(names: Seq<Seq<Seq<char>>>) -> Seq<nat> {
    Seq::new(names.len(), |k: int| names[k].len())
}

/// A product of the table: its name, the quantity cells of its lines, and
/// which lines they are (comand, line).
pub type ProductModel = (Seq<char>, Seq<Position>, Seq<(int, int)>);

/// Where a product named `name` belongs in a table in name order: before
/// the first product whose name is not before it.
pub open spec fn table_pos(t: Seq<ProductModel>, name: Seq<char>) -> int
    decreases t.len(),
{
    if t.len() == 0 {
        0
    } else if lex_lt(t[0].0, name) {
        1 + table_pos(t.drop_first(), name)
    } else {
        0
    }
}

/// The table with one more line of product `name`.
pub open spec fn add_line(t: Seq<ProductModel>, name: Seq<char>, cell: Position, at: (int, int)) -> Seq<ProductModel> {
    let p = table_pos(t, name);
    if p < t.len() && t[p].0 == name {
        t.update(p, (name, t[p].1.push(cell), t[p].2.push(at)))
    } else {
        t.insert(p, (name, seq![cell], seq![at]))
    }
}

/// The table after the first `j` lines of comand `k`.
pub open spec fn add_lines(t: Seq<ProductModel>, names: Seq<Seq<Seq<char>>>, k: int, j: int) -> Seq<ProductModel>
    decreases j,
{
    if j <= 0 {
        t
    } else {
        add_line(
            add_lines(t, names, k, j - 1),
            names[k][j - 1],
            Position { col: 2, row: line_row(counts_of(names), k, j - 1) as u32 },
            (k, j - 1),
        )
    }
}

/// The table after the first `k` comands.
pub open spec fn table_after(names: Seq<Seq<Seq<char>>>, k: int) -> Seq<ProductModel>
    decreases k,
{
    if k <= 0 {
        Seq::empty()
    } else {
        add_lines(table_after(names, k - 1), names, k - 1, names[k - 1].len() as int)
    }
}

/// The names strictly increase along the table.
pub open spec fn table_sorted(t: Seq<ProductModel>) -> bool {
    forall|a: int, b: int| 0 <= a < b < t.len() ==> lex_lt(t[a].0, t[b].0)
}

/// The rows of one comand's block.
#[derive(Debug)]
pub struct ComandRows {
    /// The row of the comand's name.
    pub title_row: u32,
    /// The row of its first line; line `j` is `j` rows below.
    pub first_line_row: u32,
    /// The row of its total.
    pub total_row: u32,
    /// The cells of its lines' totals, which its total sums.
    pub line_totals: Positions,
}

/// One product of the table.
#[derive(Debug)]
pub struct ProductRows {
    pub name: String,
    /// The quantity cells of its lines.
    pub cells: Positions,
    /// Its lines, as (comand, line).
    pub lines: Vec<(usize, usize)>,
}

/// The report's layout.
#[derive(Debug)]
pub struct ExportLayout {
    pub comands: Vec<ComandRows>,
    /// The cells of the comands' totals.
    pub totals: Positions,
    /// The products sold, in name order.
    pub products: Vec<ProductRows>,
}

pub open spec fn product_model(p: ProductRows) -> ProductModel {
    (p.name@, p.cells.vec@, Seq::new(p.lines@.len(), |i: int| (p.lines@[i].0 as int, p.lines@[i].1 as int)))
}

pub open spec fn table_model(v: Seq<ProductRows>) -> Seq<ProductModel> {
    Seq::new(v.len(), |i: int| product_model(v[i]))
}

pub open spec fn names_model(v: Seq<Vec<String>>) -> Seq<Seq<Seq<char>>> {
    Seq::new(v.len(), |k: int| strings_view(v[k]@))
}

/// The layout fits: every row the report uses is below `u32::MAX`.
pub open spec fn layout_fits(names: Seq<Seq<Seq<char>>>) -> bool {
    start_row(counts_of(names), names.len() as int) < u32::MAX
}

proof fn lemma_start_row_grows(counts: Seq<nat>, a: int, b: int)
    requires
        0 <= a <= b,
    ensures
        start_row(counts, a) + 4 * (b - a) <= start_row(counts, b),
        a < b ==> start_row(counts, a) + counts[a] + 4 <= start_row(counts, b),
    decreases b - a,
{
    if a < b {
        lemma_start_row_grows(counts, a, b - 1);
    }
}

proof fn lemma_table_pos(t: Seq<ProductModel>, name: Seq<char>)
    ensures
        0 <= table_pos(t, name) <= t.len(),
        forall|i: int| 0 <= i < table_pos(t, name) ==> lex_lt(#[trigger] t[i].0, name),
        table_pos(t, name) < t.len() ==> !lex_lt(t[table_pos(t, name)].0, name),
    decreases t.len(),
{
    if t.len() > 0 && lex_lt(t[0].0, name) {
        lemma_table_pos(t.drop_first(), name);
        assert forall|i: int| 0 <= i < table_pos(t, name) implies lex_lt(#[trigger] t[i].0, name) by {
            if i > 0 {
                assert(t[i] == t.drop_first()[i - 1]);
            }
        }
    }
}

/// Adding a line keeps the table in strict name order.
proof fn lemma_add_line_sorted(t: Seq<ProductModel>, name: Seq<char>, cell: Position, at: (int, int))
    requires
        table_sorted(t),
    ensures
        table_sorted(add_line(t, name, cell, at)),
        add_line(t, name, cell, at)[table_pos(t, name)].0 == name,
        table_pos(t, name) < add_line(t, name, cell, at).len(),
{
    lemma_table_pos(t, name);
    let p = table_pos(t, name);
    let u = add_line(t, name, cell, at);
    if p < t.len() && t[p].0 == name {
        assert forall|a: int, b: int| 0 <= a < b < u.len() implies lex_lt(u[a].0, u[b].0) by {
            assert(u[a].0 == t[a].0 && u[b].0 == t[b].0);
        }
    } else {
        if p < t.len() {
            lemma_lex_total(t[p].0, name);
        }
        assert forall|a: int, b: int| 0 <= a < b < u.len() implies lex_lt(u[a].0, u[b].0) by {
            if b < p {
                assert(u[a] == t[a] && u[b] == t[b]);
            } else if b == p {
                assert(u[a] == t[a]);
            } else if a < p {
                assert(u[a] == t[a] && u[b] == t[b - 1]);
            } else if a == p {
                assert(u[b] == t[b - 1]);
                if b - 1 > p {
                    lemma_lex_transitive(name, t[p].0, t[b - 1].0);
                }
            } else {
                assert(u[a] == t[a - 1] && u[b] == t[b - 1]);
            }
        }
    }
}

proof fn lemma_add_lines_sorted(t: Seq<ProductModel>, names: Seq<Seq<Seq<char>>>, k: int, j: int)
    requires
        table_sorted(t),
    ensures
        table_sorted(add_lines(t, names, k, j)),
    decreases j,
{
    if j > 0 {
        lemma_add_lines_sorted(t, names, k, j - 1);
        lemma_add_line_sorted(
            add_lines(t, names, k, j - 1),
            names[k][j - 1],
            Position { col: 2, row: line_row(counts_of(names), k, j - 1) as u32 },
            (k, j - 1),
        );
    }
}

/// The product table is in strict name order: each product once, names
/// increasing.
pub proof fn law_product_table_sorted(names: Seq<Seq<Seq<char>>>, k: int)
    ensures
        table_sorted(table_after(names, k)),
    decreases k,
{
    if k > 0 {
        law_product_table_sorted(names, k - 1);
        lemma_add_lines_sorted(table_after(names, k - 1), names, k - 1, names[k - 1].len() as int);
    }
}

/// Line `at` is listed under product `name` in the table.
pub open spec fn listed_under(t: Seq<ProductModel>, name: Seq<char>, at: (int, int)) -> bool {
    exists|q: int| 0 <= q < t.len() && t[q].0 == name && #[trigger] t[q].2.contains(at)
}

proof fn lemma_add_line_listed(t: Seq<ProductModel>, name: Seq<char>, cell: Position, at: (int, int))
    ensures
        listed_under(add_line(t, name, cell, at), name, at),
        forall|n: Seq<char>, x: (int, int)| listed_under(t, n, x) ==> #[trigger] listed_under(add_line(t, name, cell, at), n, x),
{
    lemma_table_pos(t, name);
    let p = table_pos(t, name);
    let u = add_line(t, name, cell, at);
    if p < t.len() && t[p].0 == name {
        assert(u[p].2 == t[p].2.push(at));
        assert(u[p].2[t[p].2.len() as int] == at);
        assert(u[p].2.contains(at));
        assert forall|n: Seq<char>, x: (int, int)| listed_under(t, n, x) implies #[trigger] listed_under(u, n, x) by {
            let q = choose|q: int| 0 <= q < t.len() && t[q].0 == n && #[trigger] t[q].2.contains(x);
            let i = choose|i: int| 0 <= i < t[q].2.len() && t[q].2[i] == x;
            if q == p {
                assert(u[q].2[i] == x);
            } else {
                assert(u[q] == t[q]);
            }
            assert(u[q].2.contains(x));
        }
    } else {
        assert(u[p] == (name, seq![cell], seq![at]));
        assert(u[p].2[0] == at);
        assert(u[p].2.contains(at));
        assert forall|n: Seq<char>, x: (int, int)| listed_under(t, n, x) implies #[trigger] listed_under(u, n, x) by {
            let q = choose|q: int| 0 <= q < t.len() && t[q].0 == n && #[trigger] t[q].2.contains(x);
            if q < p {
                assert(u[q] == t[q]);
                assert(u[q].2.contains(x));
            } else {
                assert(u[q + 1] == t[q]);
                assert(u[q + 1].2.contains(x));
            }
        }
    }
}

proof fn lemma_add_lines_listed(t: Seq<ProductModel>, names: Seq<Seq<Seq<char>>>, k: int, j: int)
    requires
        0 <= j,
    ensures
        forall|i: int| 0 <= i < j ==> #[trigger] listed_under(add_lines(t, names, k, j), names[k][i], (k, i)),
        forall|n: Seq<char>, x: (int, int)| listed_under(t, n, x) ==> #[trigger] listed_under(add_lines(t, names, k, j), n, x),
    decreases j,
{
    if j > 0 {
        lemma_add_lines_listed(t, names, k, j - 1);
        let prev = add_lines(t, names, k, j - 1);
        let cell = Position { col: 2, row: line_row(counts_of(names), k, j - 1) as u32 };
        lemma_add_line_listed(prev, names[k][j - 1], cell, (k, j - 1));
        assert forall|i: int| 0 <= i < j implies #[trigger] listed_under(add_lines(t, names, k, j), names[k][i], (k, i)) by {
            if i < j - 1 {
                assert(listed_under(prev, names[k][i], (k, i)));
            }
        }
    }
}

/// Every line of every comand is listed under its product in the table.
pub proof fn law_every_line_listed(names: Seq<Seq<Seq<char>>>, k: int)
    requires
        0 <= k <= names.len(),
    ensures
        forall|a: int, i: int| 0 <= a < k && 0 <= i < names[a].len() ==> #[trigger] listed_under(
            table_after(names, k),
            names[a][i],
            (a, i),
        ),
    decreases k,
{
    if k > 0 {
        law_every_line_listed(names, k - 1);
        let prev = table_after(names, k - 1);
        lemma_add_lines_listed(prev, names, k - 1, names[k - 1].len() as int);
        assert forall|a: int, i: int| 0 <= a < k && 0 <= i < names[a].len() implies #[trigger] listed_under(
            table_after(names, k),
            names[a][i],
            (a, i),
        ) by {
            if a < k - 1 {
                assert(listed_under(prev, names[a][i], (a, i)));
            }
        }
    }
}

/// Where the table keeps a name: its index, if it is there.
fn table_index(table: &Vec<ProductRows>, name: &Vec<char>) -> (res: usize)
    requires
        table_sorted(table_model(table@)),
    ensures
        res == table_pos(table_model(table@), name@),
{
    let ghost t = table_model(table@);
    proof {
        lemma_table_pos(t, name@);
    }
    let mut p: usize = 0;
    assert(t.skip(0) =~= t);
    while p < table.len() && lex_less(&chars_of(table[p].name.as_str()), name)
        invariant
            0 <= p <= table.len(),
            t == table_model(table@),
            table_pos(t, name@) == p + table_pos(t.skip(p as int), name@),
        decreases table.len() - p,
    {
        assert(t.skip(p as int)[0] == t[p as int]);
        assert(t.skip(p as int).drop_first() =~= t.skip(p + 1));
        p += 1;
    }
    proof {
        if p < table.len() {
            assert(t.skip(p as int)[0] == t[p as int]);
        }
        assert(table_pos(t.skip(p as int), name@) == 0);
    }
    p
}

/// Adds one line of product `name` to the table.
fn add_table_line(table: &mut Vec<ProductRows>, name: &String, cell: Position, at: (usize, usize))
    requires
        table_sorted(table_model(old(table)@)),
    ensures
        table_model(final(table)@) == add_line(table_model(old(table)@), name@, cell, (at.0 as int, at.1 as int)),
        table_sorted(table_model(final(table)@)),
{
    let ghost t = table_model(table@);
    let ghost atv = (at.0 as int, at.1 as int);
    proof {
        lemma_add_line_sorted(t, name@, cell, atv);
        lemma_table_pos(t, name@);
    }
    let nc = chars_of(name.as_str());
    let p = table_index(table, &nc);
    let found = p < table.len() && same_chars(&chars_of(table[p].name.as_str()), &nc);
    if found {
        assert(t[p as int].0 == name@);
        let mut entry = table.remove(p);
        let ghost before = product_model(entry);
        entry.cells.push(cell);
        entry.lines.push(at);
        assert(product_model(entry).2 =~= before.2.push(atv));
        assert(product_model(entry) =~= (name@, before.1.push(cell), before.2.push(atv)));
        table.insert(p, entry);
        assert(table_model(table@) =~= t.update(p as int, (name@, t[p as int].1.push(cell), t[p as int].2.push(atv))));
    } else {
        let mut cells = Positions::default();
        cells.push(cell);
        let mut lines: Vec<(usize, usize)> = Vec::new();
        lines.push(at);
        let entry = ProductRows { name: name.clone(), cells, lines };
        assert(product_model(entry).2 =~= seq![atv]);
        assert(product_model(entry) =~= (name@, seq![cell], seq![atv]));
        table.insert(p, entry);
        assert(table_model(table@) =~= t.insert(p as int, (name@, seq![cell], seq![atv])));
    }
}

/// The layout of the report of these comands, given the product name of
/// each line of each comand.
pub fn export_layout(names: &Vec<Vec<String>>) -> (res: ExportLayout)
    requires
        layout_fits(names_model(names@)),
    ensures
        res.comands@.len() == names@.len(),
        forall|k: int| 0 <= k < names@.len() ==> {
            let c = #[trigger] res.comands@[k];
            let counts = counts_of(names_model(names@));
            &&& c.title_row == start_row(counts, k)
            &&& c.first_line_row == start_row(counts, k) + 2
            &&& c.total_row == total_row(counts, k)
            &&& c.line_totals.vec@ == Seq::new(
                counts[k],
                |j: int| Position { col: 4, row: line_row(counts, k, j) as u32 },
            )
        },
        res.totals.vec@ == Seq::new(
            names@.len(),
            |k: int| Position { col: 3, row: total_row(counts_of(names_model(names@)), k) as u32 },
        ),
        table_model(res.products@) == table_after(names_model(names@), names@.len() as int),
{
    let ghost nm = names_model(names@);
    let ghost counts = counts_of(nm);
    let mut comands: Vec<ComandRows> = Vec::new();
    let mut totals = Positions::default();
    let mut table: Vec<ProductRows> = Vec::new();
    let mut row: u32 = 1;
    assert(table_model(table@) =~= Seq::<ProductModel>::empty());
    for k in 0..names.len()
        invariant
            nm == names_model(names@),
            counts == counts_of(nm),
            layout_fits(nm),
            row == start_row(counts, k as int),
            comands@.len() == k,
            forall|i: int| 0 <= i < k ==> {
                let c = #[trigger] comands@[i];
                &&& c.title_row == start_row(counts, i)
                &&& c.first_line_row == start_row(counts, i) + 2
                &&& c.total_row == total_row(counts, i)
                &&& c.line_totals.vec@ == Seq::new(
                    counts[i],
                    |j: int| Position { col: 4, row: line_row(counts, i, j) as u32 },
                )
            },
            totals.vec@ == Seq::new(k as nat, |i: int| Position { col: 3, row: total_row(counts, i) as u32 }),
            table_model(table@) == table_after(nm, k as int),
            table_sorted(table_model(table@)),
    {
        proof {
            lemma_start_row_grows(counts, k as int, names@.len() as int);
            law_product_table_sorted(nm, k as int);
        }
        assert(nm[k as int] == strings_view(names@[k as int]@));
        let title_row = row;
        row += 2;
        let first_line_row = row;
        let mut line_totals = Positions::default();
        let n = names[k].len();
        let ghost t0 = table_model(table@);
        for j in 0..n
            invariant
                nm == names_model(names@),
                counts == counts_of(nm),
                n == names@[k as int]@.len(),
                n == counts[k as int],
                k < names@.len(),
                start_row(counts, k as int) + n + 4 <= start_row(counts, names@.len() as int),
                layout_fits(nm),
                row == start_row(counts, k as int) + 2 + j,
                line_totals.vec@ == Seq::new(j as nat, |i: int| Position { col: 4, row: line_row(counts, k as int, i) as u32 }),
                t0 == table_after(nm, k as int),
                table_model(table@) == add_lines(t0, nm, k as int, j as int),
                table_sorted(table_model(table@)),
        {
            assert(nm[k as int][j as int] == names@[k as int]@[j as int]@);
            let ghost before_totals = line_totals.vec@;
            line_totals.push(Position { col: 4, row: row });
            assert(line_totals.vec@ =~= Seq::new((j + 1) as nat, |i: int| Position { col: 4, row: line_row(counts, k as int, i) as u32 }));
            add_table_line(&mut table, &names[k][j], Position { col: 2, row: row }, (k, j));
            row += 1;
        }
        let total = row;
        totals.push(Position { col: 3, row: total });
        assert(totals.vec@ =~= Seq::new((k + 1) as nat, |i: int| Position { col: 3, row: total_row(counts, i) as u32 }));
        row += 2;
        comands.push(ComandRows { title_row, first_line_row, total_row: total, line_totals });
        assert(table_after(nm, k + 1) == add_lines(table_after(nm, k as int), nm, k as int, nm[k as int].len() as int));
    }
    ExportLayout { comands, totals, products: table }
}

/// Each product's quantity cells follow its lines: one cell per line, the
/// cell of line `(a, i)` being column C of that line's row.
pub open spec fn cells_follow_lines(t: Seq<ProductModel>, counts: Seq<nat>) -> bool {
    forall|p: int| 0 <= p < t.len() ==> {
        &&& (#[trigger] t[p]).1.len() == t[p].2.len()
        &&& forall|m: int| 0 <= m < t[p].1.len() ==> t[p].1[m] == Position {
            col: 2,
            row: line_row(counts, t[p].2[m].0, t[p].2[m].1) as u32,
        }
    }
}

proof fn lemma_add_line_cells(t: Seq<ProductModel>, counts: Seq<nat>, name: Seq<char>, cell: Position, at: (int, int))
    requires
        cells_follow_lines(t, counts),
        cell == (Position { col: 2, row: line_row(counts, at.0, at.1) as u32 }),
    ensures
        cells_follow_lines(add_line(t, name, cell, at), counts),
{
    let p = table_pos(t, name);
    let r = add_line(t, name, cell, at);
    lemma_table_pos_bounds(t, name);
    if p < t.len() && t[p].0 == name {
        assert forall|q: int| 0 <= q < r.len() implies {
            &&& (#[trigger] r[q]).1.len() == r[q].2.len()
            &&& forall|m: int| 0 <= m < r[q].1.len() ==> r[q].1[m] == Position {
                col: 2,
                row: line_row(counts, r[q].2[m].0, r[q].2[m].1) as u32,
            }
        } by {
            if q == p {
                assert(t[p].1.len() == t[p].2.len());
                assert forall|m: int| 0 <= m < r[q].1.len() implies r[q].1[m] == Position {
                    col: 2,
                    row: line_row(counts, r[q].2[m].0, r[q].2[m].1) as u32,
                } by {
                    if m < t[p].1.len() {
                        assert(r[q].1[m] == t[p].1[m]);
                        assert(r[q].2[m] == t[p].2[m]);
                    }
                }
            } else {
                assert(r[q] == t[q]);
            }
        }
    } else {
        assert forall|q: int| 0 <= q < r.len() implies {
            &&& (#[trigger] r[q]).1.len() == r[q].2.len()
            &&& forall|m: int| 0 <= m < r[q].1.len() ==> r[q].1[m] == Position {
                col: 2,
                row: line_row(counts, r[q].2[m].0, r[q].2[m].1) as u32,
            }
        } by {
            if q < p {
                assert(r[q] == t[q]);
            } else if q > p {
                assert(r[q] == t[q - 1]);
            }
        }
    }
}

proof fn lemma_table_pos_bounds(t: Seq<ProductModel>, name: Seq<char>)
    ensures
        0 <= table_pos(t, name) <= t.len(),
    decreases t.len(),
{
    if t.len() > 0 && lex_lt(t[0].0, name) {
        lemma_table_pos_bounds(t.drop_first(), name);
    }
}

proof fn lemma_add_lines_cells(t: Seq<ProductModel>, names: Seq<Seq<Seq<char>>>, k: int, j: int)
    requires
        cells_follow_lines(t, counts_of(names)),
    ensures
        cells_follow_lines(add_lines(t, names, k, j), counts_of(names)),
    decreases j,
{
    if j > 0 {
        lemma_add_lines_cells(t, names, k, j - 1);
        lemma_add_line_cells(
            add_lines(t, names, k, j - 1),
            counts_of(names),
            names[k][j - 1],
            Position { col: 2, row: line_row(counts_of(names), k, j - 1) as u32 },
            (k, j - 1),
        );
    }
}

/// In the product table after any number of comands, every product has one
/// quantity cell per line it is sold on, and the cell of line `j` of comand
/// `a` is column C of that line's row: the report's sum of a product's
/// quantities takes every line of it.
pub proof fn law_every_line_has_its_cell(names: Seq<Seq<Seq<char>>>, k: int)
    ensures
        cells_follow_lines(table_after(names, k), counts_of(names)),
    decreases k,
{
    if k > 0 {
        law_every_line_has_its_cell(names, k - 1);
        lemma_add_lines_cells(table_after(names, k - 1), names, k - 1, names[k - 1].len() as int);
    }
}

} // verus!
