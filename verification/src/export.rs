//! The day's report: reading the cache of saved comands, the cell names and
//! formulas of the spreadsheet, and the name of the exported file.
use vstd::prelude::*;
use crate::payment::{Payment, payment_label, payment_of_label};
use crate::text::{
    chars_of, decimal, extend, lines, lines_chars, push_decimal, push_str, remove_all,
    remove_all_chars, same_chars, split, split_chars, string_of, trim, trim_chars, views,
};

verus! {

// ---------------------------------------------------------------------------
// Reading the cache of saved comands
// ---------------------------------------------------------------------------

/// A product line of a saved comand: its name and its three number fields,
/// the prices without their `R$`.
#[derive(Debug)]
pub struct RawValue {
    pub name: String,
    pub quantity: String,
    pub unit_price: String,
    pub total: String,
}

/// A saved comand as read from the cache, before its numbers are read:
/// its name, its product lines, the total field of each total line (the last
/// one is the comand's total; none leaves the total at zero) and the payment.
#[derive(Debug)]
pub struct RawComand {
    pub name: String,
    pub values: Vec<RawValue>,
    pub totals: Vec<String>,
    pub payment: Payment,
}

/// A saved comand as text.
pub struct ComandModel {
    pub name: Seq<char>,
    pub values: Seq<(Seq<char>, Seq<char>, Seq<char>, Seq<char>)>,
    pub totals: Seq<Seq<char>>,
    pub payment: Payment,
}

pub open spec fn value_view(v: RawValue) -> (Seq<char>, Seq<char>, Seq<char>, Seq<char>) {
    (v.name@, v.quantity@, v.unit_price@, v.total@)
}

pub open spec fn comand_view(c: RawComand) -> ComandModel {
    ComandModel {
        name: c.name@,
        values: Seq::new(c.values@.len(), |i: int| value_view(c.values@[i])),
        totals: Seq::new(c.totals@.len(), |i: int| c.totals@[i]@),
        payment: c.payment,
    }
}

pub open spec fn comands_view(v: Seq<RawComand>) -> Seq<ComandModel> {
    Seq::new(v.len(), |i: int| comand_view(v[i]))
}

/// A comand with nothing read yet.
pub open spec fn empty_comand() -> ComandModel {
    ComandModel {
        name: Seq::empty(),
        values: Seq::empty(),
        totals: Seq::empty(),
        payment: Payment::NotSelected,
    }
}

/// The heading line of each comand in the cache.
pub open spec fn heading() -> Seq<char> {
    "Pedido,Unidades,Unitario,Total"@
}

/// The currency mark removed from prices.
pub open spec fn currency() -> Seq<char> {
    "R$"@
}

/// What a trimmed, non-empty, non-heading line adds to the comand being
/// read: four fields are a product line, three fields are the total line
/// (payment label and total), anything else is the comand's name.
pub open spec fn read_line(c: ComandModel, t: Seq<char>) -> ComandModel {
    let f = split(t, ',');
    if f.len() == 4 {
        ComandModel {
            values: c.values.push(
                (f[0], f[1], remove_all(f[2], currency()), remove_all(f[3], currency())),
            ),
            ..c
        }
    } else if f.len() == 3 {
        ComandModel {
            payment: payment_of_label(f[1]),
            totals: c.totals.push(remove_all(f[2], currency())),
            ..c
        }
    } else {
        ComandModel { name: t, ..c }
    }
}

/// What one more line does to the reading (the comands closed so far and
/// the one being read): once trimmed, an empty line closes the comand being
/// read, the heading is skipped, and any other line adds to the comand.
pub open spec fn read_step(st: (Seq<ComandModel>, ComandModel), line: Seq<char>) -> (Seq<ComandModel>, ComandModel) {
    let t = trim(line);
    if t.len() == 0 {
        (st.0.push(st.1), empty_comand())
    } else if t == heading() {
        st
    } else {
        (st.0, read_line(st.1, t))
    }
}

/// Reads the lines in order: the comands closed so far and the one being
/// read.
pub open spec fn comands_of_lines(ls: Seq<Seq<char>>) -> (Seq<ComandModel>, ComandModel)
    decreases ls.len(),
{
    if ls.len() == 0 {
        (Seq::empty(), empty_comand())
    } else {
        read_step(comands_of_lines(ls.drop_last()), ls.last())
    }
}

/// The comands of the cache: those closed by an empty line (a comand after
/// the last empty line is not read).
pub open spec fn comands_of(s: Seq<char>) -> Seq<ComandModel> {
    comands_of_lines(lines(s)).0
}

fn new_comand() -> (res: RawComand)
    ensures
        comand_view(res) == empty_comand(),
{
    let res = RawComand {
        name: String::new(),
        values: Vec::new(),
        totals: Vec::new(),
        payment: Payment::NotSelected,
    };
    assert(comand_view(res).values =~= Seq::<(Seq<char>, Seq<char>, Seq<char>, Seq<char>)>::empty());
    assert(comand_view(res).totals =~= Seq::<Seq<char>>::empty());
    res
}

/// Reads the cache of saved comands (see `comands_of`).
pub fn get_comands(contents: &str) -> (res: Vec<RawComand>)
    ensures
        comands_view(res@) == comands_of(contents@),
{
    let c = chars_of(contents);
    let ls = lines_chars(&c);
    let ghost lv = lines(contents@);
    let head = chars_of("Pedido,Unidades,Unitario,Total");
    let mark = chars_of("R$");
    let mut comands: Vec<RawComand> = Vec::new();
    let mut comand = new_comand();
    assert(lv.take(0) =~= Seq::<Seq<char>>::empty());
    assert(comands_view(comands@) =~= Seq::<ComandModel>::empty());
    for k in 0..ls.len()
        invariant
            views(ls@) == lv,
            lv == lines(contents@),
            head@ == heading(),
            mark@ == currency(),
            comands_of_lines(lv.take(k as int)) == (comands_view(comands@), comand_view(comand)),
    {
        assert(lv.take(k + 1).drop_last() =~= lv.take(k as int));
        assert(lv.take(k + 1).last() == ls@[k as int]@);
        let line = trim_chars(&ls[k]);
        if line.len() == 0 {
            let ghost before = comands_view(comands@);
            let ghost cur = comand_view(comand);
            comands.push(comand);
            comand = new_comand();
            assert(comands_view(comands@) =~= before.push(cur));
        } else if same_chars(&line, &head) {
        } else {
            comand = read_into(comand, &line, &mark);
        }
    }
    assert(lv.take(ls.len() as int) =~= lv);
    comands
}

/// Adds what the line says to the comand being read.
fn read_into(comand: RawComand, line: &Vec<char>, mark: &Vec<char>) -> (res: RawComand)
    requires
        mark@ == currency(),
    ensures
        comand_view(res) == read_line(comand_view(comand), line@),
{
    let ghost before = comand_view(comand);
    let mut comand = comand;
    let f = split_chars(line, ',');
    if f.len() == 4 {
        let price = remove_all_chars(&f[2], mark);
        let total = remove_all_chars(&f[3], mark);
        let v = RawValue {
            name: string_of(&f[0]),
            quantity: string_of(&f[1]),
            unit_price: string_of(&price),
            total: string_of(&total),
        };
        let ghost vv = value_view(v);
        comand.values.push(v);
        assert(comand_view(comand).values =~= before.values.push(vv));
    } else if f.len() == 3 {
        let label = string_of(&f[1]);
        comand.payment = Payment::from_label(label.as_str());
        let total = remove_all_chars(&f[2], mark);
        let t = string_of(&total);
        comand.totals.push(t);
        assert(comand_view(comand).totals =~= before.totals.push(t@));
    } else {
        comand.name = string_of(line);
    }
    comand
}

// ---------------------------------------------------------------------------
// Cells and formulas
// ---------------------------------------------------------------------------

/// A spreadsheet cell: column (0 is `A`) and row (0 is row 1).
#[derive(Clone, Copy, Debug, PartialEq, Eq, Structural)]
pub struct Position {
    pub col: u8,
    pub row: u32,
}

/// The letter of a column.
pub open spec fn column_letter(col: u8) -> char {
    ((col as int) + 65) as char
}

/// The name of a cell, such as `B3`.
pub open spec fn cell_name(p: Position) -> Seq<char> {
    seq![column_letter(p.col)] + decimal((p.row + 1) as nat)
}

/// A cell whose name can be written (the column stays a byte after adding
/// the letter offset and the row number stays a `u32`).
pub open spec fn nameable(p: Position) -> bool {
    p.col <= 190 && p.row < u32::MAX
}

/// The cells' names separated by commas.
pub open spec fn cells_text(ps: Seq<Position>) -> Seq<char>
    decreases ps.len(),
{
    if ps.len() == 0 {
        Seq::empty()
    } else if ps.len() == 1 {
        cell_name(ps[0])
    } else {
        cells_text(ps.drop_last()) + seq![','] + cell_name(ps.last())
    }
}

impl Position {
    /// The cell at `(col, row)`; the column keeps its low byte.
    pub fn from_pair(value: (u16, u32)) -> (res: Position)
        ensures
            res.col == value.0 as u8,
            res.row == value.1,
    {
        Position { col: value.0 as u8, row: value.1 }
    }

    /// The cell's name (`to_string`).
    pub fn to_string(&self) -> (res: String)
        requires
            nameable(*self),
        ensures
            res@ == cell_name(*self),
    {
        let mut out: Vec<char> = Vec::new();
        out.push(letter(self.col));
        push_decimal(&mut out, (self.row + 1) as u64);
        string_of(&out)
    }

    fn push_name(&self, out: &mut Vec<char>)
        requires
            nameable(*self),
        ensures
            final(out)@ == old(out)@ + cell_name(*self),
    {
        let ghost before = out@;
        out.push(letter(self.col));
        push_decimal(out, (self.row + 1) as u64);
        assert(out@ =~= before + cell_name(*self));
    }
}

impl From<(u16, u32)> for Position {
    fn from(value: (u16, u32)) -> (res: Position) {
        Position::from_pair(value)
    }
}

impl vstd::std_specs::convert::FromSpecImpl<(u16, u32)> for Position {
    open spec fn obeys_from_spec() -> bool {
        true
    }

    open spec fn from_spec(v: (u16, u32)) -> Position {
        Position { col: v.0 as u8, row: v.1 }
    }
}

/// The letter of column `col`.
fn letter(col: u8) -> (c: char)
    requires
        col <= 190,
    ensures
        c == column_letter(col),
{
    ((col + 65) as u8) as char
}

/// A list of cells, as a formula names them.
#[derive(Debug)]
pub struct Positions {
    pub vec: Vec<Position>,
}

impl Positions {
    /// No cells.
    pub fn default() -> (res: Positions)
        ensures
            res.vec@ == Seq::<Position>::empty(),
    {
        Positions { vec: Vec::new() }
    }

    /// Adds a cell at the end.
    pub fn push(&mut self, p: Position)
        ensures
            final(self).vec@ == old(self).vec@.push(p),
    {
        self.vec.push(p);
    }

    /// The cells' names separated by commas (`to_string`).
    pub fn to_string(&self) -> (res: String)
        requires
            forall|i: int| 0 <= i < self.vec@.len() ==> nameable(#[trigger] self.vec@[i]),
        ensures
            res@ == cells_text(self.vec@),
    {
        let out = self.names();
        string_of(&out)
    }

    fn names(&self) -> (res: Vec<char>)
        requires
            forall|i: int| 0 <= i < self.vec@.len() ==> nameable(#[trigger] self.vec@[i]),
        ensures
            res@ == cells_text(self.vec@),
    {
        let mut out: Vec<char> = Vec::new();
        let ghost ps = self.vec@;
        assert(ps.take(0) =~= Seq::<Position>::empty());
        for k in 0..self.vec.len()
            invariant
                ps == self.vec@,
                forall|i: int| 0 <= i < ps.len() ==> nameable(#[trigger] ps[i]),
                out@ == cells_text(ps.take(k as int)),
        {
            let ghost before = out@;
            assert(ps.take(k + 1).drop_last() =~= ps.take(k as int));
            assert(ps.take(k + 1).last() == ps[k as int]);
            if k > 0 {
                out.push(',');
            }
            assert(nameable(ps[k as int]));
            self.vec[k].push_name(&mut out);
            if k == 0 {
                assert(out@ =~= cell_name(ps[0]));
            } else {
                assert(out@ =~= before + seq![','] + cell_name(ps[k as int]));
            }
        }
        assert(ps.take(self.vec.len() as int) =~= ps);
        out
    }
}

/// `=SUM(cells)`: the sum of the cells.
pub open spec fn sum_formula_text(ps: Seq<Position>) -> Seq<char> {
    "=SUM("@ + cells_text(ps) + ")"@
}

/// `=a*b`: the product of two cells.
pub open spec fn product_formula_text(a: Position, b: Position) -> Seq<char> {
    seq!['='] + cell_name(a) + seq!['*'] + cell_name(b)
}

/// The term of a payment total for one comand's total cell: the comand's
/// total counts when the cell left of it names the payment.
pub open spec fn sumif_term(p: Position, ty: Payment) -> Seq<char> {
    "SUMIF("@ + cell_name(Position { col: (p.col - 1) as u8, row: p.row }) + ",\""@
        + payment_label(ty) + "\","@ + cell_name(p) + ")"@
}

/// The terms joined with `+`.
pub open spec fn sumif_terms(ps: Seq<Position>, ty: Payment) -> Seq<char>
    decreases ps.len(),
{
    if ps.len() == 0 {
        Seq::empty()
    } else if ps.len() == 1 {
        sumif_term(ps[0], ty)
    } else {
        sumif_terms(ps.drop_last(), ty) + seq!['+'] + sumif_term(ps.last(), ty)
    }
}

/// The formula of a payment method's total: `=` and the terms, or nothing
/// when there are no comands.
pub open spec fn payment_formula_text(ps: Seq<Position>, ty: Payment) -> Seq<char> {
    if ps.len() == 0 {
        Seq::empty()
    } else {
        seq!['='] + sumif_terms(ps, ty)
    }
}

/// A total cell whose payment cell, one column to the left, can be named.
pub open spec fn total_cell(p: Position) -> bool {
    1 <= p.col <= 190 && p.row < u32::MAX
}

/// Appends the payment term of one total cell.
fn push_sumif_term(out: &mut Vec<char>, p: Position, ty: Payment)
    requires
        total_cell(p),
    ensures
        final(out)@ == old(out)@ + sumif_term(p, ty),
{
    let ghost before = out@;
    let method = Position::from_pair(((p.col - 1) as u16, p.row));
    assert(method == Position { col: (p.col - 1) as u8, row: p.row });
    push_str(out, "SUMIF(");
    method.push_name(out);
    push_str(out, ",\"");
    push_str(out, ty.to_string());
    push_str(out, "\",");
    p.push_name(out);
    push_str(out, ")");
    assert(out@ =~= before + sumif_term(p, ty));
}

/// The formula that sums the cells.
pub fn sum_formula(ps: &Positions) -> (res: String)
    requires
        forall|i: int| 0 <= i < ps.vec@.len() ==> nameable(#[trigger] ps.vec@[i]),
    ensures
        res@ == sum_formula_text(ps.vec@),
{
    let mut out = chars_of("=SUM(");
    let names = ps.names();
    extend(&mut out, &names);
    push_str(&mut out, ")");
    string_of(&out)
}

/// The formula that multiplies two cells.
pub fn product_formula(a: Position, b: Position) -> (res: String)
    requires
        nameable(a),
        nameable(b),
    ensures
        res@ == product_formula_text(a, b),
{
    let mut out: Vec<char> = Vec::new();
    out.push('=');
    a.push_name(&mut out);
    out.push('*');
    b.push_name(&mut out);
    string_of(&out)
}

/// The formula of a payment method's total over the comands' total cells.
pub fn payment_formula(total_pos: &Positions, ty: Payment) -> (res: String)
    requires
        forall|i: int| 0 <= i < total_pos.vec@.len() ==> total_cell(#[trigger] total_pos.vec@[i]),
    ensures
        res@ == payment_formula_text(total_pos.vec@, ty),
{
    let mut out: Vec<char> = Vec::new();
    let ghost ps = total_pos.vec@;
    if total_pos.vec.len() == 0 {
        return string_of(&out);
    }
    out.push('=');
    assert(ps.take(0) =~= Seq::<Position>::empty());
    for k in 0..total_pos.vec.len()
        invariant
            ps == total_pos.vec@,
            ps.len() > 0,
            forall|i: int| 0 <= i < ps.len() ==> total_cell(#[trigger] ps[i]),
            out@ == seq!['='] + sumif_terms(ps.take(k as int), ty),
    {
        let ghost before = out@;
        assert(ps.take(k + 1).drop_last() =~= ps.take(k as int));
        assert(ps.take(k + 1).last() == ps[k as int]);
        if k > 0 {
            out.push('+');
        }
        assert(total_cell(ps[k as int]));
        push_sumif_term(&mut out, total_pos.vec[k], ty);
        if k == 0 {
            assert(out@ =~= seq!['='] + sumif_term(ps[0], ty));
            assert(sumif_terms(ps.take(1), ty) == sumif_term(ps[0], ty));
        } else {
            assert(out@ =~= before + seq!['+'] + sumif_term(ps[k as int], ty));
        }
    }
    assert(ps.take(total_pos.vec.len() as int) =~= ps);
    string_of(&out)
}

// ---------------------------------------------------------------------------
// The exported file's name
// ---------------------------------------------------------------------------

/// The decimal text of a signed number.
pub open spec fn signed_decimal(n: int) -> Seq<char> {
    if n < 0 {
        seq!['-'] + decimal((-n) as nat)
    } else {
        decimal(n as nat)
    }
}

/// The name offered for the day's report: `day-month-yy` with the year
/// text after its first two characters.
pub open spec fn export_stem(day: u32, month: u32, year: i32) -> Seq<char> {
    decimal(day as nat) + seq!['-'] + decimal(month as nat) + seq!['-'] + signed_decimal(
        year as int,
    ).skip(2)
}

/// The report's file name: the stem and `.xlsx`.
pub open spec fn export_name_text(day: u32, month: u32, year: i32) -> Seq<char> {
    export_stem(day, month, year) + ".xlsx"@
}

/// The name of the day's report for a date.
pub fn export_file_name(day: u32, month: u32, year: i32) -> (res: String)
    requires
        signed_decimal(year as int).len() >= 2,
    ensures
        res@ == export_name_text(day, month, year),
{
    let mut y: Vec<char> = Vec::new();
    if year < 0 {
        y.push('-');
        let m: i64 = -(year as i64);
        push_decimal(&mut y, m as u64);
    } else {
        push_decimal(&mut y, year as u64);
    }
    assert(y@ =~= signed_decimal(year as int));
    let mut out: Vec<char> = Vec::new();
    push_decimal(&mut out, day as u64);
    out.push('-');
    push_decimal(&mut out, month as u64);
    out.push('-');
    let last = crate::text::slice(&y, 2, y.len());
    extend(&mut out, &last);
    push_str(&mut out, ".xlsx");
    assert(out@ =~= export_name_text(day, month, year));
    string_of(&out)
}

} // verus!
