//! Writing a finished comand to the cache of saved comands, in the text that
//! the day's report reads back (see `export::comands_of`).
use vstd::prelude::*;
use crate::export::{
    comands_of, comands_of_lines, currency, empty_comand, heading, read_line, read_step, ComandModel,
};
use crate::payment::{Payment, payment_label, payment_of_label, law_label_round_trip};
use crate::text::{
    push_decimal, push_str, string_of, contains_text, decimal, free_of, is_digit, is_ws, lemma_decimal_digits, lemma_split_concat,
    lemma_split_free, lemma_split_len, lemma_split_text_of_lines, lines, plain_line, remove_all,
    split, strip_cr, text_of_lines, trim, trim_end, trim_start,
};

verus! {

/// A product line to save: its name, how many, and the unit price and the
/// line's total as text (the prices are written by the caller).
pub type SavedLineModel = (Seq<char>, u32, Seq<char>, Seq<char>);

/// The line of a product: `name,quantity,R$unit,R$total`.
pub open spec fn value_line(l: SavedLineModel) -> Seq<char> {
    l.0 + seq![','] + decimal(l.1 as nat) + ",R$"@ + l.2 + ",R$"@ + l.3
}

/// The total line: `total,payment,R$total`.
pub open spec fn total_line(p: Payment, total: Seq<char>) -> Seq<char> {
    "total,"@ + payment_label(p) + ",R$"@ + total
}

/// The lines of a saved comand: its name, the heading, a line per product,
/// the total line and an empty line.
pub open spec fn saved_lines(name: Seq<char>, ls: Seq<SavedLineModel>, p: Payment, total: Seq<char>) -> Seq<Seq<char>> {
    seq![name, heading()] + Seq::new(ls.len(), |i: int| value_line(ls[i])) + seq![
        total_line(p, total),
        Seq::empty(),
    ]
}

/// The text a saved comand adds to the cache.
pub open spec fn saved_text(name: Seq<char>, ls: Seq<SavedLineModel>, p: Payment, total: Seq<char>) -> Seq<char> {
    text_of_lines(saved_lines(name, ls, p, total))
}

/// A product line as the report reads it: the quantity as text.
pub open spec fn line_model(l: SavedLineModel) -> (Seq<char>, Seq<char>, Seq<char>, Seq<char>) {
    (l.0, decimal(l.1 as nat), l.2, l.3)
}

/// The comand that reading the text back gives: the name trimmed, each
/// product line with its quantity as text, the total and the payment.
pub open spec fn saved_model(name: Seq<char>, ls: Seq<SavedLineModel>, p: Payment, total: Seq<char>) -> ComandModel {
    ComandModel {
        name: trim(name),
        values: Seq::new(ls.len(), |i: int| line_model(ls[i])),
        totals: seq![total],
        payment: p,
    }
}

/// A field between commas that reads back as written: no comma, no line
/// break and no currency mark in it.
pub open spec fn plain_field(s: Seq<char>) -> bool {
    free_of(s, ',') && free_of(s, '\n') && !contains_text(s, currency())
}

/// A field at the end of a line that reads back as written: a plain field
/// that ends in no whitespace.
pub open spec fn last_field(s: Seq<char>) -> bool {
    plain_field(s) && (s.len() == 0 || !is_ws(s.last()))
}

/// A product line that reads back as written: its name holds no comma and
/// no line break and starts with no whitespace; its prices are plain and
/// the total ends in no whitespace.
pub open spec fn storable_line(l: SavedLineModel) -> bool {
    &&& free_of(l.0, ',')
    &&& free_of(l.0, '\n')
    &&& (l.0.len() == 0 || !is_ws(l.0[0]))
    &&& plain_field(l.2)
    &&& last_field(l.3)
}

/// A comand that reads back as written: its name holds no comma and no line
/// break, ends in no carriage return and is not blank; its lines and total
/// read back too.
pub open spec fn storable_comand(name: Seq<char>, ls: Seq<SavedLineModel>, total: Seq<char>) -> bool {
    &&& free_of(name, ',')
    &&& plain_line(name)
    &&& trim(name).len() > 0
    &&& forall|i: int| 0 <= i < ls.len() ==> storable_line(#[trigger] ls[i])
    &&& last_field(total)
}

// ---------------------------------------------------------------------------
// Reading a saved comand back
// ---------------------------------------------------------------------------

proof fn lemma_free_trim(s: Seq<char>, c: char)
    requires
        free_of(s, c),
    ensures
        free_of(trim_start(s), c),
        free_of(trim_end(s), c),
        free_of(trim(s), c),
    decreases s.len(),
{
    if s.len() > 0 {
        assert(free_of(s.drop_first(), c)) by {
            assert forall|i: int| 0 <= i < s.drop_first().len() implies s.drop_first()[i] != c by {
                assert(s.drop_first()[i] == s[i + 1]);
            }
        }
        assert(free_of(s.drop_last(), c)) by {
            assert forall|i: int| 0 <= i < s.drop_last().len() implies s.drop_last()[i] != c by {
                assert(s.drop_last()[i] == s[i]);
            }
        }
        lemma_free_trim(s.drop_first(), c);
        lemma_free_trim(s.drop_last(), c);
    }
    if free_of(trim_start(s), c) {
        lemma_free_trim_end(trim_start(s), c);
    }
}

proof fn lemma_free_trim_end(s: Seq<char>, c: char)
    requires
        free_of(s, c),
    ensures
        free_of(trim_end(s), c),
    decreases s.len(),
{
    if s.len() > 0 {
        assert(free_of(s.drop_last(), c)) by {
            assert forall|i: int| 0 <= i < s.drop_last().len() implies s.drop_last()[i] != c by {
                assert(s.drop_last()[i] == s[i]);
            }
        }
        lemma_free_trim_end(s.drop_last(), c);
    }
}

/// Removing every occurrence of a pattern from a text that holds none
/// leaves the text as it is.
proof fn lemma_remove_absent(s: Seq<char>, pat: Seq<char>)
    requires
        pat.len() > 0,
        !contains_text(s, pat),
    ensures
        remove_all(s, pat) == s,
    decreases s.len(),
{
    if s.len() > 0 {
        if pat.len() <= s.len() && s.take(pat.len() as int) == pat {
            assert(s.subrange(0int, 0int + pat.len()) == pat);
        } else {
            let t = s.drop_first();
            assert(!contains_text(t, pat)) by {
                if contains_text(t, pat) {
                    let i = choose|i: int| 0 <= i <= t.len() - pat.len() && #[trigger] t.subrange(i, i + pat.len()) == pat;
                    assert(s.subrange(i + 1, i + 1 + pat.len()) =~= t.subrange(i, i + pat.len()));
                }
            }
            lemma_remove_absent(t, pat);
            assert(seq![s[0]] + t =~= s);
        }
    }
}

/// A price after the currency mark reads back without the mark.
proof fn lemma_remove_mark(s: Seq<char>)
    requires
        !contains_text(s, currency()),
    ensures
        remove_all(currency() + s, currency()) == s,
{
    reveal_strlit("R$");
    let m = currency() + s;
    assert(m.take(2) =~= currency());
    assert(m.skip(2) =~= s);
    lemma_remove_absent(s, currency());
}

/// A text free of a character splits into itself.
proof fn lemma_free_join(a: Seq<char>, b: Seq<char>, c: char)
    requires
        free_of(a, c),
        free_of(b, c),
    ensures
        free_of(a + b, c),
{
    assert forall|i: int| 0 <= i < (a + b).len() implies (a + b)[i] != c by {
        if i < a.len() {
            assert((a + b)[i] == a[i]);
        } else {
            assert((a + b)[i] == b[i - a.len()]);
        }
    }
}

proof fn lemma_decimal_free(n: nat, c: char)
    requires
        !is_digit(c),
    ensures
        free_of(decimal(n), c),
{
    lemma_decimal_digits(n);
}

/// The fields of a product's line.
proof fn lemma_split_value_line(l: SavedLineModel)
    requires
        storable_line(l),
    ensures
        split(value_line(l), ',') == seq![l.0, decimal(l.1 as nat), currency() + l.2, currency() + l.3],
{
    reveal_strlit("R$");
    reveal_strlit(",R$");
    let d = decimal(l.1 as nat);
    let u = currency() + l.2;
    let t = currency() + l.3;
    lemma_decimal_free(l.1 as nat, ',');
    assert(free_of(currency(), ','));
    lemma_free_join(currency(), l.2, ',');
    lemma_free_join(currency(), l.3, ',');
    assert(value_line(l) =~= l.0.push(',') + (d.push(',') + (u.push(',') + t)));
    lemma_split_concat(u, t, ',');
    lemma_split_free(u, ',');
    lemma_split_free(t, ',');
    lemma_split_concat(d, u.push(',') + t, ',');
    lemma_split_free(d, ',');
    lemma_split_concat(l.0, d.push(',') + (u.push(',') + t), ',');
    lemma_split_free(l.0, ',');
    assert(seq![l.0] + (seq![d] + (seq![u] + seq![t])) =~= seq![l.0, d, u, t]);
}

/// Reading a product's line adds the product to the comand being read.
proof fn lemma_read_value_line(st: (Seq<ComandModel>, ComandModel), l: SavedLineModel)
    requires
        storable_line(l),
    ensures
        read_step(st, value_line(l)) == (st.0, ComandModel { values: st.1.values.push(line_model(l)), ..st.1 }),
{
    reveal_strlit("R$");
    reveal_strlit(",R$");
    reveal_strlit("Pedido,Unidades,Unitario,Total");
    let v = value_line(l);
    let d = decimal(l.1 as nat);
    lemma_decimal_digits(l.1 as nat);
    // the line keeps its ends when trimmed
    assert(v =~= l.0 + (seq![','] + d + ",R$"@ + l.2 + ",R$"@ + l.3));
    if l.0.len() > 0 {
        assert(v[0] == l.0[0]);
    } else {
        assert(v[0] == ',');
    }
    if l.3.len() > 0 {
        assert(v.last() == l.3.last());
    } else {
        assert(v.last() == '$');
    }
    assert(trim_start(v) == v);
    assert(trim_end(v) == v);
    // it is not the heading: the heading's first comma is its seventh
    // character, and a digit would follow it in a product's line
    let h = heading();
    if v == h {
        assert(h[6] == ',');
        assert(forall|i: int| 0 <= i < 6 ==> h[i] != ',');
        assert(v[l.0.len() as int] == ',');
        if l.0.len() > 6 {
            assert(v[6] == l.0[6]);
        } else if l.0.len() < 6 {
            assert(h[l.0.len() as int] != ',');
        } else {
            assert(v[7] == d[0]);
            assert(h[7] == 'U');
        }
    }
    lemma_split_value_line(l);
    lemma_remove_mark(l.2);
    lemma_remove_mark(l.3);
    assert(read_line(st.1, v).values =~= st.1.values.push(line_model(l)));
}

/// Reading the name line starts the comand with that name, trimmed.
proof fn lemma_read_name_line(done: Seq<ComandModel>, name: Seq<char>)
    requires
        free_of(name, ','),
        trim(name).len() > 0,
    ensures
        read_step((done, empty_comand()), name) == (done, ComandModel { name: trim(name), ..empty_comand() }),
{
    reveal_strlit("Pedido,Unidades,Unitario,Total");
    let t = trim(name);
    lemma_free_trim(name, ',');
    if t == heading() {
        assert(heading()[6] == ',');
        assert(t[6] == ',');
    }
    lemma_split_free(t, ',');
}

/// Reading the heading changes nothing.
proof fn lemma_read_heading(st: (Seq<ComandModel>, ComandModel))
    ensures
        read_step(st, heading()) == st,
{
    reveal_strlit("Pedido,Unidades,Unitario,Total");
    let h = heading();
    assert(h[0] == 'P');
    assert(h.last() == 'l');
    assert(trim_start(h) == h);
    assert(trim_end(h) == h);
}

proof fn lemma_label_free(p: Payment)
    ensures
        free_of(payment_label(p), ','),
{
    reveal_strlit("Débito");
    reveal_strlit("Crédito");
    reveal_strlit("Dinheiro");
    reveal_strlit("Pix");
    reveal_strlit("Metodo de pagamento");
}

/// Reading the total line sets the comand's payment and total.
proof fn lemma_read_total_line(st: (Seq<ComandModel>, ComandModel), p: Payment, total: Seq<char>)
    requires
        last_field(total),
    ensures
        read_step(st, total_line(p, total)) == (
            st.0,
            ComandModel { payment: p, totals: st.1.totals.push(total), ..st.1 },
        ),
{
    reveal_strlit("R$");
    reveal_strlit(",R$");
    reveal_strlit("total,");
    reveal_strlit("total");
    reveal_strlit("Pedido,Unidades,Unitario,Total");
    let label = payment_label(p);
    let m = currency() + total;
    let tl = total_line(p, total);
    assert(tl =~= "total"@.push(',') + (label.push(',') + m));
    assert(tl[0] == 't');
    if total.len() > 0 {
        assert(tl.last() == total.last());
    } else {
        assert(tl.last() == '$');
    }
    assert(trim_start(tl) == tl);
    assert(trim_end(tl) == tl);
    assert(tl != heading()) by {
        assert(heading()[0] == 'P');
    }
    lemma_label_free(p);
    assert(free_of(currency(), ','));
    lemma_free_join(currency(), total, ',');
    lemma_split_concat(label, m, ',');
    lemma_split_free(label, ',');
    lemma_split_free(m, ',');
    assert(free_of("total"@, ','));
    lemma_split_concat("total"@, label.push(',') + m, ',');
    lemma_split_free("total"@, ',');
    assert(split(tl, ',') =~= seq!["total"@, label, m]);
    law_label_round_trip(p);
    lemma_remove_mark(total);
    assert(read_line(st.1, tl).totals =~= st.1.totals.push(total));
}

/// Reading an empty line closes the comand being read.
proof fn lemma_read_empty(st: (Seq<ComandModel>, ComandModel))
    ensures
        read_step(st, Seq::empty()) == (st.0.push(st.1), empty_comand()),
{
}

/// Reading one more line is one more step.
proof fn lemma_read_push(ls: Seq<Seq<char>>, x: Seq<char>)
    ensures
        comands_of_lines(ls.push(x)) == read_step(comands_of_lines(ls), x),
{
    assert(ls.push(x).drop_last() =~= ls);
}

/// Reading the product lines of a saved comand adds the products in order.
proof fn lemma_read_values(base: Seq<Seq<char>>, ls: Seq<SavedLineModel>, k: int)
    requires
        0 <= k <= ls.len(),
        forall|i: int| 0 <= i < ls.len() ==> storable_line(#[trigger] ls[i]),
    ensures
        comands_of_lines(base + Seq::new(ls.len(), |i: int| value_line(ls[i])).take(k)) == (
            comands_of_lines(base).0,
            ComandModel {
                values: comands_of_lines(base).1.values + Seq::new(k as nat, |i: int| line_model(ls[i])),
                ..comands_of_lines(base).1
            },
        ),
    decreases k,
{
    let vls = Seq::new(ls.len(), |i: int| value_line(ls[i]));
    let st = comands_of_lines(base);
    if k == 0 {
        assert(base + vls.take(0) =~= base);
        assert(st.1.values + Seq::new(0nat, |i: int| line_model(ls[i])) =~= st.1.values);
    } else {
        lemma_read_values(base, ls, k - 1);
        assert(base + vls.take(k) =~= (base + vls.take(k - 1)).push(vls[k - 1]));
        lemma_read_push(base + vls.take(k - 1), vls[k - 1]);
        lemma_read_value_line(comands_of_lines(base + vls.take(k - 1)), ls[k - 1]);
        assert(st.1.values + Seq::new(k as nat, |i: int| line_model(ls[i])) =~= (st.1.values + Seq::new(
            (k - 1) as nat,
            |i: int| line_model(ls[i]),
        )).push(line_model(ls[k - 1])));
    }
}

/// The lines of a text that is empty or ends a line, followed by more
/// plain lines, are its lines and then those.
proof fn lemma_lines_append(a: Seq<char>, ls: Seq<Seq<char>>)
    requires
        a.len() == 0 || a.last() == '\n',
        forall|i: int| 0 <= i < ls.len() ==> plain_line(#[trigger] ls[i]),
    ensures
        lines(a + text_of_lines(ls)) == lines(a) + ls,
{
    let t = text_of_lines(ls);
    let e = Seq::<char>::empty();
    assert forall|i: int| 0 <= i < ls.len() implies free_of(#[trigger] ls[i], '\n') by {
        assert(plain_line(ls[i]));
    }
    assert(free_of(e, '\n'));
    lemma_split_text_of_lines(ls, e);
    assert(t + e =~= t);
    if a.len() == 0 {
        assert(a + t =~= t);
        assert(split(a, '\n') == seq![e]);
        assert(lines(a) =~= Seq::<Seq<char>>::empty());
        let p = split(t, '\n');
        assert forall|k: int| 0 <= k < ls.len() implies strip_cr(p[k]) == ls[k] by {
            assert(plain_line(ls[k]));
        }
        assert(lines(a + t) =~= ls);
        assert(lines(a) + ls =~= ls);
    } else {
        let a0 = a.drop_last();
        assert(a0.push('\n') =~= a);
        lemma_split_concat(a0, t, '\n');
        lemma_split_concat(a0, e, '\n');
        assert(a0.push('\n') + e =~= a);
        lemma_split_free(e, '\n');
        lemma_split_len(a0, '\n');
        let q = split(a0, '\n');
        let pa = split(a, '\n');
        let pat = split(a + t, '\n');
        assert(pa =~= q.push(e));
        assert(pat =~= q + ls.push(e));
        assert(lines(a) =~= Seq::new(q.len(), |k: int| strip_cr(q[k])));
        assert forall|k: int| 0 <= k < ls.len() implies strip_cr(ls[k]) == ls[k] by {
            assert(plain_line(ls[k]));
        }
        assert(lines(a + t) =~= lines(a) + ls);
    }
}

/// The lines of a saved comand are plain.
proof fn lemma_saved_lines_plain(name: Seq<char>, ls: Seq<SavedLineModel>, p: Payment, total: Seq<char>)
    requires
        storable_comand(name, ls, total),
    ensures
        forall|i: int| 0 <= i < saved_lines(name, ls, p, total).len() ==> plain_line(#[trigger] saved_lines(name, ls, p, total)[i]),
{
    reveal_strlit("R$");
    reveal_strlit(",R$");
    reveal_strlit("total,");
    reveal_strlit("Pedido,Unidades,Unitario,Total");
    reveal_strlit("Débito");
    reveal_strlit("Crédito");
    reveal_strlit("Dinheiro");
    reveal_strlit("Pix");
    reveal_strlit("Metodo de pagamento");
    let sl = saved_lines(name, ls, p, total);
    let n = ls.len();
    assert forall|i: int| 0 <= i < sl.len() implies plain_line(#[trigger] sl[i]) by {
        if i == 0 {
            assert(sl[i] == name);
        } else if i == 1 {
            assert(sl[i] == heading());
        } else if i < n + 2 {
            let l = ls[i - 2];
            assert(sl[i] == value_line(l));
            assert(storable_line(l));
            lemma_decimal_free(l.1 as nat, '\n');
            let v = value_line(l);
            assert(v =~= l.0 + (seq![','] + decimal(l.1 as nat) + ",R$"@ + l.2 + ",R$"@ + l.3));
            assert(free_of(seq![','] + decimal(l.1 as nat) + ",R$"@ + l.2 + ",R$"@ + l.3, '\n')) by {
                lemma_free_join(seq![','], decimal(l.1 as nat), '\n');
                lemma_free_join(seq![','] + decimal(l.1 as nat), ",R$"@, '\n');
                lemma_free_join(seq![','] + decimal(l.1 as nat) + ",R$"@, l.2, '\n');
                lemma_free_join(seq![','] + decimal(l.1 as nat) + ",R$"@ + l.2, ",R$"@, '\n');
                lemma_free_join(seq![','] + decimal(l.1 as nat) + ",R$"@ + l.2 + ",R$"@, l.3, '\n');
            }
            lemma_free_join(l.0, seq![','] + decimal(l.1 as nat) + ",R$"@ + l.2 + ",R$"@ + l.3, '\n');
            if l.3.len() > 0 {
                assert(v.last() == l.3.last());
            }
        } else if i == n + 2 {
            let tl = total_line(p, total);
            assert(sl[i] == tl);
            let label = payment_label(p);
            assert(free_of(label, '\n'));
            lemma_free_join("total,"@, label, '\n');
            lemma_free_join("total,"@ + label, ",R$"@, '\n');
            lemma_free_join("total,"@ + label + ",R$"@, total, '\n');
            if total.len() > 0 {
                assert(tl.last() == total.last());
            }
        } else {
            assert(sl[i] == Seq::<char>::empty());
        }
    }
}

/// Appending a saved comand to a cache that holds only whole comands adds
/// exactly that comand, as `saved_model` gives it, to the comands the report
/// reads, and leaves the cache holding only whole comands.
pub proof fn law_saved_comand_reads_back(
    cache: Seq<char>,
    name: Seq<char>,
    ls: Seq<SavedLineModel>,
    p: Payment,
    total: Seq<char>,
)
    requires
        cache.len() == 0 || cache.last() == '\n',
        comands_of_lines(lines(cache)).1 == empty_comand(),
        storable_comand(name, ls, total),
    ensures
        comands_of_lines(lines(cache + saved_text(name, ls, p, total))) == (
            comands_of(cache).push(saved_model(name, ls, p, total)),
            empty_comand(),
        ),
        comands_of(cache + saved_text(name, ls, p, total)) == comands_of(cache).push(
            saved_model(name, ls, p, total),
        ),
{
    let sl = saved_lines(name, ls, p, total);
    let base = lines(cache);
    let done = comands_of_lines(base).0;
    let vls = Seq::new(ls.len(), |i: int| value_line(ls[i]));
    lemma_saved_lines_plain(name, ls, p, total);
    lemma_lines_append(cache, sl);
    let l1 = base.push(name);
    let l2 = l1.push(heading());
    let l3 = l2 + vls;
    let l4 = l3.push(total_line(p, total));
    let l5 = l4.push(Seq::empty());
    assert(base + sl =~= l5);
    lemma_read_push(base, name);
    lemma_read_name_line(done, name);
    let named = ComandModel { name: trim(name), ..empty_comand() };
    lemma_read_push(l1, heading());
    lemma_read_heading((done, named));
    assert(comands_of_lines(l2) == (done, named));
    lemma_read_values(l2, ls, ls.len() as int);
    assert(vls.take(ls.len() as int) =~= vls);
    let filled = ComandModel {
        values: named.values + Seq::new(ls.len(), |i: int| line_model(ls[i])),
        ..named
    };
    assert(comands_of_lines(l3) == (done, filled));
    lemma_read_push(l3, total_line(p, total));
    lemma_read_total_line((done, filled), p, total);
    lemma_read_push(l4, Seq::empty());
    let finished = ComandModel { payment: p, totals: filled.totals.push(total), ..filled };
    lemma_read_empty((done, finished));
    assert(finished.values =~= saved_model(name, ls, p, total).values);
    assert(finished.totals =~= saved_model(name, ls, p, total).totals);
    assert(finished == saved_model(name, ls, p, total));
}

/// Saved comands, each as its name, lines, payment and total.
pub type SavedComandModel = (Seq<char>, Seq<SavedLineModel>, Payment, Seq<char>);

/// The cache after saving these comands in turn.
pub open spec fn cache_text(cs: Seq<SavedComandModel>) -> Seq<char>
    decreases cs.len(),
{
    if cs.len() == 0 {
        Seq::empty()
    } else {
        cache_text(cs.drop_last()) + saved_text(cs.last().0, cs.last().1, cs.last().2, cs.last().3)
    }
}

proof fn lemma_text_of_lines_ends(ls: Seq<Seq<char>>)
    requires
        ls.len() > 0,
    ensures
        text_of_lines(ls).len() > 0,
        text_of_lines(ls).last() == '\n',
{
}

/// A cache written by saving comands in turn, each of which reads back as
/// written, is read by the report as exactly those comands, in that order.
pub proof fn law_saved_cache_reads_back(cs: Seq<SavedComandModel>)
    requires
        forall|i: int| 0 <= i < cs.len() ==> storable_comand(#[trigger] cs[i].0, cs[i].1, cs[i].3),
    ensures
        comands_of(cache_text(cs)) == Seq::new(cs.len(), |i: int| saved_model(cs[i].0, cs[i].1, cs[i].2, cs[i].3)),
        comands_of_lines(lines(cache_text(cs))).1 == empty_comand(),
        cache_text(cs).len() == 0 || cache_text(cs).last() == '\n',
    decreases cs.len(),
{
    if cs.len() == 0 {
        assert(split(Seq::<char>::empty(), '\n') == seq![Seq::<char>::empty()]);
        assert(lines(cache_text(cs)) =~= Seq::<Seq<char>>::empty());
        assert(comands_of(cache_text(cs)) =~= Seq::<ComandModel>::empty());
    } else {
        let prev = cs.drop_last();
        assert forall|i: int| 0 <= i < prev.len() implies storable_comand(#[trigger] prev[i].0, prev[i].1, prev[i].3) by {
            assert(prev[i] == cs[i]);
        }
        law_saved_cache_reads_back(prev);
        let c = cs.last();
        assert(storable_comand(cs[cs.len() - 1].0, cs[cs.len() - 1].1, cs[cs.len() - 1].3));
        law_saved_comand_reads_back(cache_text(prev), c.0, c.1, c.2, c.3);
        lemma_text_of_lines_ends(saved_lines(c.0, c.1, c.2, c.3));
        assert(comands_of(cache_text(cs)) =~= Seq::new(
            cs.len(),
            |i: int| saved_model(cs[i].0, cs[i].1, cs[i].2, cs[i].3),
        ));
    }
}

// ---------------------------------------------------------------------------
// Writing a comand
// ---------------------------------------------------------------------------

/// A product line to save, its prices already written as text.
pub struct SavedLine {
    pub name: String,
    pub quantity: u32,
    pub unit_price: String,
    pub total: String,
}

pub open spec fn saved_line_view(l: SavedLine) -> SavedLineModel {
    (l.name@, l.quantity, l.unit_price@, l.total@)
}

pub open spec fn saved_lines_view(v: Seq<SavedLine>) -> Seq<SavedLineModel> {
    Seq::new(v.len(), |i: int| saved_line_view(v[i]))
}

/// Appends a line and its line break.
fn end_line(out: &mut Vec<char>, Ghost(done): Ghost<Seq<Seq<char>>>, Ghost(line): Ghost<Seq<char>>, start: usize)
    requires
        start <= old(out)@.len(),
        old(out)@.take(start as int) == text_of_lines(done),
        old(out)@.skip(start as int) == line,
    ensures
        final(out)@ == text_of_lines(done.push(line)),
{
    let ghost before = out@;
    out.push('\n');
    assert(done.push(line).drop_last() =~= done);
    assert(out@ =~= before.take(start as int) + line.push('\n'));
}

/// The text that saving a comand appends to the cache: its name, the
/// heading, a line per product, the total line and an empty line.
pub fn saved_comand_text(name: &str, lines: &Vec<SavedLine>, payment: Payment, total: &str) -> (res: String)
    ensures
        res@ == saved_text(name@, saved_lines_view(lines@), payment, total@),
{
    let ghost ls = saved_lines_view(lines@);
    let ghost vls = Seq::new(ls.len(), |i: int| value_line(ls[i]));
    let mut out: Vec<char> = Vec::new();
    push_str(&mut out, name);
    assert(out@.take(0) =~= text_of_lines(Seq::<Seq<char>>::empty()));
    assert(out@.skip(0) =~= name@);
    end_line(&mut out, Ghost(Seq::empty()), Ghost(name@), 0);
    let ghost first = seq![name@];
    assert(Seq::<Seq<char>>::empty().push(name@) =~= first);
    let start = out.len();
    push_str(&mut out, "Pedido,Unidades,Unitario,Total");
    assert(out@.take(start as int) =~= text_of_lines(first));
    assert(out@.skip(start as int) =~= heading());
    end_line(&mut out, Ghost(first), Ghost(heading()), start);
    let ghost head = seq![name@, heading()];
    assert(first.push(heading()) =~= head);
    assert(head + vls.take(0) =~= head);
    for k in 0..lines.len()
        invariant
            ls == saved_lines_view(lines@),
            vls == Seq::new(ls.len(), |i: int| value_line(ls[i])),
            head == seq![name@, heading()],
            out@ == text_of_lines(head + vls.take(k as int)),
    {
        let start = out.len();
        let l = &lines[k];
        push_str(&mut out, l.name.as_str());
        out.push(',');
        push_decimal(&mut out, l.quantity as u64);
        push_str(&mut out, ",R$");
        push_str(&mut out, l.unit_price.as_str());
        push_str(&mut out, ",R$");
        push_str(&mut out, l.total.as_str());
        assert(ls[k as int] == saved_line_view(*l));
        assert(out@.take(start as int) =~= text_of_lines(head + vls.take(k as int)));
        assert(out@.skip(start as int) =~= value_line(ls[k as int]));
        end_line(&mut out, Ghost(head + vls.take(k as int)), Ghost(vls[k as int]), start);
        assert((head + vls.take(k as int)).push(vls[k as int]) =~= head + vls.take(k + 1));
    }
    assert(vls.take(lines.len() as int) =~= vls);
    let start = out.len();
    push_str(&mut out, "total,");
    push_str(&mut out, payment.to_string());
    push_str(&mut out, ",R$");
    push_str(&mut out, total);
    assert(out@.take(start as int) =~= text_of_lines(head + vls));
    assert(out@.skip(start as int) =~= total_line(payment, total@));
    end_line(&mut out, Ghost(head + vls), Ghost(total_line(payment, total@)), start);
    let start = out.len();
    assert(out@.take(start as int) =~= out@);
    assert(out@.skip(start as int) =~= Seq::<char>::empty());
    end_line(&mut out, Ghost((head + vls).push(total_line(payment, total@))), Ghost(Seq::empty()), start);
    assert((head + vls).push(total_line(payment, total@)).push(Seq::empty()) =~= saved_lines(
        name@,
        ls,
        payment,
        total@,
    ));
    string_of(&out)
}

} // verus!
