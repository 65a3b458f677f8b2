//! Library-wide laws of the diff engine, proved once over the models the
//! public contracts speak of.
use vstd::prelude::*;
use crate::rowmap::{
    distinct_keys, row_has_key, row_find, row_upsert, key_index, lemma_find_at_index, lemma_upsert,
};
use crate::decimal::{
    Dec, spec_parse_dec, round_cell, round_mag, lemma_round_cell_idem, lemma_parse_of_fmt,
};
use crate::table::{
    Table, diff_model, row_diff_model, rows_aligned, format_row_model, format_col_model,
    line_model, cell_or_empty,
};

verus! {

proof fn lemma_format_row_idem(r: Seq<(Seq<char>, Seq<char>)>, col: Seq<char>, p: nat)
    requires
        distinct_keys(r),
        1 <= p <= 15,
    ensures
        format_row_model(format_row_model(r, col, p), col, p) == format_row_model(r, col, p),
{
    match row_find(r, col) {
        Some(v) => {
            match spec_parse_dec(v) {
                Some(d) => {
                    lemma_round_cell_idem(v, p);
                    lemma_parse_of_fmt(d.neg, round_mag(d.num as nat, d.scale as nat, p), p);
                    let out = round_cell(v, p);
                    let r1 = row_upsert(r, col, out);
                    lemma_upsert(r, col, out);
                    assert(row_find(r1, col) == Some(out));
                    if spec_parse_dec(out) == Option::<Dec>::None {
                        // the rounded text is past the numeric bound: the
                        // second pass leaves the row alone
                        assert(format_row_model(r1, col, p) == r1);
                    } else {
                        assert(round_cell(out, p) == out);
                        let r2 = row_upsert(r1, col, out);
                        assert(row_has_key(r1, col));
                        let ki = key_index(r1, col);
                        assert(0 <= ki < r1.len() && r1[ki].0 == col);
                        lemma_find_at_index(r1, ki);
                        assert(r1[ki].1 == out);
                        assert(r1[ki] == (col, out));
                        assert(r2 =~= r1);
                        assert(format_row_model(r1, col, p) == r1);
                    }
                },
                None => {
                    assert(format_row_model(r, col, p) == r);
                },
            }
        },
        None => {
            assert(format_row_model(r, col, p) == r);
        },
    }
}

/// Rounding the total-price column twice yields the same table as rounding
/// it once: the operation is idempotent.
pub proof fn lemma_format_price_idem(m: Seq<Seq<(Seq<char>, Seq<char>)>>)
    requires
        forall|i: int| 0 <= i < m.len() ==> distinct_keys(#[trigger] m[i]),
    ensures
        format_col_model(format_col_model(m, "Ukupna cena"@, 4), "Ukupna cena"@, 4)
            == format_col_model(m, "Ukupna cena"@, 4),
{
    let m1 = format_col_model(m, "Ukupna cena"@, 4);
    assert forall|i: int| 0 <= i < m.len() implies #[trigger] format_col_model(
        m1,
        "Ukupna cena"@,
        4,
    )[i] == m1[i] by {
        lemma_format_row_idem(m[i], "Ukupna cena"@, 4);
        assert(m1[i] == format_row_model(m[i], "Ukupna cena"@, 4));
    }
    assert(format_col_model(m1, "Ukupna cena"@, 4) =~= m1);
}

pub open spec fn count_char(s: Seq<char>, c: char) -> int
    decreases s.len(),
{
    if s.len() == 0 {
        0
    } else {
        count_char(s.drop_last(), c) + (if s.last() == c {
            1int
        } else {
            0int
        })
    }
}

proof fn lemma_count_concat(a: Seq<char>, b: Seq<char>, c: char)
    ensures
        count_char(a + b, c) == count_char(a, c) + count_char(b, c),
    decreases b.len(),
{
    if b.len() == 0 {
        assert(a + b =~= a);
    } else {
        let b0 = b.drop_last();
        lemma_count_concat(a, b0, c);
        assert(a + b =~= (a + b0).push(b.last()));
        assert((a + b0).push(b.last()).drop_last() =~= a + b0);
        assert(b0.push(b.last()) =~= b);
    }
}

proof fn lemma_count_zero(s: Seq<char>, c: char)
    requires
        !s.contains(c),
    ensures
        count_char(s, c) == 0,
    decreases s.len(),
{
    if s.len() > 0 {
        assert(s.last() != c) by {
            assert(s[s.len() - 1] == s.last());
        }
        assert(!s.drop_last().contains(c)) by {
            if s.drop_last().contains(c) {
                let i = choose|i: int| 0 <= i < s.drop_last().len() && s.drop_last()[i] == c;
                assert(s[i] == c);
            }
        }
        lemma_count_zero(s.drop_last(), c);
    }
}

proof fn lemma_cell_count_zero(r: Seq<(Seq<char>, Seq<char>)>, col: Seq<char>)
    requires
        forall|j: int| 0 <= j < r.len() ==> !(#[trigger] r[j]).1.contains(','),
    ensures
        count_char(cell_or_empty(r, col), ',') == 0,
{
    match row_find(r, col) {
        Some(v) => {
            let ki = key_index(r, col);
            assert(0 <= ki < r.len() && r[ki].0 == col);
            assert(v == r[ki].1);
            lemma_count_zero(v, ',');
        },
        None => {
            assert(count_char(Seq::<char>::empty(), ',') == 0);
        },
    }
}

/// A row whose cell values hold no comma serializes to a line of exactly
/// nine comma-separated fields: eight commas in all, five from the single
/// separators and three inside the fixed ",kom,PDVOS," token block. (With a
/// comma inside a value the count grows: the format has no escaping.)
pub proof fn lemma_line_nine_fields(r: Seq<(Seq<char>, Seq<char>)>)
    requires
        forall|j: int| 0 <= j < r.len() ==> !(#[trigger] r[j]).1.contains(','),
    ensures
        count_char(line_model(r), ',') == 8,
{
    reveal_strlit(",");
    reveal_strlit(",kom,PDVOS,");
    reveal_strlit("\n");
    reveal_with_fuel(count_char, 15);
    assert(count_char(","@, ',') == 1);
    assert(count_char(",kom,PDVOS,"@, ',') == 3);
    assert(count_char("\n"@, ',') == 0);
    let c1 = cell_or_empty(r, "Šifra artikla"@);
    let c2 = cell_or_empty(r, "Naziv artikla"@);
    let c3 = cell_or_empty(r, "Bar kod"@);
    let c4 = cell_or_empty(r, "Količina"@);
    let c5 = cell_or_empty(r, "Ukupna cena"@);
    let c7 = cell_or_empty(r, "Cena MP"@);
    lemma_cell_count_zero(r, "Šifra artikla"@);
    lemma_cell_count_zero(r, "Naziv artikla"@);
    lemma_cell_count_zero(r, "Bar kod"@);
    lemma_cell_count_zero(r, "Količina"@);
    lemma_cell_count_zero(r, "Ukupna cena"@);
    lemma_cell_count_zero(r, "Cena MP"@);
    let t1 = c1 + ","@;
    lemma_count_concat(c1, ","@, ',');
    let t2 = t1 + c2;
    lemma_count_concat(t1, c2, ',');
    let t3 = t2 + ",kom,PDVOS,"@;
    lemma_count_concat(t2, ",kom,PDVOS,"@, ',');
    let t4 = t3 + c3;
    lemma_count_concat(t3, c3, ',');
    let t5 = t4 + ","@;
    lemma_count_concat(t4, ","@, ',');
    let t6 = t5 + c4;
    lemma_count_concat(t5, c4, ',');
    let t7 = t6 + ","@;
    lemma_count_concat(t6, ","@, ',');
    let t8 = t7 + c5;
    lemma_count_concat(t7, c5, ',');
    let t9 = t8 + ","@;
    lemma_count_concat(t8, ","@, ',');
    let t10 = t9 + c5;
    lemma_count_concat(t9, c5, ',');
    let t11 = t10 + ","@;
    lemma_count_concat(t10, ","@, ',');
    let t12 = t11 + c7;
    lemma_count_concat(t11, c7, ',');
    lemma_count_concat(t12, "\n"@, ',');
    assert(line_model(r) == t12 + "\n"@);
}

proof fn lemma_row_diff_prefix_self(orig: Seq<(Seq<char>, Seq<char>)>, row: int, k: int)
    requires
        distinct_keys(orig),
        0 <= k <= orig.len(),
    ensures
        row_diff_model(orig.take(k), orig, row) == Seq::<(int, Seq<char>)>::empty(),
    decreases k,
{
    if k > 0 {
        lemma_row_diff_prefix_self(orig, row, k - 1);
        lemma_find_at_index(orig, k - 1);
        assert(orig.take(k).drop_last() =~= orig.take(k - 1));
        assert(orig.take(k).last() == orig[k - 1]);
        assert(row_diff_model(orig.take(k), orig, row) =~= Seq::<(int, Seq<char>)>::empty());
    } else {
        assert(orig.take(0).len() == 0);
    }
}

/// One well-formed row diffed against itself contributes nothing.
proof fn lemma_row_diff_self(orig: Seq<(Seq<char>, Seq<char>)>, row: int)
    requires
        distinct_keys(orig),
    ensures
        row_diff_model(orig, orig, row) == Seq::<(int, Seq<char>)>::empty(),
{
    lemma_row_diff_prefix_self(orig, row, orig.len() as int);
    assert(orig.take(orig.len() as int) =~= orig);
}

proof fn lemma_diff_prefix_self(m: Seq<Seq<(Seq<char>, Seq<char>)>>, k: int)
    requires
        forall|i: int| 0 <= i < m.len() ==> distinct_keys(#[trigger] m[i]),
        0 <= k <= m.len(),
    ensures
        diff_model(m.take(k), m) == Seq::<(int, Seq<char>)>::empty(),
    decreases k,
{
    if k > 0 {
        lemma_diff_prefix_self(m, k - 1);
        lemma_row_diff_self(m[k - 1], k - 1);
        assert(m.take(k).drop_last() =~= m.take(k - 1));
        assert(m.take(k).last() == m[k - 1]);
        assert(diff_model(m.take(k), m) =~= Seq::<(int, Seq<char>)>::empty());
    } else {
        assert(m.take(0).len() == 0);
    }
}

/// The diff of any well-formed table against itself is empty.
pub proof fn lemma_diff_reflexive(t: Table)
    requires
        t.wf(),
    ensures
        rows_aligned(t.row_model(), t.row_model()),
        diff_model(t.row_model(), t.row_model()) == Seq::<(int, Seq<char>)>::empty(),
{
    let m = t.row_model();
    assert forall|i: int, j: int| 0 <= i < m.len() && 0 <= j < m[i].len() implies row_has_key(
        m[i],
        (#[trigger] m[i][j]).0,
    ) by {}
    assert forall|i: int| 0 <= i < m.len() implies distinct_keys(#[trigger] m[i]) by {
        assert(m[i] == crate::rowmap::row_entries(t.rows@[i]));
    }
    lemma_diff_prefix_self(m, m.len() as int);
    assert(m.take(m.len() as int) =~= m);
}

proof fn lemma_row_diff_one_prefix(
    tr: Seq<(Seq<char>, Seq<char>)>,
    orig: Seq<(Seq<char>, Seq<char>)>,
    row: int,
    j: int,
    k: int,
)
    requires
        distinct_keys(orig),
        tr.len() == orig.len(),
        forall|l: int| 0 <= l < orig.len() ==> (#[trigger] tr[l]).0 == orig[l].0,
        forall|l: int| 0 <= l < orig.len() && l != j ==> (#[trigger] tr[l]).1 == orig[l].1,
        0 <= j < orig.len(),
        tr[j].1 != orig[j].1,
        0 <= k <= orig.len(),
    ensures
        row_diff_model(tr.take(k), orig, row) == (if k <= j {
            Seq::<(int, Seq<char>)>::empty()
        } else {
            seq![(row, orig[j].0)]
        }),
    decreases k,
{
    if k > 0 {
        lemma_row_diff_one_prefix(tr, orig, row, j, k - 1);
        assert(tr.take(k).drop_last() =~= tr.take(k - 1));
        assert(tr.take(k).last() == tr[k - 1]);
        lemma_find_at_index(orig, k - 1);
        if k - 1 == j {
            assert(row_find(orig, tr[k - 1].0) == Some(orig[k - 1].1));
            assert(row_find(orig, tr[k - 1].0) != Some(tr[k - 1].1));
            assert(row_diff_model(tr.take(k), orig, row) =~= seq![(row, orig[j].0)]);
        } else {
            assert(row_find(orig, tr[k - 1].0) == Some(tr[k - 1].1));
            if k <= j {
                assert(row_diff_model(tr.take(k), orig, row) =~= Seq::<(int, Seq<char>)>::empty());
            } else {
                assert(row_diff_model(tr.take(k), orig, row) =~= seq![(row, orig[j].0)]);
            }
        }
    } else {
        assert(tr.take(0).len() == 0);
    }
}

proof fn lemma_diff_one_prefix(
    trm: Seq<Seq<(Seq<char>, Seq<char>)>>,
    orm: Seq<Seq<(Seq<char>, Seq<char>)>>,
    i: int,
    j: int,
    k: int,
)
    requires
        forall|l: int| 0 <= l < orm.len() ==> distinct_keys(#[trigger] orm[l]),
        trm.len() == orm.len(),
        0 <= i < orm.len(),
        0 <= j < orm[i].len(),
        forall|l: int| 0 <= l < orm.len() && l != i ==> #[trigger] trm[l] == orm[l],
        trm[i] == orm[i].update(j, (orm[i][j].0, trm[i][j].1)),
        trm[i][j].1 != orm[i][j].1,
        0 <= k <= orm.len(),
    ensures
        diff_model(trm.take(k), orm) == (if k <= i {
            Seq::<(int, Seq<char>)>::empty()
        } else {
            seq![(i, orm[i][j].0)]
        }),
    decreases k,
{
    if k > 0 {
        lemma_diff_one_prefix(trm, orm, i, j, k - 1);
        assert(trm.take(k).drop_last() =~= trm.take(k - 1));
        assert(trm.take(k).last() == trm[k - 1]);
        if k - 1 == i {
            let tr = trm[i];
            let orig = orm[i];
            assert(tr.len() == orig.len());
            assert(forall|l: int| 0 <= l < orig.len() ==> (#[trigger] tr[l]).0 == orig[l].0);
            assert(forall|l: int|
                0 <= l < orig.len() && l != j ==> (#[trigger] tr[l]).1 == orig[l].1);
            lemma_row_diff_one_prefix(tr, orig, i, j, orig.len() as int);
            assert(tr.take(orig.len() as int) =~= tr);
            assert(diff_model(trm.take(k), orm) =~= seq![(i, orm[i][j].0)]);
        } else {
            lemma_row_diff_self(orm[k - 1], k - 1);
            if k <= i {
                assert(diff_model(trm.take(k), orm) =~= Seq::<(int, Seq<char>)>::empty());
            } else {
                assert(diff_model(trm.take(k), orm) =~= seq![(i, orm[i][j].0)]);
            }
        }
    } else {
        assert(trm.take(0).len() == 0);
    }
}

/// A copy of a well-formed table with exactly one cell's value changed
/// diffs against the original to exactly that cell's address.
pub proof fn lemma_diff_single_mutation(
    orm: Seq<Seq<(Seq<char>, Seq<char>)>>,
    trm: Seq<Seq<(Seq<char>, Seq<char>)>>,
    i: int,
    j: int,
    v: Seq<char>,
)
    requires
        forall|l: int| 0 <= l < orm.len() ==> distinct_keys(#[trigger] orm[l]),
        0 <= i < orm.len(),
        0 <= j < orm[i].len(),
        v != orm[i][j].1,
        trm == orm.update(i, orm[i].update(j, (orm[i][j].0, v))),
    ensures
        rows_aligned(trm, orm),
        diff_model(trm, orm) == seq![(i, orm[i][j].0)],
{
    assert(trm.len() == orm.len());
    assert(trm[i] == orm[i].update(j, (orm[i][j].0, v)));
    assert(trm[i][j] == (orm[i][j].0, v));
    assert forall|l: int, l2: int| 0 <= l < trm.len() && 0 <= l2 < trm[l].len() implies row_has_key(
        orm[l],
        (#[trigger] trm[l][l2]).0,
    ) by {
        assert(trm[l][l2].0 == orm[l][l2].0);
        assert(row_has_key(orm[l], orm[l][l2].0));
    }
    lemma_diff_one_prefix(trm, orm, i, j, orm.len() as int);
    assert(trm.take(orm.len() as int) =~= trm);
}

} // verus!
