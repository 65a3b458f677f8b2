//! The table model and its operations: name reconciliation, price rounding,
//! barcode deduplication, locale normalization, the cell diff and the export
//! serializer.
use vstd::prelude::*;
use vstd::string::*;
use crate::rowmap::{
    Row, row_entries, distinct_keys, row_has_key, key_index, row_find, row_upsert, row_new,
    row_len, row_get, row_insert, row_get_index, row_clone, lemma_upsert, lemma_find_at_index,
};
use crate::decimal::{
    Dec, spec_parse_dec, round_cell, round_cell_str, pow10, pow10_u64, parse_dec, lemma_parse_wf,
    lemma_pow10_mono,
};
use crate::text::{comma_to_dot, replace_commas, str_eq, contains_char};

verus! {

/// Emitted when a barcode cell is cleared because it encoded several values.
#[derive(Clone, Debug)]
pub struct RemovedBarcode {
    pub row_idx: usize,
    pub sifra: String,
    pub naziv: String,
    pub original_barcode: String,
}

/// Emitted when a row's price ratio exceeds the caller's threshold. The two
/// prices are the parsed cell values; the percentage carries two fractional
/// digits, scaled to an integer count of hundredths.
#[derive(Clone, Debug)]
pub struct PriceUpdateItem {
    pub row_idx: usize,
    pub sifra: String,
    pub naziv: String,
    pub ukupna_cena: Dec,
    pub cena_mp: Dec,
    pub percentage_hundredths: i128,
}

/// Identifies one cell: a row index and a column name. Reporting only.
#[derive(Clone, Debug)]
pub struct CellAddress {
    pub row: usize,
    pub col: String,
}

/// A name the reconciliation changed, for review listings.
#[derive(Clone, Debug)]
pub struct NameChange {
    pub row_idx: usize,
    pub sifra: Option<String>,
    pub old_name: String,
    pub new_name: String,
}

/// Ordered headers and ordered rows of named text cells.
#[derive(Clone)]
pub struct Table {
    pub headers: Vec<String>,
    pub rows: Vec<Row>,
}

pub open spec fn rows_wf(rs: Seq<Row>) -> bool {
    forall|i: int| 0 <= i < rs.len() ==> distinct_keys(row_entries(#[trigger] rs[i]))
}

pub open spec fn strs_model(v: Seq<String>) -> Seq<Seq<char>> {
    v.map_values(|x: String| x@)
}

pub open spec fn addr_model(a: CellAddress) -> (int, Seq<char>) {
    (a.row as int, a.col@)
}

pub open spec fn removed_barcode_model(x: RemovedBarcode) -> (int, Seq<char>, Seq<char>, Seq<char>) {
    (x.row_idx as int, x.sifra@, x.naziv@, x.original_barcode@)
}

pub open spec fn price_update_model(x: PriceUpdateItem) -> (int, Seq<char>, Seq<char>, Dec, Dec, int) {
    (x.row_idx as int, x.sifra@, x.naziv@, x.ukupna_cena, x.cena_mp, x.percentage_hundredths as int)
}

/// The value a row holds under `col`, or empty text when the column is absent.
pub open spec fn cell_or_empty(r: Seq<(Seq<char>, Seq<char>)>, col: Seq<char>) -> Seq<char> {
    match row_find(r, col) {
        Some(v) => v,
        None => Seq::<char>::empty(),
    }
}

impl Table {
    /// Each row as its ordered (column, value) entries.
    pub open spec fn row_model(self) -> Seq<Seq<(Seq<char>, Seq<char>)>> {
        self.rows@.map_values(|r: Row| row_entries(r))
    }

    pub open spec fn headers_model(self) -> Seq<Seq<char>> {
        strs_model(self.headers@)
    }

    /// Every row's column names are distinct; established by the constructors
    /// and preserved by every operation.
    pub open spec fn wf(self) -> bool {
        rows_wf(self.rows@)
    }
}

fn cell_text_or_empty(row: &Row, col: &str) -> (r: String)
    ensures
        r@ == cell_or_empty(row_entries(*row), col@),
{
    match row_get(row, col) {
        Some(v) => v.clone(),
        None => String::new(),
    }
}

/// One row from headers zipped against cell texts, shorter side deciding.
pub open spec fn zip_upsert(hs: Seq<Seq<char>>, vs: Seq<Seq<char>>, k: int) -> Seq<
    (Seq<char>, Seq<char>),
>
    decreases k,
{
    if k <= 0 {
        Seq::<(Seq<char>, Seq<char>)>::empty()
    } else {
        row_upsert(zip_upsert(hs, vs, k - 1), hs[k - 1], vs[k - 1])
    }
}

pub open spec fn zip_row(hs: Seq<Seq<char>>, vs: Seq<Seq<char>>) -> Seq<(Seq<char>, Seq<char>)> {
    zip_upsert(hs, vs, if hs.len() <= vs.len() { hs.len() as int } else { vs.len() as int })
}

proof fn lemma_zip_upsert_distinct(hs: Seq<Seq<char>>, vs: Seq<Seq<char>>, k: int)
    ensures
        distinct_keys(zip_upsert(hs, vs, k)),
    decreases k,
{
    if k > 0 {
        lemma_zip_upsert_distinct(hs, vs, k - 1);
        lemma_upsert(zip_upsert(hs, vs, k - 1), hs[k - 1], vs[k - 1]);
    }
}

fn build_row(headers: &Vec<String>, vals: &Vec<String>) -> (m: Row)
    ensures
        row_entries(m) == zip_row(strs_model(headers@), strs_model(vals@)),
        distinct_keys(row_entries(m)),
{
    let mut m = row_new();
    let k = if headers.len() <= vals.len() {
        headers.len()
    } else {
        vals.len()
    };
    let mut j: usize = 0;
    while j < k
        invariant
            j <= k,
            k == (if headers@.len() <= vals@.len() {
                headers@.len() as int
            } else {
                vals@.len() as int
            }),
            k <= headers@.len(),
            k <= vals@.len(),
            row_entries(m) == zip_upsert(strs_model(headers@), strs_model(vals@), j as int),
            distinct_keys(row_entries(m)),
        decreases k - j,
    {
        let h = &headers[j];
        let v = vals[j].clone();
        proof {
            lemma_upsert(row_entries(m), h@, v@);
            assert(strs_model(headers@)[j as int] == h@);
            assert(strs_model(vals@)[j as int] == vals@[j as int]@);
        }
        row_insert(&mut m, h.as_str(), v);
        j = j + 1;
    }
    m
}

impl Table {
    /// Builds a table from plain header and cell texts; every row takes the
    /// headers in order, zipped against its texts, the shorter side deciding.
    pub fn from_cells(headers: Vec<String>, cells: Vec<Vec<String>>) -> (t: Table)
        ensures
            t.wf(),
            t.headers == headers,
            t.row_model().len() == cells@.len(),
            forall|i: int|
                0 <= i < cells@.len() ==> #[trigger] t.row_model()[i] == zip_row(
                    strs_model(headers@),
                    strs_model(cells@[i]@),
                ),
    {
        let mut rows: Vec<Row> = Vec::new();
        let mut i: usize = 0;
        while i < cells.len()
            invariant
                i <= cells@.len(),
                rows@.len() == i,
                forall|k: int|
                    0 <= k < i ==> row_entries(#[trigger] rows@[k]) == zip_row(
                        strs_model(headers@),
                        strs_model(cells@[k]@),
                    ) && distinct_keys(row_entries(rows@[k])),
            decreases cells@.len() - i,
        {
            let r = build_row(&headers, &cells[i]);
            rows.push(r);
            i = i + 1;
        }
        let t = Table { headers, rows };
        proof {
            assert forall|i2: int| 0 <= i2 < cells@.len() implies #[trigger] t.row_model()[i2]
                == zip_row(strs_model(t.headers@), strs_model(cells@[i2]@)) by {
                assert(t.row_model()[i2] == row_entries(t.rows@[i2]));
            }
            assert forall|i2: int| 0 <= i2 < t.rows@.len() implies distinct_keys(
                row_entries(#[trigger] t.rows@[i2]),
            ) by {}
        }
        t
    }

    /// Builds a table from raw sheet cells: the first row becomes the
    /// headers, every later row is zipped against them. An empty sheet is
    /// rejected.
    pub fn build_table(cells: Vec<Vec<String>>) -> (r: Result<Table, String>)
        ensures
            (cells@.len() == 0) == (r is Err),
            (match r {
                Ok(t) => t.wf() && t.headers_model() == strs_model(cells@[0]@)
                    && t.row_model().len() == cells@.len() - 1 && (forall|i: int|
                    0 <= i < cells@.len() - 1 ==> #[trigger] t.row_model()[i] == zip_row(
                        strs_model(cells@[0]@),
                        strs_model(cells@[i + 1]@),
                    )),
                Err(e) => e@ == "Empty sheet"@,
            }),
    {
        if cells.len() == 0 {
            return Err(String::from_str("Empty sheet"));
        }
        let mut headers: Vec<String> = Vec::new();
        let mut k: usize = 0;
        while k < cells[0].len()
            invariant
                cells@.len() > 0,
                k <= cells@[0]@.len(),
                headers@.len() == k,
                forall|l: int| 0 <= l < k ==> #[trigger] headers@[l]@ == cells@[0]@[l]@,
            decreases cells@[0]@.len() - k,
        {
            headers.push(cells[0][k].clone());
            k = k + 1;
        }
        proof {
            assert(strs_model(headers@) =~= strs_model(cells@[0]@));
        }
        let mut rows: Vec<Row> = Vec::new();
        let mut i: usize = 1;
        while i < cells.len()
            invariant
                1 <= i <= cells@.len(),
                strs_model(headers@) == strs_model(cells@[0]@),
                rows@.len() == i - 1,
                forall|l: int|
                    0 <= l < i - 1 ==> row_entries(#[trigger] rows@[l]) == zip_row(
                        strs_model(cells@[0]@),
                        strs_model(cells@[l + 1]@),
                    ) && distinct_keys(row_entries(rows@[l])),
            decreases cells@.len() - i,
        {
            let r = build_row(&headers, &cells[i]);
            rows.push(r);
            i = i + 1;
        }
        let t = Table { headers, rows };
        proof {
            assert forall|i2: int| 0 <= i2 < cells@.len() - 1 implies #[trigger] t.row_model()[i2]
                == zip_row(strs_model(cells@[0]@), strs_model(cells@[i2 + 1]@)) by {
                assert(t.row_model()[i2] == row_entries(t.rows@[i2]));
            }
            assert forall|i2: int| 0 <= i2 < t.rows@.len() implies distinct_keys(
                row_entries(#[trigger] t.rows@[i2]),
            ) by {}
        }
        Ok(t)
    }

    /// The cell at a row index and column, or nothing when the row is out of
    /// range or lacks the column. Never fails.
    pub fn get(&self, row_idx: usize, column: &str) -> (r: Option<String>)
        ensures
            (match r {
                Some(v) => row_idx < self.row_model().len() && row_find(
                    self.row_model()[row_idx as int],
                    column@,
                ) == Some(v@),
                None => row_idx >= self.row_model().len() || row_find(
                    self.row_model()[row_idx as int],
                    column@,
                ) == Option::<Seq<char>>::None,
            }),
    {
        if row_idx < self.rows.len() {
            match row_get(&self.rows[row_idx], column) {
                Some(v) => Some(v.clone()),
                None => None,
            }
        } else {
            None
        }
    }

    /// An explicit deep copy: operations mutate in place, and the original
    /// must survive for diffing. O(cells).
    pub fn deep_copy(&self) -> (t: Table)
        ensures
            t.headers_model() == self.headers_model(),
            t.row_model() == self.row_model(),
            self.wf() ==> t.wf(),
    {
        let mut headers: Vec<String> = Vec::new();
        let mut i: usize = 0;
        while i < self.headers.len()
            invariant
                i <= self.headers@.len(),
                headers@.len() == i,
                forall|k: int| 0 <= k < i ==> #[trigger] headers@[k]@ == self.headers@[k]@,
            decreases self.headers@.len() - i,
        {
            headers.push(self.headers[i].clone());
            i = i + 1;
        }
        let mut rows: Vec<Row> = Vec::new();
        let mut j: usize = 0;
        while j < self.rows.len()
            invariant
                j <= self.rows@.len(),
                rows@.len() == j,
                forall|k: int|
                    0 <= k < j ==> row_entries(#[trigger] rows@[k]) == row_entries(self.rows@[k]),
            decreases self.rows@.len() - j,
        {
            rows.push(row_clone(&self.rows[j]));
            j = j + 1;
        }
        let t = Table { headers, rows };
        proof {
            assert(t.headers_model() =~= self.headers_model());
            assert(t.row_model() =~= self.row_model());
            if self.wf() {
                assert forall|k: int| 0 <= k < t.rows@.len() implies distinct_keys(
                    row_entries(#[trigger] t.rows@[k]),
                ) by {
                    assert(row_entries(t.rows@[k]) == row_entries(self.rows@[k]));
                }
            }
        }
        t
    }
}

/// The first row of a reference table whose "sifra" column equals `id`.
pub open spec fn db_find_row(db: Seq<Seq<(Seq<char>, Seq<char>)>>, id: Seq<char>) -> Option<
    Seq<(Seq<char>, Seq<char>)>,
>
    decreases db.len(),
{
    if db.len() == 0 {
        None
    } else if row_find(db[0], "sifra"@) == Some(id) {
        Some(db[0])
    } else {
        db_find_row(db.drop_first(), id)
    }
}

/// The "naziv" column of that first matching row, if both exist.
pub open spec fn db_lookup(db: Seq<Seq<(Seq<char>, Seq<char>)>>, id: Seq<char>) -> Option<
    Seq<char>,
> {
    match db_find_row(db, id) {
        Some(r) => row_find(r, "naziv"@),
        None => None,
    }
}

/// What name reconciliation makes of one row against a reference table.
pub open spec fn update_row_names(
    r: Seq<(Seq<char>, Seq<char>)>,
    db: Seq<Seq<(Seq<char>, Seq<char>)>>,
) -> Seq<(Seq<char>, Seq<char>)> {
    match row_find(r, "Šifra artikla"@) {
        Some(id) => match db_lookup(db, id) {
            Some(nm) => row_upsert(r, "Naziv artikla"@, nm),
            None => r,
        },
        None => r,
    }
}

impl Table {
    /// Reserved extension point of the operation surface; no behavior yet.
    pub fn update_price() {
    }

    /// Linear scan of a reference table: the "naziv" value of the first row
    /// whose "sifra" value equals `id`.
    pub fn get_find_value(&self, id: &str) -> (r: Option<String>)
        ensures
            (match r {
                Some(v) => db_lookup(self.row_model(), id@) == Some(v@),
                None => db_lookup(self.row_model(), id@) == Option::<Seq<char>>::None,
            }),
    {
        let ghost m = self.row_model();
        proof {
            assert(m.skip(0) =~= m);
        }
        let mut i: usize = 0;
        while i < self.rows.len()
            invariant
                i <= self.rows@.len(),
                m == self.row_model(),
                db_find_row(m, id@) == db_find_row(m.skip(i as int), id@),
            decreases self.rows@.len() - i,
        {
            let row = &self.rows[i];
            proof {
                assert(m.skip(i as int)[0] == m[i as int]);
                assert(m[i as int] == row_entries(self.rows@[i as int]));
                assert(m.skip(i as int).drop_first() =~= m.skip(i as int + 1));
            }
            let matched = match row_get(row, "sifra") {
                Some(v) => str_eq(v.as_str(), id),
                None => false,
            };
            if matched {
                proof {
                    assert(db_find_row(m.skip(i as int), id@) == Some(m[i as int]));
                }
                return match row_get(row, "naziv") {
                    Some(nm) => Some(nm.clone()),
                    None => None,
                };
            }
            proof {
                assert(db_find_row(m.skip(i as int), id@) == db_find_row(
                    m.skip(i as int).drop_first(),
                    id@,
                ));
            }
            i = i + 1;
        }
        proof {
            assert(m.skip(m.len() as int).len() == 0);
        }
        None
    }

    /// For each row, overwrite the name column with the reference table's
    /// name for its article code; rows with no match are left unchanged.
    pub fn update_names(self, database: &Table) -> (r: Table)
        requires
            self.wf(),
        ensures
            r.wf(),
            r.headers == self.headers,
            r.row_model().len() == self.row_model().len(),
            forall|i: int|
                0 <= i < self.row_model().len() ==> #[trigger] r.row_model()[i] == update_row_names(
                    self.row_model()[i],
                    database.row_model(),
                ),
    {
        let ghost m = self.row_model();
        let ghost dbm = database.row_model();
        let mut rows2: Vec<Row> = Vec::new();
        let mut i: usize = 0;
        while i < self.rows.len()
            invariant
                i <= self.rows@.len(),
                m == self.row_model(),
                dbm == database.row_model(),
                self.wf(),
                rows2@.len() == i,
                forall|k: int|
                    0 <= k < i ==> row_entries(#[trigger] rows2@[k]) == update_row_names(
                        m[k],
                        dbm,
                    ) && distinct_keys(row_entries(rows2@[k])),
            decreases self.rows@.len() - i,
        {
            let row = &self.rows[i];
            proof {
                assert(m[i as int] == row_entries(self.rows@[i as int]));
                assert(distinct_keys(row_entries(self.rows@[i as int])));
            }
            let mut nr = row_clone(row);
            let sifra_opt = match row_get(row, "Šifra artikla") {
                Some(s) => Some(s.clone()),
                None => None,
            };
            if let Some(sifra) = sifra_opt {
                if let Some(nm) = database.get_find_value(sifra.as_str()) {
                    proof {
                        lemma_upsert(row_entries(*row), "Naziv artikla"@, nm@);
                    }
                    row_insert(&mut nr, "Naziv artikla", nm);
                }
            }
            rows2.push(nr);
            i = i + 1;
        }
        let t = Table { headers: self.headers, rows: rows2 };
        t
    }
}

/// What a rounding operation makes of one row: the cell under `col` rounded
/// to `p` fractional digits when numeric, everything else untouched.
pub open spec fn format_row_model(
    r: Seq<(Seq<char>, Seq<char>)>,
    col: Seq<char>,
    p: nat,
) -> Seq<(Seq<char>, Seq<char>)> {
    match row_find(r, col) {
        Some(v) => if spec_parse_dec(v) != Option::<Dec>::None {
            row_upsert(r, col, round_cell(v, p))
        } else {
            r
        },
        None => r,
    }
}

pub open spec fn format_col_model(
    m: Seq<Seq<(Seq<char>, Seq<char>)>>,
    col: Seq<char>,
    p: nat,
) -> Seq<Seq<(Seq<char>, Seq<char>)>> {
    m.map_values(|r: Seq<(Seq<char>, Seq<char>)>| format_row_model(r, col, p))
}

fn format_rows(rows: &Vec<Row>, col: &str, p: u32) -> (out: Vec<Row>)
    requires
        rows_wf(rows@),
        1 <= p <= 4,
    ensures
        out@.len() == rows@.len(),
        forall|i: int|
            0 <= i < rows@.len() ==> row_entries(#[trigger] out@[i]) == format_row_model(
                row_entries(rows@[i]),
                col@,
                p as nat,
            ) && distinct_keys(row_entries(out@[i])),
{
    let mut out: Vec<Row> = Vec::new();
    let mut i: usize = 0;
    while i < rows.len()
        invariant
            rows_wf(rows@),
            1 <= p <= 4,
            i <= rows@.len(),
            out@.len() == i,
            forall|k: int|
                0 <= k < i ==> row_entries(#[trigger] out@[k]) == format_row_model(
                    row_entries(rows@[k]),
                    col@,
                    p as nat,
                ) && distinct_keys(row_entries(out@[k])),
        decreases rows@.len() - i,
    {
        let row = &rows[i];
        let mut nr = row_clone(row);
        match row_get(row, col) {
            Some(v) => {
                match round_cell_str(v.as_str(), p) {
                    Some(nv) => {
                        proof {
                            lemma_upsert(row_entries(*row), col@, nv@);
                        }
                        row_insert(&mut nr, col, nv);
                    },
                    None => {},
                }
            },
            None => {},
        }
        out.push(nr);
        i = i + 1;
    }
    out
}

/// What barcode deduplication makes of one row: a "Bar kod" cell holding a
/// comma-separated list is cleared to empty text.
pub open spec fn barcode_row_model(r: Seq<(Seq<char>, Seq<char>)>) -> Seq<(Seq<char>, Seq<char>)> {
    match row_find(r, "Bar kod"@) {
        Some(b) => if b.contains(',') {
            row_upsert(r, "Bar kod"@, Seq::<char>::empty())
        } else {
            r
        },
        None => r,
    }
}

pub open spec fn barcode_model(m: Seq<Seq<(Seq<char>, Seq<char>)>>) -> Seq<
    Seq<(Seq<char>, Seq<char>)>,
> {
    m.map_values(|r: Seq<(Seq<char>, Seq<char>)>| barcode_row_model(r))
}

/// One record per cleared barcode cell, in row order, carrying the row's
/// identity columns and the original barcode text.
pub open spec fn removed_model(m: Seq<Seq<(Seq<char>, Seq<char>)>>) -> Seq<
    (int, Seq<char>, Seq<char>, Seq<char>),
>
    decreases m.len(),
{
    if m.len() == 0 {
        Seq::<(int, Seq<char>, Seq<char>, Seq<char>)>::empty()
    } else {
        removed_model(m.drop_last()) + (match row_find(m.last(), "Bar kod"@) {
            Some(b) => if b.contains(',') {
                seq![
                    (
                        (m.len() - 1) as int,
                        cell_or_empty(m.last(), "Šifra artikla"@),
                        cell_or_empty(m.last(), "Naziv artikla"@),
                        b,
                    ),
                ]
            } else {
                Seq::<(int, Seq<char>, Seq<char>, Seq<char>)>::empty()
            },
            None => Seq::<(int, Seq<char>, Seq<char>, Seq<char>)>::empty(),
        })
    }
}

/// What locale normalization makes of one row: every comma in every value
/// becomes a period; column names and order are untouched.
pub open spec fn swap_row_model(r: Seq<(Seq<char>, Seq<char>)>) -> Seq<(Seq<char>, Seq<char>)> {
    r.map_values(|p: (Seq<char>, Seq<char>)| (p.0, comma_to_dot(p.1)))
}

pub open spec fn swap_model(m: Seq<Seq<(Seq<char>, Seq<char>)>>) -> Seq<
    Seq<(Seq<char>, Seq<char>)>,
> {
    m.map_values(|r: Seq<(Seq<char>, Seq<char>)>| swap_row_model(r))
}

fn swap_row(row: &Row) -> (nr: Row)
    requires
        distinct_keys(row_entries(*row)),
    ensures
        row_entries(nr) == swap_row_model(row_entries(*row)),
        distinct_keys(row_entries(nr)),
{
    let ghost re = row_entries(*row);
    let ghost target = swap_row_model(re);
    let mut nr = row_new();
    let n = row_len(row);
    proof {
        assert(row_entries(nr) =~= target.take(0));
    }
    let mut j: usize = 0;
    while j < n
        invariant
            distinct_keys(re),
            re == row_entries(*row),
            target == swap_row_model(re),
            n == re.len(),
            j <= n,
            row_entries(nr) == target.take(j as int),
            distinct_keys(row_entries(nr)),
        decreases n - j,
    {
        let pair = row_get_index(row, j);
        if let Some((k, v)) = pair {
            let nv = replace_commas(v.as_str());
            proof {
                assert(re[j as int] == (k@, v@));
                assert(target[j as int] == (k@, comma_to_dot(v@)));
                if row_has_key(row_entries(nr), k@) {
                    let jj = key_index(row_entries(nr), k@);
                    assert(0 <= jj < j && row_entries(nr)[jj].0 == k@);
                    assert(target[jj] == (re[jj].0, comma_to_dot(re[jj].1)));
                    assert(re[jj].0 == re[j as int].0);
                    assert(false);
                }
                lemma_upsert(row_entries(nr), k@, nv@);
                assert(row_entries(nr).push((k@, nv@)) =~= target.take(j as int + 1));
            }
            row_insert(&mut nr, k.as_str(), nv);
        } else {
            proof {
                assert(false);
            }
        }
        j = j + 1;
    }
    proof {
        assert(target.take(n as int) =~= target);
    }
    nr
}

impl Table {
    /// Rounds the total-price column to four fractional digits, half away
    /// from zero; non-numeric cells pass through unchanged.
    pub fn format_redovna_cena_4dec(&mut self)
        requires
            old(self).wf(),
        ensures
            final(self).wf(),
            final(self).headers == old(self).headers,
            final(self).row_model() == format_col_model(old(self).row_model(), "Ukupna cena"@, 4),
    {
        let nr = format_rows(&self.rows, "Ukupna cena", 4);
        self.rows = nr;
        proof {
            assert forall|i: int| 0 <= i < self.rows@.len() implies #[trigger] self.row_model()[i]
                == format_col_model(old(self).row_model(), "Ukupna cena"@, 4)[i] && distinct_keys(
                row_entries(self.rows@[i]),
            ) by {
                assert(self.row_model()[i] == row_entries(self.rows@[i]));
                assert(old(self).row_model()[i] == row_entries(old(self).rows@[i]));
            }
            assert(self.row_model() =~= format_col_model(old(self).row_model(), "Ukupna cena"@, 4));
        }
    }

    /// Rounds the quantity and retail-price columns to two fractional digits,
    /// half away from zero; non-numeric cells pass through unchanged.
    pub fn format_kol_i_mp_cena_2dec(&mut self)
        requires
            old(self).wf(),
        ensures
            final(self).wf(),
            final(self).headers == old(self).headers,
            final(self).row_model() == format_col_model(
                format_col_model(old(self).row_model(), "Količina"@, 2),
                "Cena MP"@,
                2,
            ),
    {
        let ghost m0 = self.row_model();
        let nr1 = format_rows(&self.rows, "Količina", 2);
        self.rows = nr1;
        proof {
            assert forall|i: int| 0 <= i < self.rows@.len() implies #[trigger] self.row_model()[i]
                == format_col_model(m0, "Količina"@, 2)[i] && distinct_keys(
                row_entries(self.rows@[i]),
            ) by {
                assert(self.row_model()[i] == row_entries(self.rows@[i]));
                assert(m0[i] == row_entries(old(self).rows@[i]));
            }
            assert(self.row_model() =~= format_col_model(m0, "Količina"@, 2));
        }
        let ghost m1 = self.row_model();
        let nr2 = format_rows(&self.rows, "Cena MP", 2);
        self.rows = nr2;
        proof {
            assert forall|i: int| 0 <= i < self.rows@.len() implies #[trigger] self.row_model()[i]
                == format_col_model(m1, "Cena MP"@, 2)[i] && distinct_keys(
                row_entries(self.rows@[i]),
            ) by {
                assert(self.row_model()[i] == row_entries(self.rows@[i]));
            }
            assert(self.row_model() =~= format_col_model(m1, "Cena MP"@, 2));
        }
    }

    /// Clears every barcode cell that encodes several comma-separated values
    /// and reports each clearing, in row order.
    pub fn remove_duplicate_barcodes(&mut self) -> (removed: Vec<RemovedBarcode>)
        requires
            old(self).wf(),
        ensures
            final(self).wf(),
            final(self).headers == old(self).headers,
            final(self).row_model() == barcode_model(old(self).row_model()),
            removed@.map_values(|x: RemovedBarcode| removed_barcode_model(x)) == removed_model(
                old(self).row_model(),
            ),
    {
        let ghost m = old(self).row_model();
        let mut out: Vec<Row> = Vec::new();
        let mut removed: Vec<RemovedBarcode> = Vec::new();
        proof {
            assert(removed@.map_values(|x: RemovedBarcode| removed_barcode_model(x)) =~= removed_model(
                m.take(0),
            ));
        }
        let mut i: usize = 0;
        while i < self.rows.len()
            invariant
                *self == *old(self),
                m == old(self).row_model(),
                old(self).wf(),
                i <= self.rows@.len(),
                out@.len() == i,
                forall|k: int|
                    0 <= k < i ==> row_entries(#[trigger] out@[k]) == barcode_row_model(m[k])
                        && distinct_keys(row_entries(out@[k])),
                removed@.map_values(|x: RemovedBarcode| removed_barcode_model(x)) == removed_model(
                    m.take(i as int),
                ),
            decreases self.rows@.len() - i,
        {
            let ghost removed0 = removed@;
            let row = &self.rows[i];
            proof {
                assert(m[i as int] == row_entries(self.rows@[i as int]));
                assert(distinct_keys(row_entries(self.rows@[i as int])));
                assert(m.take(i as int + 1).drop_last() =~= m.take(i as int));
                assert(m.take(i as int + 1).last() == m[i as int]);
            }
            let mut nr = row_clone(row);
            match row_get(row, "Bar kod") {
                Some(b) => {
                    if contains_char(b.as_str(), ',') {
                        let rec = RemovedBarcode {
                            row_idx: i,
                            sifra: cell_text_or_empty(row, "Šifra artikla"),
                            naziv: cell_text_or_empty(row, "Naziv artikla"),
                            original_barcode: b.clone(),
                        };
                        removed.push(rec);
                        proof {
                            lemma_upsert(row_entries(*row), "Bar kod"@, Seq::<char>::empty());
                        }
                        row_insert(&mut nr, "Bar kod", String::new());
                    }
                },
                None => {},
            }
            out.push(nr);
            i = i + 1;
            proof {
                assert(removed@.map_values(|x: RemovedBarcode| removed_barcode_model(x))
                    =~= removed_model(m.take(i as int)));
            }
        }
        self.rows = out;
        proof {
            assert(m.take(m.len() as int) =~= m);
            assert forall|i2: int| 0 <= i2 < self.rows@.len() implies #[trigger] self.row_model()[i2]
                == barcode_model(m)[i2] && distinct_keys(row_entries(self.rows@[i2])) by {
                assert(self.row_model()[i2] == row_entries(self.rows@[i2]));
            }
            assert(self.row_model() =~= barcode_model(m));
        }
        removed
    }

    /// Replaces every comma with a period in every cell of every row.
    pub fn swap_all_commas_to_dots(&mut self)
        requires
            old(self).wf(),
        ensures
            final(self).wf(),
            final(self).headers == old(self).headers,
            final(self).row_model() == swap_model(old(self).row_model()),
    {
        let ghost m = old(self).row_model();
        let mut out: Vec<Row> = Vec::new();
        let mut i: usize = 0;
        while i < self.rows.len()
            invariant
                *self == *old(self),
                m == old(self).row_model(),
                old(self).wf(),
                i <= self.rows@.len(),
                out@.len() == i,
                forall|k: int|
                    0 <= k < i ==> row_entries(#[trigger] out@[k]) == swap_row_model(m[k])
                        && distinct_keys(row_entries(out@[k])),
            decreases self.rows@.len() - i,
        {
            proof {
                assert(m[i as int] == row_entries(self.rows@[i as int]));
                assert(distinct_keys(row_entries(self.rows@[i as int])));
            }
            let nr = swap_row(&self.rows[i]);
            out.push(nr);
            i = i + 1;
        }
        self.rows = out;
        proof {
            assert forall|i2: int| 0 <= i2 < self.rows@.len() implies #[trigger] self.row_model()[i2]
                == swap_model(m)[i2] && distinct_keys(row_entries(self.rows@[i2])) by {
                assert(self.row_model()[i2] == row_entries(self.rows@[i2]));
            }
            assert(self.row_model() =~= swap_model(m));
        }
    }
}

/// The cell under `col` parsed as a decimal (commas read as periods), or
/// zero when the column is absent or not numeric.
pub open spec fn dec_or_zero(r: Seq<(Seq<char>, Seq<char>)>, col: Seq<char>) -> Dec {
    match row_find(r, col) {
        Some(v) => match spec_parse_dec(comma_to_dot(v)) {
            Some(d) => d,
            None => Dec { neg: false, num: 0, scale: 0 },
        },
        None => Dec { neg: false, num: 0, scale: 0 },
    }
}

/// `round((u / c) * 100, 2)` in hundredths of a percent, half away from zero.
pub open spec fn ratio_pct_hundredths(u: Dec, c: Dec) -> int {
    let a = (u.num as int) * pow10((c.scale + 4) as nat);
    let b = (c.num as int) * pow10(u.scale as nat);
    let p = (2 * a + b) / (2 * b);
    if u.neg {
        -p
    } else {
        p
    }
}

/// The report a row yields, if its retail price is positive and the price
/// ratio exceeds the threshold (a percentage in hundredths).
pub open spec fn row_price_update(r: Seq<(Seq<char>, Seq<char>)>, idx: int, thr: int) -> Option<
    (int, Seq<char>, Seq<char>, Dec, Dec, int),
> {
    let u = dec_or_zero(r, "Ukupna cena"@);
    let c = dec_or_zero(r, "Cena MP"@);
    if c.num > 0 && !c.neg {
        let pct = ratio_pct_hundredths(u, c);
        if pct > thr {
            Some(
                (
                    idx,
                    cell_or_empty(r, "Šifra artikla"@),
                    cell_or_empty(r, "Naziv artikla"@),
                    u,
                    c,
                    pct,
                ),
            )
        } else {
            None
        }
    } else {
        None
    }
}

pub open spec fn price_updates_model(m: Seq<Seq<(Seq<char>, Seq<char>)>>, thr: int) -> Seq<
    (int, Seq<char>, Seq<char>, Dec, Dec, int),
>
    decreases m.len(),
{
    if m.len() == 0 {
        Seq::<(int, Seq<char>, Seq<char>, Dec, Dec, int)>::empty()
    } else {
        price_updates_model(m.drop_last(), thr) + (match row_price_update(
            m.last(),
            m.len() - 1,
            thr,
        ) {
            Some(x) => seq![x],
            None => Seq::<(int, Seq<char>, Seq<char>, Dec, Dec, int)>::empty(),
        })
    }
}

proof fn lemma_dec_or_zero_wf(r: Seq<(Seq<char>, Seq<char>)>, col: Seq<char>)
    ensures
        dec_or_zero(r, col).num < 1000000000000000,
        dec_or_zero(r, col).scale <= 15,
{
    match row_find(r, col) {
        Some(v) => {
            lemma_parse_wf(comma_to_dot(v));
        },
        None => {},
    }
}

fn parse_cell_dec(row: &Row, col: &str) -> (d: Dec)
    ensures
        d == dec_or_zero(row_entries(*row), col@),
{
    match row_get(row, col) {
        Some(v) => {
            let w = replace_commas(v.as_str());
            match parse_dec(w.as_str()) {
                Some(d) => d,
                None => Dec { neg: false, num: 0, scale: 0 },
            }
        },
        None => Dec { neg: false, num: 0, scale: 0 },
    }
}

fn pct_hundredths(u: Dec, c: Dec) -> (p: i128)
    requires
        u.num < 1000000000000000,
        u.scale <= 15,
        c.scale <= 15,
        0 < c.num < 1000000000000000,
    ensures
        p as int == ratio_pct_hundredths(u, c),
{
    let pa = pow10_u64(c.scale + 4);
    let pb = pow10_u64(u.scale);
    proof {
        reveal_with_fuel(pow10, 21);
        lemma_pow10_mono((c.scale + 4) as nat, 19);
        lemma_pow10_mono(u.scale as nat, 15);
        assert(pow10(19) == 10000000000000000000);
        assert(pow10(15) == 1000000000000000);
    }
    proof {
        assert((u.num as int) * (pa as int) <= 1000000000000000 * 10000000000000000000)
            by (nonlinear_arith)
            requires
                0 <= u.num < 1000000000000000,
                0 <= pa <= 10000000000000000000,
        ;
        assert(1 <= (c.num as int) * (pb as int) <= 1000000000000000 * 1000000000000000)
            by (nonlinear_arith)
            requires
                0 < c.num < 1000000000000000,
                1 <= pb <= 1000000000000000,
        ;
    }
    let a: u128 = (u.num as u128) * (pa as u128);
    let b: u128 = (c.num as u128) * (pb as u128);
    let q: u128 = (2 * a + b) / (2 * b);
    proof {
        assert(q <= 2 * a + b) by (nonlinear_arith)
            requires
                q == (2 * a + b) / (2 * b),
                b >= 1,
        ;
    }
    let qi = q as i128;
    if u.neg {
        -qi
    } else {
        qi
    }
}

impl Table {
    /// Scans every row: where the retail price is positive, computes the
    /// total/retail ratio as a percentage rounded to two fractional digits,
    /// and reports the row when it exceeds the threshold (in hundredths of a
    /// percent). Rows with a non-numeric or zero retail price yield nothing.
    pub fn find_price_updates(&self, threshold: i64) -> (items: Vec<PriceUpdateItem>)
        ensures
            items@.map_values(|x: PriceUpdateItem| price_update_model(x)) == price_updates_model(
                self.row_model(),
                threshold as int,
            ),
    {
        let ghost m = self.row_model();
        let mut items: Vec<PriceUpdateItem> = Vec::new();
        proof {
            assert(items@.map_values(|x: PriceUpdateItem| price_update_model(x))
                =~= price_updates_model(m.take(0), threshold as int));
        }
        let mut i: usize = 0;
        while i < self.rows.len()
            invariant
                m == self.row_model(),
                i <= self.rows@.len(),
                items@.map_values(|x: PriceUpdateItem| price_update_model(x))
                    == price_updates_model(m.take(i as int), threshold as int),
            decreases self.rows@.len() - i,
        {
            let row = &self.rows[i];
            proof {
                assert(m[i as int] == row_entries(self.rows@[i as int]));
                assert(m.take(i as int + 1).drop_last() =~= m.take(i as int));
                assert(m.take(i as int + 1).last() == m[i as int]);
                lemma_dec_or_zero_wf(row_entries(self.rows@[i as int]), "Ukupna cena"@);
                lemma_dec_or_zero_wf(row_entries(self.rows@[i as int]), "Cena MP"@);
            }
            let u = parse_cell_dec(row, "Ukupna cena");
            let c = parse_cell_dec(row, "Cena MP");
            if c.num > 0 && !c.neg {
                let pct = pct_hundredths(u, c);
                if pct > (threshold as i128) {
                    let rec = PriceUpdateItem {
                        row_idx: i,
                        sifra: cell_text_or_empty(row, "Šifra artikla"),
                        naziv: cell_text_or_empty(row, "Naziv artikla"),
                        ukupna_cena: u,
                        cena_mp: c,
                        percentage_hundredths: pct,
                    };
                    items.push(rec);
                }
            }
            i = i + 1;
            proof {
                assert(items@.map_values(|x: PriceUpdateItem| price_update_model(x))
                    =~= price_updates_model(m.take(i as int), threshold as int));
            }
        }
        proof {
            assert(m.take(m.len() as int) =~= m);
        }
        items
    }
}

/// The changed addresses one row contributes: every column of the
/// transformed row whose value differs from the original row's, in column
/// order.
pub open spec fn row_diff_model(
    tr: Seq<(Seq<char>, Seq<char>)>,
    orig: Seq<(Seq<char>, Seq<char>)>,
    row: int,
) -> Seq<(int, Seq<char>)>
    decreases tr.len(),
{
    if tr.len() == 0 {
        Seq::<(int, Seq<char>)>::empty()
    } else {
        row_diff_model(tr.drop_last(), orig, row) + (if row_find(orig, tr.last().0) == Some(
            tr.last().1,
        ) {
            Seq::<(int, Seq<char>)>::empty()
        } else {
            seq![(row, tr.last().0)]
        })
    }
}

/// All changed cell addresses, row-major, columns in each row's order.
pub open spec fn diff_model(
    trm: Seq<Seq<(Seq<char>, Seq<char>)>>,
    orm: Seq<Seq<(Seq<char>, Seq<char>)>>,
) -> Seq<(int, Seq<char>)>
    decreases trm.len(),
{
    if trm.len() == 0 {
        Seq::<(int, Seq<char>)>::empty()
    } else {
        diff_model(trm.drop_last(), orm) + row_diff_model(
            trm.last(),
            orm[trm.len() - 1],
            trm.len() - 1,
        )
    }
}

/// The diff is defined when both tables have the same row count and every
/// column of the transformed table exists in the original's matching row.
pub open spec fn rows_aligned(
    trm: Seq<Seq<(Seq<char>, Seq<char>)>>,
    orm: Seq<Seq<(Seq<char>, Seq<char>)>>,
) -> bool {
    trm.len() == orm.len() && forall|i: int, j: int|
        0 <= i < trm.len() && 0 <= j < trm[i].len() ==> row_has_key(
            orm[i],
            (#[trigger] trm[i][j]).0,
        )
}

impl Table {
    /// Compares this (transformed) table cell by cell against the original
    /// it was derived from. Fails, rather than truncating, when the original
    /// lacks a row or a column: that signals the tables are unrelated.
    #[verifier::rlimit(100)]
    pub fn compare_cells(&self, table: &Table) -> (r: Result<Vec<CellAddress>, String>)
        ensures
            r is Ok <==> rows_aligned(self.row_model(), table.row_model()),
            (match r {
                Ok(ch) => ch@.map_values(|a: CellAddress| addr_model(a)) == diff_model(
                    self.row_model(),
                    table.row_model(),
                ),
                Err(_) => true,
            }),
    {
        let ghost trm = self.row_model();
        let ghost orm = table.row_model();
        if self.rows.len() != table.rows.len() {
            return Err(String::from_str("row count differs from the original table"));
        }
        let mut changed: Vec<CellAddress> = Vec::new();
        proof {
            assert(changed@.map_values(|a: CellAddress| addr_model(a)) =~= diff_model(
                trm.take(0),
                orm,
            ));
        }
        let mut i: usize = 0;
        while i < self.rows.len()
            invariant
                trm == self.row_model(),
                orm == table.row_model(),
                self.rows@.len() == table.rows@.len(),
                i <= self.rows@.len(),
                changed@.map_values(|a: CellAddress| addr_model(a)) == diff_model(
                    trm.take(i as int),
                    orm,
                ),
                forall|i2: int, j2: int|
                    0 <= i2 < i && 0 <= j2 < trm[i2].len() ==> row_has_key(
                        orm[i2],
                        (#[trigger] trm[i2][j2]).0,
                    ),
            decreases self.rows@.len() - i,
        {
            let row = &self.rows[i];
            let orow = &table.rows[i];
            proof {
                assert(trm[i as int] == row_entries(self.rows@[i as int]));
                assert(orm[i as int] == row_entries(table.rows@[i as int]));
                assert(trm.take(i as int + 1).drop_last() =~= trm.take(i as int));
                assert(trm.take(i as int + 1).last() == trm[i as int]);
            }
            let ghost re = trm[i as int];
            let n = row_len(row);
            proof {
                assert(changed@.map_values(|a: CellAddress| addr_model(a)) =~= diff_model(
                    trm.take(i as int),
                    orm,
                ) + row_diff_model(re.take(0), orm[i as int], i as int));
            }
            let mut j: usize = 0;
            while j < n
                invariant
                    trm == self.row_model(),
                    orm == table.row_model(),
                    i < self.rows@.len() == table.rows@.len(),
                    re == trm[i as int],
                    re == row_entries(self.rows@[i as int]),
                    orm[i as int] == row_entries(table.rows@[i as int]),
                    n == re.len(),
                    j <= n,
                    row == &self.rows@[i as int],
                    orow == &table.rows@[i as int],
                    changed@.map_values(|a: CellAddress| addr_model(a)) == diff_model(
                        trm.take(i as int),
                        orm,
                    ) + row_diff_model(re.take(j as int), orm[i as int], i as int),
                    forall|j2: int| 0 <= j2 < j ==> row_has_key(orm[i as int], (#[trigger] re[j2]).0),
                decreases n - j,
            {
                proof {
                    assert(re.take(j as int + 1).drop_last() =~= re.take(j as int));
                    assert(re.take(j as int + 1).last() == re[j as int]);
                }
                let ghost chg0 = changed@;
                let pair = row_get_index(row, j);
                if let Some((k, v)) = pair {
                    proof {
                        assert(re[j as int] == (k@, v@));
                    }
                    match row_get(orow, k.as_str()) {
                        Some(ov) => {
                            proof {
                                assert(row_find(orm[i as int], re[j as int].0) == Some(ov@));
                            }
                            if !str_eq(v.as_str(), ov.as_str()) {
                                let addr = CellAddress { row: i, col: k.clone() };
                                proof {
                                    assert(addr_model(addr) == (i as int, re[j as int].0));
                                }
                                changed.push(addr);
                                proof {
                                    assert(row_diff_model(
                                        re.take(j as int + 1),
                                        orm[i as int],
                                        i as int,
                                    ) == row_diff_model(re.take(j as int), orm[i as int], i as int)
                                        + seq![(i as int, re[j as int].0)]);
                                    assert(changed@.map_values(|a: CellAddress| addr_model(a))
                                        =~= chg0.map_values(|a: CellAddress| addr_model(a)).push(
                                        addr_model(addr),
                                    ));
                                    assert(changed@.map_values(|a: CellAddress| addr_model(a))
                                        =~= diff_model(trm.take(i as int), orm) + row_diff_model(
                                        re.take(j as int + 1),
                                        orm[i as int],
                                        i as int,
                                    ));
                                }
                            } else {
                                proof {
                                    assert(row_find(orm[i as int], re[j as int].0) == Some(
                                        re[j as int].1,
                                    ));
                                    assert(row_diff_model(
                                        re.take(j as int + 1),
                                        orm[i as int],
                                        i as int,
                                    ) == row_diff_model(re.take(j as int), orm[i as int], i as int)
                                        + Seq::<(int, Seq<char>)>::empty());
                                    assert(changed@.map_values(|a: CellAddress| addr_model(a))
                                        =~= diff_model(trm.take(i as int), orm) + row_diff_model(
                                        re.take(j as int + 1),
                                        orm[i as int],
                                        i as int,
                                    ));
                                }
                            }
                        },
                        None => {
                            proof {
                                assert(!row_has_key(orm[i as int], re[j as int].0)) by {
                                    if row_has_key(orm[i as int], re[j as int].0) {
                                        let jj = key_index(orm[i as int], re[j as int].0);
                                        lemma_find_at_index(orm[i as int], jj);
                                        assert(false);
                                    }
                                }
                            }
                            return Err(
                                String::from_str("column missing from the original table"),
                            );
                        },
                    }
                } else {
                    proof {
                        assert(false);
                    }
                }
                j = j + 1;
            }
            proof {
                assert(re.take(n as int) =~= re);
            }
            i = i + 1;
        }
        proof {
            assert(trm.take(trm.len() as int) =~= trm);
        }
        Ok(changed)
    }
}

/// The serialized form of one row: nine comma-separated fields, the literal
/// tokens "kom" and "PDVOS" third and fourth, the total price twice, and a
/// newline. Missing columns render as empty text.
pub open spec fn line_model(r: Seq<(Seq<char>, Seq<char>)>) -> Seq<char> {
    cell_or_empty(r, "Šifra artikla"@) + ","@ + cell_or_empty(r, "Naziv artikla"@)
        + ",kom,PDVOS,"@ + cell_or_empty(r, "Bar kod"@) + ","@ + cell_or_empty(r, "Količina"@)
        + ","@ + cell_or_empty(r, "Ukupna cena"@) + ","@ + cell_or_empty(r, "Ukupna cena"@) + ","@
        + cell_or_empty(r, "Cena MP"@) + "\n"@
}

pub open spec fn table_str_model(m: Seq<Seq<(Seq<char>, Seq<char>)>>) -> Seq<char>
    decreases m.len(),
{
    if m.len() == 0 {
        Seq::<char>::empty()
    } else {
        table_str_model(m.drop_last()) + line_model(m.last())
    }
}

#[verifier::rlimit(100)]
fn append_line(out: &mut String, row: &Row)
    ensures
        final(out)@ == old(out)@ + line_model(row_entries(*row)),
{
    let f1 = cell_text_or_empty(row, "Šifra artikla");
    out.append(f1.as_str());
    out.append(",");
    let f2 = cell_text_or_empty(row, "Naziv artikla");
    out.append(f2.as_str());
    out.append(",kom,PDVOS,");
    let f3 = cell_text_or_empty(row, "Bar kod");
    out.append(f3.as_str());
    out.append(",");
    let f4 = cell_text_or_empty(row, "Količina");
    out.append(f4.as_str());
    out.append(",");
    let f5 = cell_text_or_empty(row, "Ukupna cena");
    out.append(f5.as_str());
    out.append(",");
    let f6 = cell_text_or_empty(row, "Ukupna cena");
    out.append(f6.as_str());
    out.append(",");
    let f7 = cell_text_or_empty(row, "Cena MP");
    out.append(f7.as_str());
    out.append("\n");
    proof {
        assert(out@ =~= old(out)@ + line_model(row_entries(*row)));
    }
}

/// Renders a table in the export format, one line per row.
pub fn table_to_str(transformed: &Table) -> (r: Result<String, String>)
    ensures
        (match r {
            Ok(s) => s@ == table_str_model(transformed.row_model()),
            Err(_) => false,
        }),
{
    let ghost m = transformed.row_model();
    let mut out = String::new();
    proof {
        assert(out@ =~= table_str_model(m.take(0)));
    }
    let mut i: usize = 0;
    while i < transformed.rows.len()
        invariant
            m == transformed.row_model(),
            i <= transformed.rows@.len(),
            out@ == table_str_model(m.take(i as int)),
        decreases transformed.rows@.len() - i,
    {
        let row = &transformed.rows[i];
        proof {
            assert(m[i as int] == row_entries(transformed.rows@[i as int]));
            assert(m.take(i as int + 1).drop_last() =~= m.take(i as int));
            assert(m.take(i as int + 1).last() == m[i as int]);
        }
        append_line(&mut out, row);
        i = i + 1;
    }
    proof {
        assert(m.take(m.len() as int) =~= m);
    }
    Ok(out)
}

} // verus!
