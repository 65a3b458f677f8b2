//! The pipeline orchestrator: applies the enabled operations to a copy of
//! the base table in their fixed order, collects their reports, diffs the
//! result against the original, and renders the export text.
use vstd::prelude::*;
use crate::table::{
    Table, CellAddress, RemovedBarcode, PriceUpdateItem, addr_model, removed_barcode_model,
    price_update_model, update_row_names, format_col_model, barcode_model, removed_model,
    swap_model, diff_model, rows_aligned, price_updates_model, table_str_model, table_to_str,
};

verus! {

/// Reserved for rows lacking any barcode; the pipeline reports the list but
/// does not populate it yet.
#[derive(Clone, Debug)]
pub struct MissingBarcode {
    pub row_idx: usize,
    pub sifra: String,
    pub naziv: String,
}

/// Which operations a pipeline run applies. The two auto-update flags are
/// reserved extension points with no behavior.
#[derive(Clone, Copy, Debug)]
pub struct Operations {
    pub update_names: bool,
    pub format_price_4_dec: bool,
    pub remove_duplicate_barcodes: bool,
    pub swap_commas_to_dots: bool,
    pub auto_update_bar_kod: bool,
    pub format_col_and_mp_price_2_dec: bool,
    pub auto_update_price: bool,
}

/// A preview pairing: the original, its transformation, and what changed.
pub struct PreviewResult {
    pub original: Table,
    pub transformed: Table,
    pub changed_cells: Vec<CellAddress>,
}

/// Everything one pipeline run produces.
pub struct OperationResult {
    pub table: Table,
    pub changed_cells: Vec<CellAddress>,
    pub missing_barcodes: Vec<MissingBarcode>,
    pub removed_barcodes: Vec<RemovedBarcode>,
    pub price_updates: Vec<PriceUpdateItem>,
    pub logs: usize,
    pub export_str: String,
}

pub open spec fn opt_model(database: Option<&Table>) -> Option<Seq<Seq<(Seq<char>, Seq<char>)>>> {
    match database {
        Some(db) => Some(db.row_model()),
        None => None,
    }
}

/// The table model after name reconciliation and the two rounding passes,
/// honouring the flags, in the fixed order.
pub open spec fn pre_barcode_model(
    m0: Seq<Seq<(Seq<char>, Seq<char>)>>,
    db: Option<Seq<Seq<(Seq<char>, Seq<char>)>>>,
    ops: Operations,
) -> Seq<Seq<(Seq<char>, Seq<char>)>> {
    let m1 = if ops.update_names {
        match db {
            Some(dm) => m0.map_values(|r: Seq<(Seq<char>, Seq<char>)>| update_row_names(r, dm)),
            None => m0,
        }
    } else {
        m0
    };
    let m2 = if ops.format_col_and_mp_price_2_dec {
        format_col_model(format_col_model(m1, "Količina"@, 2), "Cena MP"@, 2)
    } else {
        m1
    };
    if ops.format_price_4_dec {
        format_col_model(m2, "Ukupna cena"@, 4)
    } else {
        m2
    }
}

/// The final table model the pipeline produces from a base table, an
/// optional reference table and the flags.
pub open spec fn pipeline_model(
    m0: Seq<Seq<(Seq<char>, Seq<char>)>>,
    db: Option<Seq<Seq<(Seq<char>, Seq<char>)>>>,
    ops: Operations,
) -> Seq<Seq<(Seq<char>, Seq<char>)>> {
    let m3 = pre_barcode_model(m0, db, ops);
    let m4 = if ops.remove_duplicate_barcodes {
        barcode_model(m3)
    } else {
        m3
    };
    if ops.swap_commas_to_dots {
        swap_model(m4)
    } else {
        m4
    }
}

/// Applies the enabled operations, in the fixed order, to a copy of `table`;
/// never mutates `table` itself. Succeeds exactly when the transformed table
/// still lines up with the original for diffing, which every operation here
/// preserves.
pub fn apply_operations(
    table: &Table,
    database: Option<&Table>,
    operations: &Operations,
    threshold: i64,
) -> (r: Result<OperationResult, String>)
    requires
        table.wf(),
        (match database {
            Some(db) => db.wf(),
            None => true,
        }),
    ensures
        r is Ok <==> rows_aligned(
            pipeline_model(table.row_model(), opt_model(database), *operations),
            table.row_model(),
        ),
        (match r {
            Ok(res) => {
                let pm = pipeline_model(table.row_model(), opt_model(database), *operations);
                res.table.wf() && res.table.headers_model() == table.headers_model()
                    && res.table.row_model() == pm && res.changed_cells@.map_values(
                    |a: CellAddress| addr_model(a),
                ) == diff_model(pm, table.row_model()) && res.removed_barcodes@.map_values(
                    |x: RemovedBarcode| removed_barcode_model(x),
                ) == (if operations.remove_duplicate_barcodes {
                    removed_model(pre_barcode_model(table.row_model(), opt_model(database), *operations))
                } else {
                    Seq::<(int, Seq<char>, Seq<char>, Seq<char>)>::empty()
                }) && res.price_updates@.map_values(|x: PriceUpdateItem| price_update_model(x))
                    == price_updates_model(pm, threshold as int) && res.missing_barcodes@.len() == 0
                    && res.logs == res.changed_cells@.len() && res.export_str@ == table_str_model(pm)
            },
            Err(_) => true,
        }),
{
    let ghost m0 = table.row_model();
    let mut transformed = table.deep_copy();
    let mut removed: Vec<RemovedBarcode> = Vec::new();
    if operations.update_names {
        if let Some(db) = database {
            let ghost mb = transformed.row_model();
            transformed = transformed.update_names(db);
            proof {
                assert forall|i: int| 0 <= i < m0.len() implies #[trigger] transformed.row_model()[i]
                    == m0.map_values(
                    |r: Seq<(Seq<char>, Seq<char>)>| update_row_names(r, db.row_model()),
                )[i] by {
                    assert(transformed.row_model()[i] == update_row_names(mb[i], db.row_model()));
                }
                assert(transformed.row_model() =~= m0.map_values(
                    |r: Seq<(Seq<char>, Seq<char>)>| update_row_names(r, db.row_model()),
                ));
            }
        }
    }
    proof {
        assert(transformed.row_model() == (if operations.update_names {
            match opt_model(database) {
                Some(dm) => m0.map_values(|r: Seq<(Seq<char>, Seq<char>)>| update_row_names(r, dm)),
                None => m0,
            }
        } else {
            m0
        }));
    }
    if operations.format_col_and_mp_price_2_dec {
        transformed.format_kol_i_mp_cena_2dec();
    }
    if operations.format_price_4_dec {
        transformed.format_redovna_cena_4dec();
    }
    proof {
        assert(transformed.row_model() == pre_barcode_model(m0, opt_model(database), *operations));
    }
    if operations.remove_duplicate_barcodes {
        removed = transformed.remove_duplicate_barcodes();
    }
    if operations.swap_commas_to_dots {
        transformed.swap_all_commas_to_dots();
    }
    proof {
        assert(transformed.row_model() == pipeline_model(m0, opt_model(database), *operations));
        if !operations.remove_duplicate_barcodes {
            assert(removed@.map_values(|x: RemovedBarcode| removed_barcode_model(x)) =~= Seq::<
                (int, Seq<char>, Seq<char>, Seq<char>),
            >::empty());
        }
    }
    let changed = match transformed.compare_cells(table) {
        Ok(c) => c,
        Err(e) => {
            return Err(e);
        },
    };
    let export_str = match table_to_str(&transformed) {
        Ok(s) => s,
        Err(e) => {
            return Err(e);
        },
    };
    let price_updates = transformed.find_price_updates(threshold);
    let logs = changed.len();
    Ok(
        OperationResult {
            table: transformed,
            changed_cells: changed,
            missing_barcodes: Vec::new(),
            removed_barcodes: removed,
            price_updates,
            logs,
            export_str,
        },
    )
}

} // verus!
