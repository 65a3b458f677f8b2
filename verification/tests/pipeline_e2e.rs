use invoice_pipeline::pipeline::{apply_operations, Operations};
use invoice_pipeline::table::Table;
use invoice_pipeline::text::normalize_text;

fn t(headers: &[&str], rows: &[&[&str]]) -> Table {
    let hs: Vec<String> = headers.iter().map(|h| h.to_string()).collect();
    let rs: Vec<Vec<String>> = rows
        .iter()
        .map(|r| r.iter().map(|v| v.to_string()).collect())
        .collect();
    Table::from_cells(hs, rs)
}

fn all_ops() -> Operations {
    Operations {
        update_names: true,
        format_price_4_dec: true,
        remove_duplicate_barcodes: true,
        swap_commas_to_dots: true,
        auto_update_bar_kod: true,
        format_col_and_mp_price_2_dec: true,
        auto_update_price: true,
    }
}

#[test]
fn end_to_end_all_operations() {
    let invoice = t(
        &["Šifra artikla", "Naziv artikla", "Bar kod", "Ukupna cena", "Cena MP"],
        &[&["A1", "Old", "123,456", "10.5555", "9.999"]],
    );
    let db = t(&["sifra", "naziv"], &[&["A1", "New"]]);
    let ops = all_ops();
    let res = apply_operations(&invoice, Some(&db), &ops, 10000).unwrap();

    assert_eq!(res.table.get(0, "Naziv artikla").unwrap(), "New");
    assert_eq!(res.table.get(0, "Bar kod").unwrap(), "");
    assert_eq!(res.table.get(0, "Ukupna cena").unwrap(), "10.5555");
    assert_eq!(res.table.get(0, "Cena MP").unwrap(), "10.00");

    assert_eq!(res.removed_barcodes.len(), 1);
    assert_eq!(res.removed_barcodes[0].original_barcode, "123,456");
    assert_eq!(res.removed_barcodes[0].sifra, "A1");

    let changed: Vec<(usize, String)> =
        res.changed_cells.iter().map(|a| (a.row, a.col.clone())).collect();
    assert!(changed.contains(&(0, "Naziv artikla".to_string())));
    assert!(changed.contains(&(0, "Bar kod".to_string())));
    assert!(changed.contains(&(0, "Cena MP".to_string())));
    assert!(!changed.contains(&(0, "Šifra artikla".to_string())));
    assert_eq!(res.logs, res.changed_cells.len());

    // 10.5555 / 10.00 = 105.555 % -> 105.56 % rounded, above the 100 % bar
    assert_eq!(res.price_updates.len(), 1);
    assert_eq!(res.price_updates[0].percentage_hundredths, 10556);

    assert!(res.missing_barcodes.is_empty());
    assert_eq!(res.export_str, "A1,New,kom,PDVOS,,,10.5555,10.5555,10.00\n");

    // the base table is untouched
    assert_eq!(invoice.get(0, "Naziv artikla").unwrap(), "Old");
    assert_eq!(invoice.get(0, "Bar kod").unwrap(), "123,456");
}

#[test]
fn pipeline_with_no_operations_changes_nothing() {
    let invoice = t(&["Šifra artikla", "Ukupna cena"], &[&["A1", "10,5"]]);
    let ops = Operations {
        update_names: false,
        format_price_4_dec: false,
        remove_duplicate_barcodes: false,
        swap_commas_to_dots: false,
        auto_update_bar_kod: false,
        format_col_and_mp_price_2_dec: false,
        auto_update_price: false,
    };
    let res = apply_operations(&invoice, None, &ops, 10000).unwrap();
    assert!(res.changed_cells.is_empty());
    assert_eq!(res.logs, 0);
    assert_eq!(res.table.get(0, "Ukupna cena").unwrap(), "10,5");
}

#[test]
fn pipeline_without_database_skips_name_update() {
    let invoice = t(&["Šifra artikla", "Naziv artikla"], &[&["A1", "Old"]]);
    let mut ops = all_ops();
    ops.remove_duplicate_barcodes = false;
    ops.swap_commas_to_dots = false;
    ops.format_price_4_dec = false;
    ops.format_col_and_mp_price_2_dec = false;
    let res = apply_operations(&invoice, None, &ops, 10000).unwrap();
    assert_eq!(res.table.get(0, "Naziv artikla").unwrap(), "Old");
    assert!(res.changed_cells.is_empty());
}

#[test]
fn commas_become_dots_in_every_cell() {
    let invoice = t(&["a", "b"], &[&["1,5", "x"]]);
    let mut ops = all_ops();
    ops.update_names = false;
    ops.format_price_4_dec = false;
    ops.format_col_and_mp_price_2_dec = false;
    ops.remove_duplicate_barcodes = false;
    let res = apply_operations(&invoice, None, &ops, 10000).unwrap();
    assert_eq!(res.table.get(0, "a").unwrap(), "1.5");
    assert_eq!(res.table.get(0, "b").unwrap(), "x");
    assert_eq!(res.changed_cells.len(), 1);
    assert_eq!(res.changed_cells[0].col, "a");
}

#[test]
fn normalize_text_composes_and_trims() {
    // "e" followed by a combining acute accent composes to a single char
    assert_eq!(normalize_text("e\u{0301}"), "\u{00e9}");
    assert_eq!(normalize_text("abc  "), "abc");
    assert_eq!(normalize_text(""), "");
}
