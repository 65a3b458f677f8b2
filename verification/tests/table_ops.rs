use invoice_pipeline::table::{Table, table_to_str};

fn t(headers: &[&str], rows: &[&[&str]]) -> Table {
    let hs: Vec<String> = headers.iter().map(|h| h.to_string()).collect();
    let rs: Vec<Vec<String>> = rows
        .iter()
        .map(|r| r.iter().map(|v| v.to_string()).collect())
        .collect();
    Table::from_cells(hs, rs)
}

#[test]
fn diff_of_table_with_itself_is_empty() {
    let tab = t(
        &["Šifra artikla", "Naziv artikla", "Ukupna cena"],
        &[&["A1", "Old", "10.5"], &["A2", "Two", "3"]],
    );
    let diff = tab.compare_cells(&tab).unwrap();
    assert_eq!(diff.len(), 0);
}

#[test]
fn diff_after_one_mutation_is_that_single_cell() {
    let tab = t(
        &["Šifra artikla", "Naziv artikla"],
        &[&["A1", "Old"], &["A2", "Two"]],
    );
    let mut copy = tab.clone();
    copy.rows[1].insert("Naziv artikla".to_string(), "Changed".to_string());
    let diff = copy.compare_cells(&tab).unwrap();
    assert_eq!(diff.len(), 1);
    assert_eq!(diff[0].row, 1);
    assert_eq!(diff[0].col, "Naziv artikla");
}

#[test]
fn diff_fails_on_row_count_mismatch() {
    let a = t(&["x"], &[&["1"], &["2"]]);
    let b = t(&["x"], &[&["1"]]);
    assert!(a.compare_cells(&b).is_err());
}

#[test]
fn diff_fails_on_missing_column() {
    let a = t(&["x", "y"], &[&["1", "2"]]);
    let b = t(&["x"], &[&["1"]]);
    assert!(a.compare_cells(&b).is_err());
}

#[test]
fn format_price_rounds_half_away_to_four_decimals() {
    let mut tab = t(
        &["Ukupna cena"],
        &[&["10.5555"], &["9.99995"], &["7"], &["abc"], &["1,5"]],
    );
    tab.format_redovna_cena_4dec();
    assert_eq!(tab.get(0, "Ukupna cena").unwrap(), "10.5555");
    assert_eq!(tab.get(1, "Ukupna cena").unwrap(), "10.0000");
    assert_eq!(tab.get(2, "Ukupna cena").unwrap(), "7.0000");
    assert_eq!(tab.get(3, "Ukupna cena").unwrap(), "abc");
    assert_eq!(tab.get(4, "Ukupna cena").unwrap(), "1,5");
}

#[test]
fn format_price_grammar_edges() {
    let mut tab = t(
        &["Ukupna cena"],
        &[&[".5"], &["5."], &["+1.5"], &["1e3"], &["99999999999999999999"]],
    );
    tab.format_redovna_cena_4dec();
    assert_eq!(tab.get(0, "Ukupna cena").unwrap(), "0.5000");
    assert_eq!(tab.get(1, "Ukupna cena").unwrap(), "5.0000");
    assert_eq!(tab.get(2, "Ukupna cena").unwrap(), "1.5000");
    // scientific notation and over-long digit strings count as non-numeric
    assert_eq!(tab.get(3, "Ukupna cena").unwrap(), "1e3");
    assert_eq!(tab.get(4, "Ukupna cena").unwrap(), "99999999999999999999");
}

#[test]
fn format_price_is_idempotent_past_the_numeric_bound() {
    let mut once = t(&["Ukupna cena"], &[&["99999999999999.9"]]);
    once.format_redovna_cena_4dec();
    assert_eq!(once.get(0, "Ukupna cena").unwrap(), "99999999999999.9000");
    let mut twice = once.clone();
    twice.format_redovna_cena_4dec();
    assert_eq!(twice.get(0, "Ukupna cena").unwrap(), "99999999999999.9000");
}

#[test]
fn format_price_is_idempotent() {
    let mut once = t(
        &["Ukupna cena"],
        &[&["10.55554"], &["-0.00004"], &["2.5"], &["x"]],
    );
    once.format_redovna_cena_4dec();
    let mut twice = once.clone();
    twice.format_redovna_cena_4dec();
    for i in 0..4 {
        assert_eq!(once.get(i, "Ukupna cena"), twice.get(i, "Ukupna cena"));
    }
}

#[test]
fn format_quantity_and_retail_to_two_decimals() {
    let mut tab = t(
        &["Količina", "Cena MP"],
        &[&["1.005", "9.999"], &["3", "bad"]],
    );
    tab.format_kol_i_mp_cena_2dec();
    assert_eq!(tab.get(0, "Količina").unwrap(), "1.01");
    assert_eq!(tab.get(0, "Cena MP").unwrap(), "10.00");
    assert_eq!(tab.get(1, "Količina").unwrap(), "3.00");
    assert_eq!(tab.get(1, "Cena MP").unwrap(), "bad");
}

#[test]
fn remove_duplicate_barcodes_clears_and_reports_in_row_order() {
    let mut tab = t(
        &["Šifra artikla", "Naziv artikla", "Bar kod"],
        &[
            &["A1", "One", "123,456"],
            &["A2", "Two", "789"],
            &["A3", "Three", "11,22,33"],
        ],
    );
    let removed = tab.remove_duplicate_barcodes();
    assert_eq!(tab.get(0, "Bar kod").unwrap(), "");
    assert_eq!(tab.get(1, "Bar kod").unwrap(), "789");
    assert_eq!(tab.get(2, "Bar kod").unwrap(), "");
    assert_eq!(removed.len(), 2);
    assert_eq!(removed[0].row_idx, 0);
    assert_eq!(removed[0].sifra, "A1");
    assert_eq!(removed[0].naziv, "One");
    assert_eq!(removed[0].original_barcode, "123,456");
    assert_eq!(removed[1].row_idx, 2);
    assert_eq!(removed[1].original_barcode, "11,22,33");
}

#[test]
fn swap_commas_to_dots_everywhere_and_only_commas() {
    let mut tab = t(
        &["a", "b"],
        &[&["1,5", "x,y,z"], &["plain", "2.5"]],
    );
    tab.swap_all_commas_to_dots();
    assert_eq!(tab.get(0, "a").unwrap(), "1.5");
    assert_eq!(tab.get(0, "b").unwrap(), "x.y.z");
    assert_eq!(tab.get(1, "a").unwrap(), "plain");
    assert_eq!(tab.get(1, "b").unwrap(), "2.5");
}

#[test]
fn price_updates_emitted_above_threshold_only() {
    let tab = t(
        &["Šifra artikla", "Naziv artikla", "Ukupna cena", "Cena MP"],
        &[
            &["A1", "One", "120", "100"],
            &["A2", "Two", "120", "0"],
            &["A3", "Three", "99", "100"],
        ],
    );
    let items = tab.find_price_updates(10000);
    assert_eq!(items.len(), 1);
    assert_eq!(items[0].row_idx, 0);
    assert_eq!(items[0].sifra, "A1");
    assert_eq!(items[0].percentage_hundredths, 12000);
}

#[test]
fn price_updates_accept_comma_decimals() {
    let tab = t(
        &["Ukupna cena", "Cena MP"],
        &[&["120,50", "100"]],
    );
    let items = tab.find_price_updates(10000);
    assert_eq!(items.len(), 1);
    assert_eq!(items[0].percentage_hundredths, 12050);
}

#[test]
fn lookup_by_key_finds_first_match() {
    let db = t(
        &["sifra", "naziv"],
        &[&["A1", "First"], &["A2", "Second"], &["A1", "Shadowed"]],
    );
    assert_eq!(db.get_find_value("A1").unwrap(), "First");
    assert_eq!(db.get_find_value("A2").unwrap(), "Second");
    assert!(db.get_find_value("Z9").is_none());
}

#[test]
fn update_names_overwrites_matches_and_keeps_the_rest() {
    let inv = t(
        &["Šifra artikla", "Naziv artikla"],
        &[&["A1", "Old"], &["Z9", "Kept"]],
    );
    let db = t(&["sifra", "naziv"], &[&["A1", "New"]]);
    let out = inv.update_names(&db);
    assert_eq!(out.get(0, "Naziv artikla").unwrap(), "New");
    assert_eq!(out.get(1, "Naziv artikla").unwrap(), "Kept");
}

#[test]
fn serializer_emits_nine_fields_with_fixed_tokens() {
    let tab = t(
        &["Šifra artikla", "Naziv artikla", "Bar kod", "Količina", "Ukupna cena", "Cena MP"],
        &[&["A1", "One", "123", "2", "10.5", "9.5"], &["A2", "Two", "456", "1", "3", "2"]],
    );
    let s = table_to_str(&tab).unwrap();
    let lines: Vec<&str> = s.lines().collect();
    assert_eq!(lines.len(), 2);
    for line in &lines {
        let fields: Vec<&str> = line.split(',').collect();
        assert_eq!(fields.len(), 9);
        assert_eq!(fields[2], "kom");
        assert_eq!(fields[3], "PDVOS");
    }
    assert_eq!(lines[0], "A1,One,kom,PDVOS,123,2,10.5,10.5,9.5");
}

#[test]
fn serializer_renders_missing_columns_as_empty() {
    let tab = t(&["Šifra artikla"], &[&["A1"]]);
    let s = table_to_str(&tab).unwrap();
    assert_eq!(s, "A1,,kom,PDVOS,,,,,\n");
}

#[test]
fn build_table_rejects_empty_sheet() {
    let r = Table::build_table(vec![]);
    assert_eq!(r.err().unwrap(), "Empty sheet");
}

#[test]
fn build_table_zips_rows_against_first_row_headers() {
    let cells: Vec<Vec<String>> = vec![
        vec!["h1".into(), "h2".into()],
        vec!["a".into(), "b".into(), "extra".into()],
        vec!["c".into()],
    ];
    let tab = Table::build_table(cells).unwrap();
    assert_eq!(tab.headers, vec!["h1".to_string(), "h2".to_string()]);
    assert_eq!(tab.get(0, "h1").unwrap(), "a");
    assert_eq!(tab.get(0, "h2").unwrap(), "b");
    assert_eq!(tab.get(1, "h1").unwrap(), "c");
    assert!(tab.get(1, "h2").is_none());
}

#[test]
fn get_is_total_over_bad_indices() {
    let tab = t(&["x"], &[&["1"]]);
    assert!(tab.get(5, "x").is_none());
    assert!(tab.get(0, "nope").is_none());
}
