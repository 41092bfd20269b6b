use mddem::thermo::{
    capitalize, column_groups, column_kind, default_columns, header_line_width, parse_columns, parse_thermo_column, ColumnKind,
    ThermoConfig,
};

#[test]
fn test_default_columns_backward_compat() {
    let config = ThermoConfig::default();
    assert!(config.columns.is_none());
    let cols = config.columns.unwrap_or_else(default_columns);
    assert_eq!(cols, vec!["step", "atoms", "ke", "neighbors", "walltime", "stepps"]);
}

#[test]
fn test_column_parsing() {
    let col = parse_thermo_column("temp/mobile");
    assert_eq!(col.compute_name, "temp");
    assert_eq!(col.group_name.as_deref(), Some("mobile"));
    assert_eq!(col.header, "Temp/mobile");

    let col2 = parse_thermo_column("step");
    assert_eq!(col2.compute_name, "step");
    assert!(col2.group_name.is_none());
    assert_eq!(col2.header, "Step");
}

#[test]
fn test_capitalize() {
    assert_eq!(capitalize("step"), "Step");
    assert_eq!(capitalize("ke"), "Ke");
    assert_eq!(capitalize(""), "");
    assert_eq!(capitalize("a"), "A");
}

#[test]
fn test_column_width_minimum() {
    let col = parse_thermo_column("ke");
    // "Ke" is 2 chars, but minimum width is 12
    assert_eq!(col.width, 12);
}

#[test]
fn test_column_width_long_header() {
    let col = parse_thermo_column("virial_xx/long_group_name");
    // "Virial_xx/long_group_name" is 25 chars > 12
    assert!(col.width >= 12);
    assert_eq!(col.width, col.header.len());
}

#[test]
fn only_first_slash_splits() {
    let col = parse_thermo_column("ke/a/b");
    assert_eq!(col.compute_name, "ke");
    assert_eq!(col.group_name.as_deref(), Some("a/b"));
    assert_eq!(col.header, "Ke/a/b");
    let trailing = parse_thermo_column("ke/");
    assert_eq!(trailing.group_name.as_deref(), Some(""));
    assert_eq!(trailing.header, "Ke/");
}

#[test]
fn width_counts_bytes() {
    let col = parse_thermo_column("énergie_totale");
    assert_eq!(col.header, "Énergie_totale");
    assert_eq!(col.width, "Énergie_totale".len());
}

#[test]
fn header_line_spans_columns_and_gaps() {
    let cols = parse_columns(&default_columns());
    assert_eq!(cols.len(), 6);
    assert_eq!(header_line_width(&cols), 6 * 12 + 5);
    assert_eq!(header_line_width(&Vec::new()), 0);
}

#[test]
fn column_kinds_follow_compute_names() {
    assert_eq!(column_kind("step"), ColumnKind::Step);
    assert_eq!(column_kind("atoms"), ColumnKind::Atoms);
    assert_eq!(column_kind("ke"), ColumnKind::Ke);
    assert_eq!(column_kind("temp"), ColumnKind::Temp);
    assert_eq!(column_kind("neighbors"), ColumnKind::Neighbors);
    assert_eq!(column_kind("walltime"), ColumnKind::Walltime);
    assert_eq!(column_kind("stepps"), ColumnKind::StepsPerSecond);
    assert_eq!(column_kind("pressure"), ColumnKind::User);
    assert_eq!(column_kind("Step"), ColumnKind::User);
}

#[test]
fn groups_are_listed_once_in_order_of_use() {
    let specs: Vec<String> =
        ["step", "ke/mobile", "temp/wall", "atoms/mobile", "temp"].iter().map(|s| s.to_string()).collect();
    let cols = parse_columns(&specs);
    assert_eq!(column_groups(&cols), vec!["mobile".to_string(), "wall".to_string()]);
    assert!(column_groups(&parse_columns(&vec!["step".to_string()])).is_empty());
}

#[test]
fn parsed_columns_keep_their_groups() {
    let specs: Vec<String> = ["ke/mobile", "step", "temp/wall"].iter().map(|s| s.to_string()).collect();
    let cols = parse_columns(&specs);
    assert_eq!(cols[0].group_name.as_deref(), Some("mobile"));
    assert!(cols[1].group_name.is_none());
    assert_eq!(cols[2].group_name.as_deref(), Some("wall"));
}
