//! The grid report and the configuration defaults.

use sch::config::{default_max_connections, ListenConfig};
use sch::error::Error;
use sch::export::{build_csv, render_export, ExportQuery, SlotAssignment};

fn grid() -> Vec<SlotAssignment> {
    (0..50)
        .map(|i| SlotAssignment {
            slot_w2m_id: i as i32,
            subject_name: i.to_string(),
        })
        .collect()
}

const DEFAULT_TEXT: &str = "0,10,20,30,40\n1,11,21,31,41\n2,12,22,32,42\n3,13,23,33,43\n4,14,24,34,44\n5,15,25,35,45\n6,16,26,36,46\n7,17,27,37,47\n8,18,28,38,48\n9,19,29,39,49\n";

#[test]
fn default_grid_layout() {
    let text = build_csv(&grid(), false);
    assert_eq!(text, DEFAULT_TEXT);
}

#[test]
fn sheets_layout_repeats_each_pair_of_lines() {
    let text = build_csv(&grid(), true);
    let expected = "0,10,20,30,40\n1,11,21,31,41\n0,10,20,30,40\n1,11,21,31,41\n\
                    2,12,22,32,42\n3,13,23,33,43\n2,12,22,32,42\n3,13,23,33,43\n\
                    4,14,24,34,44\n5,15,25,35,45\n4,14,24,34,44\n5,15,25,35,45\n\
                    6,16,26,36,46\n7,17,27,37,47\n6,16,26,36,46\n7,17,27,37,47\n\
                    8,18,28,38,48\n9,19,29,39,49\n8,18,28,38,48\n9,19,29,39,49\n";
    assert_eq!(text, expected);
}

#[test]
fn render_export_picks_the_variant() {
    let rows = grid();
    let none = render_export(&rows, &ExportQuery { format: None }).unwrap();
    assert_eq!(none, DEFAULT_TEXT);

    let default = render_export(
        &rows,
        &ExportQuery { format: Some(String::from("default")) },
    )
    .unwrap();
    assert_eq!(default, DEFAULT_TEXT);

    let sheets = render_export(
        &rows,
        &ExportQuery { format: Some(String::from("sheets-export")) },
    )
    .unwrap();
    assert_eq!(sheets, build_csv(&rows, true));

    let bad = render_export(
        &rows,
        &ExportQuery { format: Some(String::from("xml")) },
    );
    assert_eq!(bad, Err(Error::Input));
}

#[test]
fn configuration_defaults() {
    assert_eq!(default_max_connections(), 10);
    let listen = ListenConfig::default();
    assert_eq!(listen.address, "0.0.0.0");
    assert_eq!(listen.port, 5678);
}
