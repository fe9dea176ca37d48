use projectlog::rounding::{apply_rounding_to_preview, round_half_preserving_sum};
use projectlog::timesheet_model::{TimesheetPreview, TimesheetPreviewRow, TimesheetPreviewSheet};

/// Seconds in an hour: the tests write hours as seconds.
const HOUR: u128 = 3600;

fn preview_with_project_values(values: Vec<Vec<u128>>) -> TimesheetPreview {
    let value_count = values.first().map_or(0, Vec::len);
    let mut rows: Vec<TimesheetPreviewRow> = values
        .into_iter()
        .enumerate()
        .map(|(index, values)| TimesheetPreviewRow {
            label: format!("Project {index}"),
            total: values.iter().sum(),
            values,
            is_comment: false,
            is_total: false,
        })
        .collect();
    rows.push(TimesheetPreviewRow {
        label: "Total".to_string(),
        values: vec![0; value_count],
        total: 0,
        is_comment: false,
        is_total: true,
    });

    TimesheetPreview {
        title: "Test".to_string(),
        generated_at: String::new(),
        generated_at_epoch_ms: 0,
        sheets: vec![TimesheetPreviewSheet {
            name: "Test".to_string(),
            columns: (0..value_count).map(|index| index.to_string()).collect(),
            rows,
        }],
    }
}

#[test]
fn rounding_preserves_the_rounded_total_for_each_day() {
    // 3.52 h, 0.08 h, ... written in seconds.
    let preview = preview_with_project_values(vec![
        vec![12672, 288],
        vec![1692, 0],
        vec![360, 0],
        vec![2772, 0],
        vec![0, 2556],
        vec![11520, 0],
        vec![0, 24084],
        vec![0, 1872],
    ]);

    let rounded = apply_rounding_to_preview(preview);
    let total = rounded.sheets[0].rows.last().unwrap();

    assert_eq!(total.values, vec![8 * HOUR, 8 * HOUR]);
    assert_eq!(total.total, 16 * HOUR);
}

#[test]
fn rounding_distributes_half_hours_without_losing_the_daily_sum() {
    // 7.24 h, 7.23 h, 7.22 h, 7.21 h and 7.20 h in seconds.
    let preview = preview_with_project_values(vec![
        vec![26064],
        vec![26028],
        vec![25992],
        vec![25956],
        vec![25920],
    ]);

    let rounded = apply_rounding_to_preview(preview);
    let rows = &rounded.sheets[0].rows;
    let values: Vec<u128> = rows[..5].iter().map(|row| row.values[0]).collect();

    assert_eq!(values, vec![27000, 27000, 25200, 25200, 25200]);
    assert_eq!(rows.last().unwrap().total, 36 * HOUR);
}

#[test]
fn round_half_preserving_sum_rounds_each_value_to_a_half_hour() {
    assert_eq!(round_half_preserving_sum(&[]), Vec::<u128>::new());
    assert_eq!(round_half_preserving_sum(&[899]), vec![0]);
    assert_eq!(round_half_preserving_sum(&[900]), vec![1800]);
    assert_eq!(round_half_preserving_sum(&[1000, 1000]), vec![1800, 0]);
    assert_eq!(round_half_preserving_sum(&[3600, 5400]), vec![3600, 5400]);
}

#[test]
fn rounding_rounds_comment_rows_on_their_own_and_keeps_labels() {
    let mut preview = preview_with_project_values(vec![vec![1000, 2000]]);
    preview.sheets[0].rows.insert(
        1,
        TimesheetPreviewRow {
            label: "  - Notes".to_string(),
            values: vec![1000, 2000],
            total: 3000,
            is_comment: true,
            is_total: false,
        },
    );
    let rounded = apply_rounding_to_preview(preview);
    let rows = &rounded.sheets[0].rows;
    assert_eq!(rows[0].label, "Project 0");
    assert_eq!(rows[0].values, vec![1800, 1800]);
    assert_eq!(rows[0].total, 3600);
    assert_eq!(rows[1].values, vec![1800, 1800]);
    assert_eq!(rows[1].total, 3600);
    assert_eq!(rows[2].values, vec![1800, 1800]);
    assert_eq!(rows[2].total, 3600);
    assert_eq!(rounded.sheets[0].columns, vec!["0".to_string(), "1".to_string()]);
}
