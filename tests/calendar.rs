use rea::calendar::{cell_day, grid_rows, CalendarView};

#[test]
fn month_names() {
    assert_eq!(CalendarView::new(1, 2024).month_name(), "January");
    assert_eq!(CalendarView::new(12, 2024).month_name(), "December");
    let odd = CalendarView { displayed_month: 13, displayed_year: 2024 };
    assert_eq!(odd.month_name(), "Invalid");
}

#[test]
fn next_month_wraps_year() {
    let mut v = CalendarView::new(12, 2023);
    v.next_month();
    assert_eq!((v.displayed_month, v.displayed_year), (1, 2024));
    v.next_month();
    assert_eq!((v.displayed_month, v.displayed_year), (2, 2024));
}

#[test]
fn prev_month_wraps_year() {
    let mut v = CalendarView::new(1, 2024);
    v.prev_month();
    assert_eq!((v.displayed_month, v.displayed_year), (12, 2023));
    v.prev_month();
    assert_eq!((v.displayed_month, v.displayed_year), (11, 2023));
}

#[test]
fn grid_for_a_month() {
    // February 2021 starts on a Monday and has 28 days: exactly four rows.
    assert_eq!(grid_rows(0, 28), 4);
    // A 31-day month starting on a Sunday spills into a sixth row.
    assert_eq!(grid_rows(6, 31), 6);
    assert_eq!(cell_day(0, 2, 30), None);
    assert_eq!(cell_day(2, 2, 30), Some(1));
    assert_eq!(cell_day(31, 2, 30), Some(30));
    assert_eq!(cell_day(32, 2, 30), None);
}
