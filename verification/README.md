# projectlog

A time-tracking library: a log of tab-separated clock-in lines (time, project, comment),
the list of projects shown in a tray menu, user preferences, and weekly
timesheets built from the log and exported as workbooks.

`src/` is the library, written and proved with Verus. Its contracts state
what each public function returns or changes; where the system clock
decides a value (today's date, the time of a log line), they state what
holds for every reading, the text each reading is written as, and that an
unreadable clock is reported.

- `text`, `clock`: strings as character sequences; the calendar and timestamp
  parsing (through `chrono`).
- `time_log`, `booking`, `timesheet_table`, `timesheet_service`, `rounding`:
  reading the log, splitting time across days, the timesheet rows and sheets,
  half-hour rounding.
- `tray_menu`, `project_order`, `settings`, `project_controller`,
  `settings_controller`: the menu, project ordering, preferences and the state
  changes that menu and input commands make.
- `repositories`, `logger`, `projects`, `diagnostics`: the contents of the data
  files, as bytes and text.
- `export_service`, `timesheet_controller`: what a workbook holds and where it is
  saved.

`app/` is the ordinary Rust around it: file access, JSON settings through
`serde`, and writing workbooks with `rust_xlsxwriter`. `tests/` holds the tests.
