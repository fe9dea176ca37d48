//! Verified core of ProjectLog, a tray time tracker: the time log, its
//! timesheet aggregation and rounding, project lists and their ordering.
pub mod text;
pub mod rounding;
pub mod timesheet_model;
pub mod clock;
pub mod time_log;
pub mod timesheet_table;
pub mod booking;
pub mod timesheet_service;
pub mod tray_menu;
pub mod settings;
pub mod project_order;
pub mod repositories;
pub mod logger;
pub mod projects;
pub mod diagnostics;
pub mod timesheet_controller;
pub mod export_service;
pub mod project_controller;
pub mod settings_controller;
