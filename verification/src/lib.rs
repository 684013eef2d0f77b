//! Verified core of a GPS log toolkit: parsing of MultiSpeak-style location
//! logs and SYLK spreadsheets into per-source breadcrumb trails, removal of
//! repeated positions, calendar conversion, jump classification and the
//! decisions of the SFTP download worker.
pub mod calendar;
pub mod logline;
pub mod number;
pub mod report;
pub mod sftp;
pub mod sylk;
pub mod text;
pub mod track;
pub mod viewer;
