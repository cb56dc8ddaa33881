pub mod docx;
pub mod docx_run;
pub mod grid;
pub mod htmlutil;
pub mod paths;
pub mod inflate;
pub mod table;
pub mod text;
pub mod walk;
pub mod xml;
pub mod zip;
