pub mod instant;
pub mod rule_table;
pub mod backup;
pub mod registrar;
pub mod dispatcher;
