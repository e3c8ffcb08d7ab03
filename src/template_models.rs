use vstd::prelude::*;

verus! {

/// The values of the index page: its two rendered components.
pub struct IndexModel {
    pub data_table: String,
    pub chat_bot: String,
}

/// The values of the visitor table and of the verification widget.
pub struct DataTableModel {
    pub ip: String,
    pub visitor_rank: u32,
    pub db_init_time: String,
    pub total_visitors: u32,
    pub total_bots: u32,
    pub bot_validation_id: String,
}

} // verus!
