// Production forecast for a trading post: a sweep over (time slot, queue depth)
// states that spreads probability mass over the possible order histories, in
// exact fixed-point arithmetic.
//
// `model` holds the configuration types, `rates` the order tables and the ramp,
// `table` the state cells and their sums, `engine` the sweep and its model, and
// `forecast` the aggregated result and the entry point.

pub mod model;
pub mod rates;
pub mod table;
pub mod engine;
pub mod forecast;

pub use forecast::{simulate_tp_production, ProductionForecast};
pub use model::{
    HighRarityOperatorPhase, TradingPostPhase, TradingPostProductionInput,
    TradingPostTailoringSkill,
};
