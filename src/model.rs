use vstd::prelude::*;

verus! {

/// Level of the trading post; it selects the order-type distribution.
#[derive(Clone, Copy, Debug, PartialEq, Eq, Structural)]
pub enum TradingPostPhase {
    L1,
    L2,
    L3,
}

/// Kind of a ramping tailoring skill.
#[derive(Clone, Copy, Debug, PartialEq, Eq, Structural)]
pub enum TradingPostTailoringSkill {
    Alpha,
    Beta,
}

/// Promotion tier of one of the three bonus operators.
#[derive(Clone, Copy, Debug, PartialEq, Eq, Structural)]
pub enum HighRarityOperatorPhase {
    Absent,
    E0,
    E1,
    E2,
}

pub open spec fn phase_label(p: TradingPostPhase) -> Seq<char> {
    match p {
        TradingPostPhase::L1 => "Lv1"@,
        TradingPostPhase::L2 => "Lv2"@,
        TradingPostPhase::L3 => "Lv3"@,
    }
}

pub open spec fn skill_label(s: TradingPostTailoringSkill) -> Seq<char> {
    match s {
        TradingPostTailoringSkill::Alpha => "Alpha"@,
        TradingPostTailoringSkill::Beta => "Beta"@,
    }
}

pub open spec fn operator_label(p: HighRarityOperatorPhase) -> Seq<char> {
    match p {
        HighRarityOperatorPhase::Absent => "None"@,
        HighRarityOperatorPhase::E0 => "Elite 0"@,
        HighRarityOperatorPhase::E1 => "Elite 1"@,
        HighRarityOperatorPhase::E2 => "Elite 2"@,
    }
}

impl TradingPostPhase {
    /// Short display label of the level.
    pub fn to_string(&self) -> (r: String)
        ensures
            r@ == phase_label(*self),
    {
        match self {
            TradingPostPhase::L1 => "Lv1".to_string(),
            TradingPostPhase::L2 => "Lv2".to_string(),
            TradingPostPhase::L3 => "Lv3".to_string(),
        }
    }
}

impl TradingPostTailoringSkill {
    /// Display label of the skill kind.
    pub fn to_string(&self) -> (r: String)
        ensures
            r@ == skill_label(*self),
    {
        match self {
            TradingPostTailoringSkill::Alpha => "Alpha".to_string(),
            TradingPostTailoringSkill::Beta => "Beta".to_string(),
        }
    }
}

impl HighRarityOperatorPhase {
    /// Display label of the promotion tier.
    pub fn to_string(&self) -> (r: String)
        ensures
            r@ == operator_label(*self),
    {
        match self {
            HighRarityOperatorPhase::Absent => "None".to_string(),
            HighRarityOperatorPhase::E0 => "Elite 0".to_string(),
            HighRarityOperatorPhase::E1 => "Elite 1".to_string(),
            HighRarityOperatorPhase::E2 => "Elite 2".to_string(),
        }
    }
}

/// One run's configuration of the trading post.
pub struct TradingPostProductionInput {
    /// Simulated window, in minutes.
    pub duration_minutes: i32,
    pub phase: TradingPostPhase,
    /// Number of orders the post can hold at once.
    pub capacity: i32,
    /// Production speed, in percent of the baseline.
    pub speed100: i32,
    /// Ramping skills, each with the minutes it has already ramped.
    pub tailoring_ramped: Vec<(TradingPostTailoringSkill, i32)>,
    /// Grants a flat bonus of the first resource on the third order type.
    pub tequila_phase: HighRarityOperatorPhase,
    /// Raises the yield and the cost of the first two order types.
    pub proviso_phase: HighRarityOperatorPhase,
    /// At tier E0, slows each order by a penalty that grows with queue depth.
    pub jaye_phase: HighRarityOperatorPhase,
}

impl Default for TradingPostProductionInput {
    fn default() -> (r: Self)
        ensures
            r.duration_minutes == 720,
            r.phase == TradingPostPhase::L3,
            r.capacity == 10,
            r.speed100 == 200,
            r.tailoring_ramped@.len() == 0,
            r.tequila_phase == HighRarityOperatorPhase::Absent,
            r.proviso_phase == HighRarityOperatorPhase::Absent,
            r.jaye_phase == HighRarityOperatorPhase::Absent,
    {
        TradingPostProductionInput {
            duration_minutes: 720,
            phase: TradingPostPhase::L3,
            capacity: 10,
            speed100: 200,
            tailoring_ramped: Vec::new(),
            tequila_phase: HighRarityOperatorPhase::Absent,
            proviso_phase: HighRarityOperatorPhase::Absent,
            jaye_phase: HighRarityOperatorPhase::Absent,
        }
    }
}

} // verus!
