//! The adaptive-memory policy, and what feedback and sessions are made of.
use vstd::prelude::*;
use vstd::string::*;

use crate::error::{CoreError, CoreFault};
use crate::float_bits::{self, F64Bits};
use crate::ids::Id;
use crate::text;
use crate::time::Timestamp;

verus! {

/// The clock of the machine.
#[derive(Debug, Clone)]
pub struct SystemClock;

/// How strongly searches and feedback weigh, and for how long. Fractions are
/// held as IEEE 754 bits.
#[derive(Debug, Clone)]
pub struct MemoryPolicy {
    pub enabled: bool,
    pub half_life_days: F64Bits,
    pub decay_floor: F64Bits,
    pub max_reinforcements: u8,
    pub session_ttl_hours: i64,
    pub affinity_similarity_threshold: F64Bits,
    pub affinity_weight: F64Bits,
    pub affinity_candidate_limit: usize,
    pub entry_recency_weight: F64Bits,
    pub entry_reinforcement_factors: Vec<F64Bits>,
    pub affinity_reinforcement_factors: Vec<F64Bits>,
}

impl Default for MemoryPolicy {
    /// A half-life of 30 days with a floor of a tenth, three reinforcements,
    /// sessions of a day, and associations from a similarity of 0.82.
    fn default() -> (p: MemoryPolicy)
        ensures
            p.enabled,
            p.half_life_days == 0x403e_0000_0000_0000u64,
            p.decay_floor == 0x3fb9_9999_9999_999au64,
            p.max_reinforcements == 3,
            p.session_ttl_hours == 24,
            p.affinity_similarity_threshold == 0x3fea_3d70_a3d7_0a3du64,
            p.affinity_weight == 0x3ff0_0000_0000_0000u64,
            p.affinity_candidate_limit == 2,
            p.entry_recency_weight == 0x3fd3_3333_3333_3333u64,
            p.entry_reinforcement_factors@ == seq![
                0x3ff0_0000_0000_0000u64,
                0x3ff1_9999_9999_999au64,
                0x3ff2_b851_eb85_1eb8u64,
                0x3ff3_851e_b851_eb85u64,
            ],
            p.affinity_reinforcement_factors@ == seq![
                0u64,
                0x3fe6_6666_6666_6666u64,
                0x3fec_cccc_cccc_cccdu64,
                0x3ff0_0000_0000_0000u64,
            ],
            p.fault() is None,
    {
        let p = MemoryPolicy {
            enabled: true,
            half_life_days: 0x403e_0000_0000_0000,
            decay_floor: 0x3fb9_9999_9999_999a,
            max_reinforcements: 3,
            session_ttl_hours: 24,
            affinity_similarity_threshold: 0x3fea_3d70_a3d7_0a3d,
            affinity_weight: 0x3ff0_0000_0000_0000,
            affinity_candidate_limit: 2,
            entry_recency_weight: 0x3fd3_3333_3333_3333,
            entry_reinforcement_factors: vec![
                0x3ff0_0000_0000_0000,
                0x3ff1_9999_9999_999a,
                0x3ff2_b851_eb85_1eb8,
                0x3ff3_851e_b851_eb85,
            ],
            affinity_reinforcement_factors: vec![
                0,
                0x3fe6_6666_6666_6666,
                0x3fec_cccc_cccc_cccd,
                0x3ff0_0000_0000_0000,
            ],
        };
        proof {
            let e = p.entry_reinforcement_factors@;
            let a = p.affinity_reinforcement_factors@;
            assert(e =~= seq![
                0x3ff0_0000_0000_0000u64,
                0x3ff1_9999_9999_999au64,
                0x3ff2_b851_eb85_1eb8u64,
                0x3ff3_851e_b851_eb85u64,
            ]);
            assert(a =~= seq![
                0u64,
                0x3fe6_6666_6666_6666u64,
                0x3fec_cccc_cccc_cccdu64,
                0x3ff0_0000_0000_0000u64,
            ]);
            assert(good_factors(e));
            assert(good_factors(a));
        }
        p
    }
}

/// Finite, non-negative and never decreasing.
pub open spec fn good_factors(factors: Seq<F64Bits>) -> bool {
    &&& forall|i: int|
        0 <= i < factors.len() ==> float_bits::finite(#[trigger] factors[i])
            && float_bits::position(factors[i]) >= 0
    &&& forall|i: int, j: int|
        0 <= i <= j < factors.len() ==> float_bits::position(#[trigger] factors[i])
            <= float_bits::position(#[trigger] factors[j])
}

impl MemoryPolicy {
    /// What is wrong with the policy, if anything.
    pub open spec fn fault(&self) -> Option<Seq<char>> {
        let one = float_bits::position(float_bits::ONE);
        if !float_bits::finite(self.half_life_days) || float_bits::position(self.half_life_days)
            <= 0 {
            Some("memory half_life_days must be finite and > 0"@)
        } else if !float_bits::finite(self.decay_floor) || float_bits::position(self.decay_floor)
            <= 0 || float_bits::position(self.decay_floor) > one {
            Some("memory decay_floor must be finite and in (0, 1]"@)
        } else if !(1 <= self.max_reinforcements <= 3) {
            Some("memory max_reinforcements must be in 1..=3"@)
        } else if self.session_ttl_hours <= 0 {
            Some("memory session_ttl_hours must be > 0"@)
        } else if !float_bits::finite(self.affinity_similarity_threshold) || !(0
            <= float_bits::position(self.affinity_similarity_threshold) < one) {
            Some("memory affinity_similarity_threshold must be finite and in [0, 1)"@)
        } else if !float_bits::finite(self.affinity_weight) || float_bits::position(
            self.affinity_weight,
        ) < 0 {
            Some("memory affinity_weight must be finite and >= 0"@)
        } else if self.affinity_candidate_limit == 0 {
            Some("memory affinity_candidate_limit must be > 0"@)
        } else if !float_bits::finite(self.entry_recency_weight) || !(0 <= float_bits::position(
            self.entry_recency_weight,
        ) <= one) {
            Some("memory entry_recency_weight must be finite and in [0, 1]"@)
        } else if self.entry_reinforcement_factors@.len() != self.max_reinforcements + 1
            || self.affinity_reinforcement_factors@.len() != self.max_reinforcements + 1 {
            Some(
                "memory reinforcement factor arrays must contain "@ + text::decimal(
                    (self.max_reinforcements + 1) as nat,
                ) + " values"@,
            )
        } else if !good_factors(self.entry_reinforcement_factors@) || !good_factors(
            self.affinity_reinforcement_factors@,
        ) {
            Some(
                "memory reinforcement factors must be finite, non-negative, and non-decreasing"@,
            )
        } else {
            None
        }
    }

    pub fn validate(&self) -> (r: Result<(), CoreError>)
        ensures
            match r {
                Ok(()) => self.fault() is None,
                Err(e) => self.fault() matches Some(m) && e@ == CoreFault::Validation(m),
            },
    {
        let one = float_bits::position_of(float_bits::ONE);
        if !float_bits::is_finite(self.half_life_days) || float_bits::position_of(
            self.half_life_days,
        ) <= 0 {
            return Err(CoreError::validation("memory half_life_days must be finite and > 0"));
        }
        if !float_bits::is_finite(self.decay_floor) || float_bits::position_of(self.decay_floor)
            <= 0 || float_bits::position_of(self.decay_floor) > one {
            return Err(CoreError::validation("memory decay_floor must be finite and in (0, 1]"));
        }
        if self.max_reinforcements < 1 || self.max_reinforcements > 3 {
            return Err(CoreError::validation("memory max_reinforcements must be in 1..=3"));
        }
        if self.session_ttl_hours <= 0 {
            return Err(CoreError::validation("memory session_ttl_hours must be > 0"));
        }
        let threshold = float_bits::position_of(self.affinity_similarity_threshold);
        if !float_bits::is_finite(self.affinity_similarity_threshold) || threshold < 0
            || threshold >= one {
            return Err(
                CoreError::validation(
                    "memory affinity_similarity_threshold must be finite and in [0, 1)",
                ),
            );
        }
        if !float_bits::is_finite(self.affinity_weight) || float_bits::position_of(
            self.affinity_weight,
        ) < 0 {
            return Err(CoreError::validation("memory affinity_weight must be finite and >= 0"));
        }
        if self.affinity_candidate_limit == 0 {
            return Err(CoreError::validation("memory affinity_candidate_limit must be > 0"));
        }
        let recency = float_bits::position_of(self.entry_recency_weight);
        if !float_bits::is_finite(self.entry_recency_weight) || recency < 0 || recency > one {
            return Err(
                CoreError::validation("memory entry_recency_weight must be finite and in [0, 1]"),
            );
        }
        let expected: usize = self.max_reinforcements as usize + 1;
        if self.entry_reinforcement_factors.len() != expected
            || self.affinity_reinforcement_factors.len() != expected {
            let n = text::decimal_text(expected as u64);
            return Err(
                CoreError::Validation(
                    text::text3(
                        "memory reinforcement factor arrays must contain ",
                        n.as_str(),
                        " values",
                    ),
                ),
            );
        }
        if !are_good_factors(&self.entry_reinforcement_factors) || !are_good_factors(
            &self.affinity_reinforcement_factors,
        ) {
            return Err(
                CoreError::validation(
                    "memory reinforcement factors must be finite, non-negative, and non-decreasing",
                ),
            );
        }
        Ok(())
    }

    /// The reinforcement that counts: never more than the policy allows.
    pub open spec fn capped(&self, reinforcement_count: u8) -> int {
        if reinforcement_count <= self.max_reinforcements {
            reinforcement_count as int
        } else {
            self.max_reinforcements as int
        }
    }

    pub fn entry_reinforcement_factor(&self, reinforcement_count: u8) -> (bits: F64Bits)
        requires
            self.capped(reinforcement_count) < self.entry_reinforcement_factors@.len(),
        ensures
            bits == self.entry_reinforcement_factors@[self.capped(reinforcement_count)],
    {
        if reinforcement_count <= self.max_reinforcements {
            self.entry_reinforcement_factors[reinforcement_count as usize]
        } else {
            self.entry_reinforcement_factors[self.max_reinforcements as usize]
        }
    }

    pub fn affinity_reinforcement_factor(&self, reinforcement_count: u8) -> (bits: F64Bits)
        requires
            self.capped(reinforcement_count) < self.affinity_reinforcement_factors@.len(),
        ensures
            bits == self.affinity_reinforcement_factors@[self.capped(reinforcement_count)],
    {
        if reinforcement_count <= self.max_reinforcements {
            self.affinity_reinforcement_factors[reinforcement_count as usize]
        } else {
            self.affinity_reinforcement_factors[self.max_reinforcements as usize]
        }
    }
}

/// More reinforcement never weighs less, and beyond the cap it changes
/// nothing.
pub proof fn law_factors_grow_up_to_the_cap(policy: MemoryPolicy, fewer: u8, more: u8)
    requires
        policy.fault() is None,
        fewer <= more,
    ensures
        float_bits::position(policy.entry_reinforcement_factors@[policy.capped(fewer)])
            <= float_bits::position(policy.entry_reinforcement_factors@[policy.capped(more)]),
        float_bits::position(policy.affinity_reinforcement_factors@[policy.capped(fewer)])
            <= float_bits::position(policy.affinity_reinforcement_factors@[policy.capped(more)]),
        fewer >= policy.max_reinforcements ==> policy.capped(fewer) == policy.capped(more),
{
}

fn are_good_factors(factors: &Vec<F64Bits>) -> (r: bool)
    ensures
        r == good_factors(factors@),
{
    let mut i: usize = 0;
    while i < factors.len()
        invariant
            i <= factors.len(),
            good_factors(factors@.take(i as int)),
        decreases factors.len() - i,
    {
        let p = float_bits::position_of(factors[i]);
        if !float_bits::is_finite(factors[i]) || p < 0 {
            proof {
                assert(!(float_bits::finite(factors@[i as int]) && float_bits::position(
                    factors@[i as int],
                ) >= 0));
            }
            return false;
        }
        if i > 0 && float_bits::position_of(factors[i - 1]) > p {
            proof {
                assert(float_bits::position(factors@[i - 1]) > float_bits::position(
                    factors@[i as int],
                ));
            }
            return false;
        }
        proof {
            let before = factors@.take(i as int);
            let after = factors@.take(i + 1);
            assert forall|a: int, b: int| 0 <= a <= b < after.len() implies float_bits::position(
                #[trigger] after[a],
            ) <= float_bits::position(#[trigger] after[b]) by {
                if b < i {
                    assert(after[a] == before[a] && after[b] == before[b]);
                } else if a < i {
                    assert(after[a] == before[a]);
                    assert(before[i - 1] == factors@[i - 1]);
                }
            }
            assert forall|a: int| 0 <= a < after.len() implies float_bits::finite(
                #[trigger] after[a],
            ) && float_bits::position(after[a]) >= 0 by {
                if a < i {
                    assert(after[a] == before[a]);
                }
            }
        }
        i += 1;
    }
    proof {
        assert(factors@.take(i as int) =~= factors@);
    }
    true
}

/// What a caller reports as useful: an entry, and where in it.
#[derive(Debug, Clone, Copy, PartialEq, Eq, Structural)]
pub struct FeedbackTarget {
    pub entry_id: Id,
    pub block_id: Option<Id>,
    pub chunk_id: Option<Id>,
}

/// One result that a search session recorded.
#[derive(Debug, Clone, Copy, PartialEq, Eq, Structural)]
pub struct SearchResultTarget {
    pub entry_id: Id,
    pub matched_block_id: Option<Id>,
    pub matched_chunk_id: Option<Id>,
    pub result_rank: u32,
}

/// A search to remember. The embedding is held as IEEE 754 bits.
#[derive(Debug, Clone)]
pub struct CreateSearchSession {
    pub raw_query_text: String,
    pub effective_query_text: String,
    pub query_embedding: Vec<u32>,
    pub embedding_model: String,
    pub results: Vec<SearchResultTarget>,
}

/// How an entry's past feedback weighs now.
#[derive(Debug, Clone, Copy, PartialEq, Eq, Structural)]
pub struct EntryMemorySignal {
    pub entry_id: Id,
    pub reinforcement_count: u8,
    pub last_reinforced_at: Timestamp,
    pub memory_factor: F64Bits,
}

/// An entry that a learned query points at.
#[derive(Debug, Clone, Copy, PartialEq, Eq, Structural)]
pub struct AffinityHit {
    pub entry_id: Id,
    pub block_id: Option<Id>,
    pub chunk_id: Option<Id>,
    pub similarity: F64Bits,
    pub confidence: F64Bits,
    pub affinity_rank: u32,
}

/// One retained learned-query example that needs a provider vector.
#[derive(Debug, Clone)]
pub struct AffinityEmbeddingInput {
    pub affinity_id: Id,
    pub effective_query_text: String,
}

/// Provider work, and the fingerprint of the rows it was planned from.
#[derive(Debug, Clone)]
pub struct AffinityEmbeddingPlan {
    pub inputs: Vec<AffinityEmbeddingInput>,
    pub fingerprint: String,
}

/// The reinforcement that one target received.
#[derive(Debug, Clone, Copy, PartialEq, Eq, Structural)]
pub struct AppliedFeedback {
    pub entry_id: Id,
    pub reinforcement_count: u8,
    pub affinity_count: u8,
    pub last_reinforced_at: Timestamp,
}

/// Which targets were reinforced now, and which had been before.
#[derive(Debug, Clone)]
pub struct FeedbackResult {
    pub applied: Vec<AppliedFeedback>,
    pub already_applied: Vec<Id>,
}

} // verus!
