//! Counters of an association.

use vstd::prelude::*;

verus! {

/// How often something happened to an association, modulo 2^64.
#[derive(Debug, Clone, Copy, PartialEq, Eq, Structural)]
pub struct AssociationStats {
    pub n_datas: u64,
    pub n_sacks: u64,
    pub n_t3timeouts: u64,
    pub n_ack_timeouts: u64,
    pub n_fast_retrans: u64,
}

impl AssociationStats {
    /// Nothing happened yet.
    pub open spec fn zero() -> AssociationStats {
        AssociationStats {
            n_datas: 0,
            n_sacks: 0,
            n_t3timeouts: 0,
            n_ack_timeouts: 0,
            n_fast_retrans: 0,
        }
    }

    /// Counts a DATA chunk.
    pub fn inc_datas(&mut self)
        ensures
            *final(self) == (AssociationStats {
                n_datas: old(self).n_datas.wrapping_add(1),
                ..*old(self)
            }),
    {
        self.n_datas = self.n_datas.wrapping_add(1);
    }

    /// Counts a SACK chunk.
    pub fn inc_sacks(&mut self)
        ensures
            *final(self) == (AssociationStats {
                n_sacks: old(self).n_sacks.wrapping_add(1),
                ..*old(self)
            }),
    {
        self.n_sacks = self.n_sacks.wrapping_add(1);
    }

    /// Counts an expiry of the T3-rtx timer.
    pub fn inc_t3timeouts(&mut self)
        ensures
            *final(self) == (AssociationStats {
                n_t3timeouts: old(self).n_t3timeouts.wrapping_add(1),
                ..*old(self)
            }),
    {
        self.n_t3timeouts = self.n_t3timeouts.wrapping_add(1);
    }

    /// Counts an expiry of the acknowledgement timer.
    pub fn inc_ack_timeouts(&mut self)
        ensures
            *final(self) == (AssociationStats {
                n_ack_timeouts: old(self).n_ack_timeouts.wrapping_add(1),
                ..*old(self)
            }),
    {
        self.n_ack_timeouts = self.n_ack_timeouts.wrapping_add(1);
    }

    /// Counts a chunk that is retransmitted fast.
    pub fn inc_fast_retrans(&mut self)
        ensures
            *final(self) == (AssociationStats {
                n_fast_retrans: old(self).n_fast_retrans.wrapping_add(1),
                ..*old(self)
            }),
    {
        self.n_fast_retrans = self.n_fast_retrans.wrapping_add(1);
    }
}

impl Default for AssociationStats {
    fn default() -> (r: Self)
        ensures
            r == AssociationStats::zero(),
    {
        AssociationStats {
            n_datas: 0,
            n_sacks: 0,
            n_t3timeouts: 0,
            n_ack_timeouts: 0,
            n_fast_retrans: 0,
        }
    }
}

} // verus!
