use vstd::prelude::*;

verus! {

/// Binding strength of operators, weakest first.
#[derive(Clone, Copy, Debug, PartialEq, Eq, Structural)]
pub enum Precedence {
    Lowest,
    Assignment,
    Or,
    And,
    Equality,
    Comparison,
    Term,
    Factor,
    Unary,
    Call,
    Primary,
}

/// The strongest precedence's rank.
pub const PRIMARY_RANK: usize = 10;

impl Precedence {
    /// The rank of the precedence: 0 for `Lowest` (no binding) up to 10 for `Primary`.
    pub open spec fn spec_rank(self) -> nat {
        match self {
            Precedence::Lowest => 0,
            Precedence::Assignment => 1,
            Precedence::Or => 2,
            Precedence::And => 3,
            Precedence::Equality => 4,
            Precedence::Comparison => 5,
            Precedence::Term => 6,
            Precedence::Factor => 7,
            Precedence::Unary => 8,
            Precedence::Call => 9,
            Precedence::Primary => 10,
        }
    }

    /// The precedence of rank `rank`; `Primary` for every rank past the last.
    pub open spec fn spec_from_rank(rank: nat) -> Precedence {
        if rank == 0 { Precedence::Lowest }
        else if rank == 1 { Precedence::Assignment }
        else if rank == 2 { Precedence::Or }
        else if rank == 3 { Precedence::And }
        else if rank == 4 { Precedence::Equality }
        else if rank == 5 { Precedence::Comparison }
        else if rank == 6 { Precedence::Term }
        else if rank == 7 { Precedence::Factor }
        else if rank == 8 { Precedence::Unary }
        else if rank == 9 { Precedence::Call }
        else { Precedence::Primary }
    }

    /// The rank of the precedence (`precedence as usize`).
    pub fn rank(&self) -> (res: usize)
        ensures
            res == self.spec_rank(),
    {
        match self {
            Precedence::Lowest => 0,
            Precedence::Assignment => 1,
            Precedence::Or => 2,
            Precedence::And => 3,
            Precedence::Equality => 4,
            Precedence::Comparison => 5,
            Precedence::Term => 6,
            Precedence::Factor => 7,
            Precedence::Unary => 8,
            Precedence::Call => 9,
            Precedence::Primary => 10,
        }
    }

    /// The precedence of rank `value`; `Primary` for every rank past the last.
    pub fn from_rank(value: usize) -> (res: Precedence)
        ensures
            res == Precedence::spec_from_rank(value as nat),
    {
        if value == 0 { Precedence::Lowest }
        else if value == 1 { Precedence::Assignment }
        else if value == 2 { Precedence::Or }
        else if value == 3 { Precedence::And }
        else if value == 4 { Precedence::Equality }
        else if value == 5 { Precedence::Comparison }
        else if value == 6 { Precedence::Term }
        else if value == 7 { Precedence::Factor }
        else if value == 8 { Precedence::Unary }
        else if value == 9 { Precedence::Call }
        else { Precedence::Primary }
    }

    /// The next stronger precedence; `Primary` stays `Primary`.
    pub fn higher(&self) -> (res: Precedence)
        ensures
            res.spec_rank() == if self.spec_rank() < PRIMARY_RANK { self.spec_rank() + 1 } else { PRIMARY_RANK as nat },
    {
        let a = self.rank() + 1;
        Precedence::from_rank(a)
    }

    /// Whether `self` binds at most as strongly as `other` (`self <= other`).
    pub fn at_most(&self, other: &Precedence) -> (res: bool)
        ensures
            res == (self.spec_rank() <= other.spec_rank()),
    {
        self.rank() <= other.rank()
    }
}

/// Ranks and precedences convert into each other: every precedence is the one of its
/// rank, and `higher` never goes past `Primary`.
pub proof fn lemma_precedence_rank_roundtrip(p: Precedence, rank: nat)
    ensures
        Precedence::spec_from_rank(p.spec_rank()) == p,
        p.spec_rank() <= PRIMARY_RANK,
        rank <= PRIMARY_RANK ==> Precedence::spec_from_rank(rank).spec_rank() == rank,
{
}

} // verus!
