//! Conflict resolution. The proposals of one tick are taken in the order of
//! the sweep. A proposal is accepted when none of the cells that it touches
//! is touched by a proposal accepted before it; the first to propose wins.
//! A proposal that loses becomes "stay": its particle is decided afresh in
//! the next tick, from the cell it is in.

use vstd::prelude::*;
use crate::rules::{Action, Proposal};

verus! {

/// The cell, other than the particle's own, that an action touches.
pub open spec fn spec_dest(a: Action) -> Option<usize> {
    match a {
        Action::Move { to } => Some(to),
        Action::Swap { with } => Some(with),
        Action::Spawn { to, .. } => Some(to),
        _ => None,
    }
}

/// Whether the proposal can be accepted, given the cells that are taken:
/// the cells that it touches are on the grid, and none of them is taken.
/// To stay touches nothing.
pub open spec fn clear_for(taken: Seq<bool>, p: Proposal) -> bool {
    p.action == Action::Stay || (p.from < taken.len() && !taken[p.from as int] && match spec_dest(
        p.action,
    ) {
        Some(d) => d < taken.len() && !taken[d as int],
        None => true,
    })
}

/// The proposal as it leaves resolution: itself if it can be accepted,
/// else to stay.
pub open spec fn settle(taken: Seq<bool>, p: Proposal) -> Proposal {
    if clear_for(taken, p) {
        p
    } else {
        Proposal { from: p.from, action: Action::Stay }
    }
}

/// The cells that are taken once the accepted proposal `p` has taken its.
pub open spec fn mark(taken: Seq<bool>, p: Proposal) -> Seq<bool> {
    if p.action == Action::Stay {
        taken
    } else {
        let own = taken.update(p.from as int, true);
        match spec_dest(p.action) {
            Some(d) => own.update(d as int, true),
            None => own,
        }
    }
}

/// Which of `n` cells are taken after the first `k` proposals.
pub open spec fn spec_taken(ps: Seq<Proposal>, n: nat, k: nat) -> Seq<bool>
    decreases k,
{
    if k == 0 {
        Seq::new(n, |c: int| false)
    } else {
        let before = spec_taken(ps, n, (k - 1) as nat);
        mark(before, settle(before, ps[k - 1]))
    }
}

/// The proposals after resolution, on a grid of `n` cells.
pub open spec fn spec_resolve(ps: Seq<Proposal>, n: nat) -> Seq<Proposal> {
    Seq::new(ps.len(), |i: int| settle(spec_taken(ps, n, i as nat), ps[i]))
}

/// The set of taken cells keeps its size.
pub proof fn lemma_taken_len(ps: Seq<Proposal>, n: nat, k: nat)
    ensures
        spec_taken(ps, n, k).len() == n,
    decreases k,
{
    if k > 0 {
        lemma_taken_len(ps, n, (k - 1) as nat);
    }
}

/// Whether the proposal touches cell number `c`: the cell is the
/// particle's own, or the one that its action reaches into. To stay touches
/// nothing.
pub open spec fn touches(p: Proposal, c: int) -> bool {
    p.action != Action::Stay && (c == p.from || spec_dest(p.action) == Some(c as usize))
}

/// A cell is taken exactly when an accepted proposal touches it.
pub proof fn lemma_taken_is_touched(ps: Seq<Proposal>, n: nat, k: nat, c: int)
    requires
        k <= ps.len(),
        0 <= c < n,
        n <= usize::MAX,
    ensures
        spec_taken(ps, n, k)[c] == exists|i: int|
            0 <= i < k && touches(#[trigger] spec_resolve(ps, n)[i], c),
    decreases k,
{
    let settled = spec_resolve(ps, n);
    lemma_taken_len(ps, n, k);
    if k == 0 {
    } else {
        let j = (k - 1) as nat;
        lemma_taken_is_touched(ps, n, j, c);
        lemma_taken_len(ps, n, j);
        let before = spec_taken(ps, n, j);
        let p = settle(before, ps[j as int]);
        assert(settled[j as int] == p);
        if spec_taken(ps, n, k)[c] {
            if before[c] {
                let i = choose|i: int| 0 <= i < j && touches(#[trigger] settled[i], c);
                assert(0 <= i < k && touches(settled[i], c));
            } else {
                assert(touches(settled[j as int], c));
            }
        }
        if exists|i: int| 0 <= i < k && touches(#[trigger] settled[i], c) {
            let i = choose|i: int| 0 <= i < k && touches(#[trigger] settled[i], c);
            if i < j {
                assert(before[c]);
            }
        }
    }
}

/// No two accepted proposals touch the same cell: every cell changes hands
/// at most once in a tick.
pub proof fn lemma_accepted_are_disjoint(ps: Seq<Proposal>, n: nat, i: int, j: int, c: int)
    requires
        0 <= i < j < ps.len(),
        0 <= c < n,
        n <= usize::MAX,
    ensures
        !(touches(spec_resolve(ps, n)[i], c) && touches(spec_resolve(ps, n)[j], c)),
{
    lemma_taken_is_touched(ps, n, j as nat, c);
    lemma_taken_len(ps, n, j as nat);
}

/// The first to propose wins: a proposal whose cells lie on the grid, and
/// which no earlier proposal touches in any of them, is accepted.
pub proof fn lemma_first_wins(ps: Seq<Proposal>, n: nat, j: int)
    requires
        0 <= j < ps.len(),
        n <= usize::MAX,
        ps[j].from < n,
        spec_dest(ps[j].action) is Some ==> spec_dest(ps[j].action)->Some_0 < n,
        forall|i: int, c: int|
            0 <= i < j && 0 <= c < n && touches(ps[j], c) ==> !#[trigger] touches(ps[i], c),
    ensures
        spec_resolve(ps, n)[j] == ps[j],
{
    let p = ps[j];
    let taken = spec_taken(ps, n, j as nat);
    lemma_taken_len(ps, n, j as nat);
    if p.action != Action::Stay {
        assert forall|c: int| 0 <= c < n && touches(p, c) implies !taken[c] by {
            lemma_taken_is_touched(ps, n, j as nat, c);
            if taken[c] {
                let i = choose|i: int|
                    0 <= i < j && touches(#[trigger] spec_resolve(ps, n)[i], c);
                assert(touches(ps[i], c));
            }
        }
        assert(touches(p, p.from as int));
        if spec_dest(p.action) is Some {
            assert(touches(p, spec_dest(p.action)->Some_0 as int));
        }
    }
}

/// A proposal that loses its conflict becomes "stay" for the same
/// particle; no proposal becomes anything else.
pub proof fn lemma_loser_stays(ps: Seq<Proposal>, n: nat, j: int)
    requires
        0 <= j < ps.len(),
    ensures
        spec_resolve(ps, n)[j] == ps[j] || spec_resolve(ps, n)[j] == (Proposal {
            from: ps[j].from,
            action: Action::Stay,
        }),
{
}

fn dest(a: Action) -> (d: Option<usize>)
    ensures
        d == spec_dest(a),
{
    match a {
        Action::Move { to } => Some(to),
        Action::Swap { with } => Some(with),
        Action::Spawn { to, particle } => Some(to),
        _ => None,
    }
}

fn is_stay(a: Action) -> (r: bool)
    ensures
        r == (a == Action::Stay),
{
    match a {
        Action::Stay => true,
        _ => false,
    }
}

/// Resolve: settles the proposals of one tick on a grid of `cells` cells.
/// The result has one entry for each proposal, in the same order: the
/// proposal itself where it is accepted, and "stay" where it lost.
pub fn resolve(proposals: &Vec<Proposal>, cells: usize) -> (settled: Vec<Proposal>)
    ensures
        settled@ == spec_resolve(proposals@, cells as nat),
{
    let mut taken: Vec<bool> = Vec::new();
    let mut c: usize = 0;
    while c < cells
        invariant
            c <= cells,
            taken@.len() == c,
            forall|d: int| 0 <= d < c ==> taken@[d] == false,
        decreases cells - c,
    {
        taken.push(false);
        c = c + 1;
    }
    assert(taken@ =~= spec_taken(proposals@, cells as nat, 0));
    let mut settled: Vec<Proposal> = Vec::new();
    let mut i: usize = 0;
    while i < proposals.len()
        invariant
            i <= proposals@.len(),
            taken@.len() == cells,
            taken@ == spec_taken(proposals@, cells as nat, i as nat),
            settled@.len() == i,
            forall|j: int|
                0 <= j < i ==> settled@[j] == settle(
                    spec_taken(proposals@, cells as nat, j as nat),
                    proposals@[j],
                ),
        decreases proposals@.len() - i,
    {
        let p = proposals[i];
        let d = dest(p.action);
        let clear = is_stay(p.action) || (p.from < cells && !taken[p.from] && match d {
            Some(t) => t < cells && !taken[t],
            None => true,
        });
        if clear {
            settled.push(p);
            if !is_stay(p.action) {
                taken[p.from] = true;
                match d {
                    Some(t) => {
                        taken[t] = true;
                    },
                    None => {},
                }
            }
        } else {
            settled.push(Proposal { from: p.from, action: Action::Stay });
        }
        i = i + 1;
    }
    assert(settled@ =~= spec_resolve(proposals@, cells as nat));
    settled
}

} // verus!
