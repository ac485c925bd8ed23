use vstd::prelude::*;

verus! {

/// The escape result of an orbit probed for at most `limit` iterations:
/// `beyond[i]` says whether the orbit point at iteration `i` lies outside the
/// circle of radius 2. The result is the first such iteration below `limit`,
/// or `None` when there is none among the iterations observed.
pub open spec fn first_escape(beyond: Seq<bool>, limit: nat) -> Option<nat>
    decreases limit,
{
    if limit == 0 {
        None
    } else {
        match first_escape(beyond, (limit - 1) as nat) {
            Some(i) => Some(i),
            None => if limit - 1 < beyond.len() && beyond[limit - 1] {
                Some((limit - 1) as nat)
            } else {
                None
            },
        }
    }
}

/// `first_escape` is the least iteration below the limit at which the orbit
/// was beyond the radius.
pub proof fn lemma_first_escape_is_least(beyond: Seq<bool>, limit: nat)
    ensures
        first_escape(beyond, limit) matches Some(i) ==> {
            &&& i < limit
            &&& i < beyond.len()
            &&& beyond[i as int]
            &&& forall|j: int| 0 <= j < i ==> !#[trigger] beyond[j]
        },
        first_escape(beyond, limit) is None ==> forall|j: int|
            0 <= j < limit && j < beyond.len() ==> !#[trigger] beyond[j],
    decreases limit,
{
    if limit > 0 {
        lemma_first_escape_is_least(beyond, (limit - 1) as nat);
    }
}

/// An escape found within one budget is found, at the same iteration, with
/// every budget larger than that iteration.
pub proof fn lemma_escape_independent_of_limit(beyond: Seq<bool>, limit: nat, other: nat)
    requires
        first_escape(beyond, limit) is Some,
        other > first_escape(beyond, limit)->Some_0,
    ensures
        first_escape(beyond, other) == first_escape(beyond, limit),
    decreases other,
{
    let i = first_escape(beyond, limit)->Some_0;
    lemma_first_escape_is_least(beyond, limit);
    if other == i + 1 {
        lemma_first_escape_is_least(beyond, i);
        if first_escape(beyond, i) is Some {
            lemma_first_escape_is_least(beyond, i);
            let k = first_escape(beyond, i)->Some_0;
            assert(!beyond[k as int]);
        }
    } else {
        lemma_escape_independent_of_limit(beyond, limit, (other - 1) as nat);
    }
}

/// An orbit that never leaves the circle of radius 2 is reported as not
/// escaping, whatever the budget.
pub proof fn lemma_bounded_orbit_never_escapes(beyond: Seq<bool>, limit: nat)
    requires
        forall|j: int| 0 <= j < beyond.len() ==> !#[trigger] beyond[j],
    ensures
        first_escape(beyond, limit) is None,
{
    lemma_first_escape_is_least(beyond, limit);
}

/// The `n`-th point of the orbit of 0 under `z -> z * z + c`, computed exactly,
/// for a point `c` whose coordinates are integers; a point is a pair (real part,
/// imaginary part).
pub open spec fn exact_orbit(c: (int, int), n: nat) -> (int, int)
    decreases n,
{
    if n == 0 {
        (0, 0)
    } else {
        let z = exact_orbit(c, (n - 1) as nat);
        (z.0 * z.0 - z.1 * z.1 + c.0, 2 * z.0 * z.1 + c.1)
    }
}

/// For the first `count` iterations of the exact orbit of `c`, whether the
/// point lies beyond the circle of radius 2.
pub open spec fn exact_orbit_beyond(c: (int, int), count: nat) -> Seq<bool> {
    Seq::new(
        count,
        |i: int|
            {
                let z = exact_orbit(c, i as nat);
                z.0 * z.0 + z.1 * z.1 > 4
            },
    )
}

/// The origin is a fixed point of `z -> z * z + 0`: its orbit stays at 0, so
/// the point 0 is reported as not escaping for every budget.
pub proof fn lemma_origin_never_escapes(count: nat, limit: nat)
    ensures
        forall|n: nat| #[trigger] exact_orbit((0, 0), n) == (0int, 0int),
        first_escape(exact_orbit_beyond((0, 0), count), limit) is None,
{
    assert forall|n: nat| #[trigger] exact_orbit((0, 0), n) == (0int, 0int) by {
        lemma_origin_orbit(n);
    }
    let beyond = exact_orbit_beyond((0, 0), count);
    assert forall|j: int| 0 <= j < beyond.len() implies !#[trigger] beyond[j] by {
        lemma_origin_orbit(j as nat);
    }
    lemma_bounded_orbit_never_escapes(beyond, limit);
}

proof fn lemma_origin_orbit(n: nat)
    ensures
        exact_orbit((0, 0), n) == (0int, 0int),
    decreases n,
{
    if n > 0 {
        lemma_origin_orbit((n - 1) as nat);
    }
}

/// Looking past the observed iterations changes nothing.
proof fn lemma_first_escape_past_observed(beyond: Seq<bool>, limit: nat)
    requires
        limit >= beyond.len(),
    ensures
        first_escape(beyond, limit) == first_escape(beyond, beyond.len()),
    decreases limit,
{
    if limit > beyond.len() {
        lemma_first_escape_past_observed(beyond, (limit - 1) as nat);
    }
}

/// The decisions of the escape-time test for one point, iteration by
/// iteration. The caller computes the orbit and reports, before each step of
/// the recurrence, whether the current point lies beyond the radius; the scan
/// says when the point has escaped and when the budget is spent.
pub struct EscapeScan {
    limit: usize,
    step: usize,
    seen: Ghost<Seq<bool>>,
}

impl EscapeScan {
    /// The iteration budget.
    pub closed spec fn limit(&self) -> nat {
        self.limit as nat
    }

    /// What was reported so far, one entry per iteration.
    pub closed spec fn seen(&self) -> Seq<bool> {
        self.seen@
    }

    /// The scan is still undecided or has run out of budget: no reported
    /// point was beyond the radius.
    pub closed spec fn wf(&self) -> bool {
        &&& self.step == self.seen@.len()
        &&& self.step <= self.limit
        &&& first_escape(self.seen@, self.seen@.len()) is None
    }

    /// A scan with budget `limit` that has observed nothing.
    pub fn new(limit: usize) -> (s: EscapeScan)
        ensures
            s.wf(),
            s.limit() == limit,
            s.seen() == Seq::<bool>::empty(),
    {
        EscapeScan { limit, step: 0, seen: Ghost(Seq::empty()) }
    }

    /// The budget is spent: the point did not escape.
    pub fn is_exhausted(&self) -> (r: bool)
        requires
            self.wf(),
        ensures
            self.seen().len() <= self.limit(),
            r == (self.seen().len() == self.limit()),
            r ==> first_escape(self.seen(), self.limit()) is None,
    {
        proof {
            lemma_first_escape_past_observed(self.seen@, self.limit as nat);
        }
        self.step == self.limit
    }

    /// Records whether the orbit point of the next iteration lies beyond the
    /// radius. Returns the escape iteration when it does.
    pub fn observe(&mut self, beyond_radius: bool) -> (r: Option<usize>)
        requires
            old(self).wf(),
            old(self).seen().len() < old(self).limit(),
        ensures
            final(self).limit() == old(self).limit(),
            final(self).seen() == old(self).seen().push(beyond_radius),
            r matches Some(i) ==> i == old(self).seen().len() && first_escape(
                final(self).seen(),
                final(self).limit(),
            ) == Some(i as nat),
            r is None <==> !beyond_radius,
            r is None ==> final(self).wf(),
    {
        let ghost before = self.seen@;
        let step = self.step;
        self.seen = Ghost(self.seen@.push(beyond_radius));
        proof {
            let after = self.seen@;
            assert(after.subrange(0, before.len() as int) =~= before);
            lemma_first_escape_prefix(after, before, before.len());
            lemma_first_escape_past_observed(after, self.limit as nat);
        }
        if beyond_radius {
            Some(step)
        } else {
            self.step = step + 1;
            None
        }
    }
}

/// `first_escape` looks only at the iterations below the limit.
proof fn lemma_first_escape_prefix(longer: Seq<bool>, shorter: Seq<bool>, limit: nat)
    requires
        limit <= shorter.len() <= longer.len(),
        forall|j: int| 0 <= j < shorter.len() ==> longer[j] == shorter[j],
    ensures
        first_escape(longer, limit) == first_escape(shorter, limit),
    decreases limit,
{
    if limit > 0 {
        lemma_first_escape_prefix(longer, shorter, (limit - 1) as nat);
    }
}

} // verus!
