//! Seeded schedules of Givens rotations.
//!
//! A schedule is a sequence of plane rotations: in each layer a random ordering of the
//! coordinates is cut into pairs, and each pair is rotated by a random angle. The same seed
//! gives the same schedule, so it is never stored.

use rand::rngs::StdRng;
use rand::seq::SliceRandom;
use rand::SeedableRng;
use vstd::prelude::*;

use crate::double;

verus! {

/// The generator of rand's `StdRng`, carried through as an opaque value.
#[verifier::external_type_specification]
#[verifier::external_body]
pub struct ExStdRng(StdRng);

/// The generator that `StdRng::seed_from_u64` builds from a seed.
pub uninterp spec fn generator_of(seed: u64) -> StdRng;

/// What `SliceRandom::shuffle` makes of a slice, and the generator it leaves behind.
pub uninterp spec fn shuffle_outcome(items: Seq<usize>, rng: StdRng) -> (Seq<usize>, StdRng);

/// `StdRng::seed_from_u64`. It is a function of the seed alone.
#[verifier::external_body]
fn seeded_generator(seed: u64) -> (rng: StdRng)
    ensures
        rng == generator_of(seed),
{
    StdRng::seed_from_u64(seed)
}

/// `SliceRandom::shuffle` on a slice of positions. It draws from the generator only, and it
/// exchanges elements in place, so that what comes out is a permutation of what went in.
#[verifier::external_body]
fn shuffle(items: &mut Vec<usize>, rng: &mut StdRng)
    ensures
        (final(items)@, *final(rng)) == shuffle_outcome(old(items)@, *old(rng)),
        final(items)@.to_multiset() == old(items)@.to_multiset(),
{
    items.shuffle(rng)
}

/// One plane rotation by the angle `theta`, which is the bit pattern of a double.
#[derive(Clone, Copy, Debug, PartialEq, Eq, Structural)]
pub struct GivensRotation {
    pub left: usize,
    pub right: usize,
    pub theta: u64,
}

/// The number of layers of a schedule.
pub fn layer_count(n_qubits: usize) -> (depth: usize)
    ensures
        depth == (if n_qubits == 0 {
            1
        } else {
            n_qubits
        }),
        depth >= 1,
        depth >= n_qubits,
        depth == 1 || depth == n_qubits,
{
    if n_qubits == 0 {
        1
    } else {
        n_qubits
    }
}

/// The ordering that a schedule starts from.
fn initial_ordering(len: usize) -> (ordering: Vec<usize>)
    ensures
        ordering@ == Seq::new(len as nat, |i: int| i as usize),
{
    let mut ordering: Vec<usize> = Vec::new();
    for i in 0..len
        invariant
            ordering@.len() == i,
            forall|j: int| 0 <= j < i ==> #[trigger] ordering@[j] == j,
    {
        ordering.push(i);
    }
    assert(ordering@ =~= Seq::new(len as nat, |i: int| i as usize));
    ordering
}

/// Start a schedule on `len` coordinates: the ordering to shuffle, and the generator to draw
/// layers and angles from.
pub fn start_schedule(len: usize, seed: u64) -> (start: (Vec<usize>, StdRng))
    ensures
        start.0@ == Seq::new(len as nat, |i: int| i as usize),
        start.1 == generator_of(seed),
{
    (initial_ordering(len), seeded_generator(seed))
}

/// Consecutive positions of an ordering, two by two. An odd one out is left over.
pub open spec fn pairs_of(ordering: Seq<usize>) -> Seq<(usize, usize)> {
    Seq::new(ordering.len() / 2, |i: int| (ordering[2 * i], ordering[2 * i + 1]))
}

/// Cut an ordering into pairs.
pub fn ordering_pairs(ordering: &[usize]) -> (pairs: Vec<(usize, usize)>)
    ensures
        pairs@ == pairs_of(ordering@),
{
    let len: usize = ordering.len();
    let half: usize = len / 2;
    let mut pairs: Vec<(usize, usize)> = Vec::new();
    for i in 0..half
        invariant
            len == ordering@.len(),
            half == len / 2,
            pairs@ == pairs_of(ordering@).take(i as int),
    {
        pairs.push((ordering[2 * i], ordering[2 * i + 1]));
        assert(pairs@ =~= pairs_of(ordering@).take(i + 1));
    }
    assert(pairs@ =~= pairs_of(ordering@));
    pairs
}

/// Draw the pairs of the next layer: shuffle the ordering of the layer before, and cut it
/// into pairs.
pub fn givens_layer(ordering: &mut Vec<usize>, rng: &mut StdRng) -> (pairs: Vec<(usize, usize)>)
    ensures
        (final(ordering)@, *final(rng)) == shuffle_outcome(old(ordering)@, *old(rng)),
        final(ordering)@.to_multiset() == old(ordering)@.to_multiset(),
        pairs@ == pairs_of(final(ordering)@),
{
    shuffle(ordering, rng);
    ordering_pairs(ordering)
}

/// Every position below `len` occurs exactly once.
pub open spec fn is_ordering(ordering: Seq<usize>, len: nat) -> bool {
    ordering.to_multiset() == Seq::new(len, |i: int| i as usize).to_multiset()
}

/// The rotations of a layer act on different coordinates: no position occurs in two pairs or
/// twice in one, and all of them exist.
pub proof fn law_layer_is_disjoint(ordering: Seq<usize>, len: nat, i: int, j: int)
    requires
        len <= usize::MAX,
        is_ordering(ordering, len),
        0 <= i < pairs_of(ordering).len(),
        0 <= j < pairs_of(ordering).len(),
    ensures
        pairs_of(ordering)[i].0 < len,
        pairs_of(ordering)[i].1 < len,
        pairs_of(ordering)[i].0 != pairs_of(ordering)[j].1,
        i != j ==> pairs_of(ordering)[i].0 != pairs_of(ordering)[j].0,
        i != j ==> pairs_of(ordering)[i].1 != pairs_of(ordering)[j].1,
{
    lemma_ordering_elements(ordering, len, 2 * i, 2 * j + 1);
    lemma_ordering_elements(ordering, len, 2 * i + 1, 2 * j);
    if i != j {
        lemma_ordering_elements(ordering, len, 2 * i, 2 * j);
        lemma_ordering_elements(ordering, len, 2 * i + 1, 2 * j + 1);
    }
}

/// An ordering holds positions below its length, each once.
proof fn lemma_ordering_elements(ordering: Seq<usize>, len: nat, a: int, b: int)
    requires
        len <= usize::MAX,
        is_ordering(ordering, len),
        0 <= a < ordering.len(),
        0 <= b < ordering.len(),
        a != b,
    ensures
        ordering[a] < len,
        ordering[a] != ordering[b],
{
    broadcast use vstd::seq_lib::group_to_multiset_ensures;

    let all = Seq::new(len, |i: int| i as usize);
    assert(ordering.to_multiset().count(ordering[a]) > 0) by {
        assert(ordering.contains(ordering[a]));
    }
    assert(all.contains(ordering[a]));
    all.lemma_multiset_has_no_duplicates();
    ordering.lemma_multiset_has_no_duplicates_conv();
}

/// The rotation that undoes another one.
pub open spec fn inverse_rotation(r: GivensRotation) -> GivensRotation {
    GivensRotation { theta: double::negated(r.theta), ..r }
}

/// The rotations that undo a schedule: the last one first, each by the negative angle.
pub open spec fn inverse_of(schedule: Seq<GivensRotation>) -> Seq<GivensRotation> {
    Seq::new(schedule.len(), |i: int| inverse_rotation(schedule[schedule.len() - 1 - i]))
}

/// Build the schedule that undoes another one.
pub fn inverse_schedule(schedule: &[GivensRotation]) -> (inverse: Vec<GivensRotation>)
    ensures
        inverse@ == inverse_of(schedule@),
{
    let len: usize = schedule.len();
    let mut inverse: Vec<GivensRotation> = Vec::new();
    for i in 0..len
        invariant
            len == schedule@.len(),
            inverse@ == inverse_of(schedule@).take(i as int),
    {
        let r: GivensRotation = schedule[len - 1 - i];
        inverse.push(
            GivensRotation { left: r.left, right: r.right, theta: double::double_neg(r.theta) },
        );
        assert(inverse@ =~= inverse_of(schedule@).take(i + 1));
    }
    assert(inverse@ =~= inverse_of(schedule@));
    inverse
}

/// Undoing what undoes a schedule is the schedule.
pub proof fn law_inverse_is_self_inverse(schedule: Seq<GivensRotation>)
    ensures
        inverse_of(inverse_of(schedule)) == schedule,
{
    let twice = inverse_of(inverse_of(schedule));
    assert forall|i: int| 0 <= i < schedule.len() implies twice[i] == #[trigger] schedule[i] by {
        double::law_negation_is_self_inverse(schedule[i].theta);
    }
    assert(twice =~= schedule);
}

/// What a schedule makes of a vector, given what one rotation makes of it.
pub open spec fn run<V>(
    v: V,
    schedule: Seq<GivensRotation>,
    step: spec_fn(V, GivensRotation) -> V,
) -> V
    decreases schedule.len(),
{
    if schedule.len() == 0 {
        v
    } else {
        step(run(v, schedule.drop_last(), step), schedule.last())
    }
}

/// If every rotation is undone by the one with the negative angle, then every schedule is
/// undone by its inverse.
pub proof fn law_inverse_undoes_schedule<V>(
    v: V,
    schedule: Seq<GivensRotation>,
    step: spec_fn(V, GivensRotation) -> V,
)
    requires
        forall|u: V, r: GivensRotation| step(#[trigger] step(u, r), inverse_rotation(r)) == u,
    ensures
        run(run(v, schedule, step), inverse_of(schedule), step) == v,
    decreases schedule.len(),
{
    if schedule.len() > 0 {
        let init = schedule.drop_last();
        let u = run(v, init, step);
        law_inverse_undoes_schedule(v, init, step);
        assert(inverse_of(schedule) =~= seq![inverse_rotation(schedule.last())] + inverse_of(init));
        lemma_run_prepend(step(u, schedule.last()), inverse_rotation(schedule.last()), inverse_of(
            init,
        ), step);
    }
}

proof fn lemma_run_prepend<V>(
    v: V,
    first: GivensRotation,
    rest: Seq<GivensRotation>,
    step: spec_fn(V, GivensRotation) -> V,
)
    ensures
        run(v, seq![first] + rest, step) == run(step(v, first), rest, step),
    decreases rest.len(),
{
    if rest.len() == 0 {
        assert((seq![first] + rest).drop_last() =~= Seq::<GivensRotation>::empty());
        assert((seq![first] + rest).last() == first);
        assert(run(v, (seq![first] + rest).drop_last(), step) == v);
    } else {
        assert((seq![first] + rest).drop_last() =~= seq![first] + rest.drop_last());
        lemma_run_prepend(v, first, rest.drop_last(), step);
    }
}

/// A plane rotation of a vector of real numbers, given the cosine and the sine of each angle.
pub open spec fn rotated(
    v: Seq<real>,
    r: GivensRotation,
    cos: spec_fn(u64) -> real,
    sin: spec_fn(u64) -> real,
) -> Seq<real> {
    let a = v[r.left as int];
    let b = v[r.right as int];
    v.update(r.left as int, cos(r.theta) * a - sin(r.theta) * b).update(
        r.right as int,
        sin(r.theta) * a + cos(r.theta) * b,
    )
}

/// Cosine and sine lie on the unit circle; the one is even and the other is odd.
pub open spec fn circular(cos: spec_fn(u64) -> real, sin: spec_fn(u64) -> real) -> bool {
    forall|t: u64|
        {
            &&& #[trigger] cos(t) * cos(t) + sin(t) * sin(t) == 1real
            &&& cos(double::negated(t)) == cos(t)
            &&& sin(double::negated(t)) == -sin(t)
        }
}

/// The rotation turns two different coordinates that exist.
pub open spec fn in_plane(r: GivensRotation, len: nat) -> bool {
    r.left < len && r.right < len && r.left != r.right
}

/// The sum of the squares.
pub open spec fn squares(v: Seq<real>) -> real
    decreases v.len(),
{
    if v.len() == 0 {
        0real
    } else {
        squares(v.drop_last()) + v.last() * v.last()
    }
}

/// Replacing a coordinate replaces its square in the sum.
proof fn lemma_squares_update(v: Seq<real>, i: int, x: real)
    requires
        0 <= i < v.len(),
    ensures
        squares(v.update(i, x)) == squares(v) - v[i] * v[i] + x * x,
    decreases v.len(),
{
    if i == v.len() - 1 {
        assert(v.update(i, x).drop_last() =~= v.drop_last());
    } else {
        assert(v.update(i, x).drop_last() =~= v.drop_last().update(i, x));
        lemma_squares_update(v.drop_last(), i, x);
    }
}

/// Factors of a product of products may be exchanged.
proof fn lemma_exchange(w: real, x: real, y: real, z: real)
    ensures
        (w * x) * (y * z) == (w * y) * (x * z),
{
    assert((w * x) * (y * z) == (w * y) * (x * z)) by (nonlinear_arith);
}

/// Products distribute over sums and differences.
proof fn lemma_distribute(x: real, y: real, z: real)
    ensures
        x * (y + z) == x * y + x * z,
        x * (y - z) == x * y - x * z,
        (y + z) * x == y * x + z * x,
        (y - z) * x == y * x - z * x,
{
    assert(x * (y + z) == x * y + x * z) by (nonlinear_arith);
    assert(x * (y - z) == x * y - x * z) by (nonlinear_arith);
    assert((y + z) * x == y * x + z * x) by (nonlinear_arith);
    assert((y - z) * x == y * x - z * x) by (nonlinear_arith);
}

/// Products commute, and one is neutral.
proof fn lemma_commute(x: real, y: real)
    ensures
        x * y == y * x,
        1real * x == x,
{
    assert(x * y == y * x) by (nonlinear_arith);
    assert(1real * x == x) by (nonlinear_arith);
}

/// A turn of two coordinates keeps the sum of their squares.
proof fn lemma_turn_squares(a: real, b: real, c: real, s: real)
    requires
        c * c + s * s == 1real,
    ensures
        (c * a - s * b) * (c * a - s * b) + (s * a + c * b) * (s * a + c * b) == a * a + b * b,
{
    let (p, q) = (c * a, s * b);
    let (m, n) = (s * a, c * b);
    lemma_distribute(p - q, p, q);
    lemma_distribute(p, p, q);
    lemma_distribute(q, p, q);
    lemma_distribute(m + n, m, n);
    lemma_distribute(m, m, n);
    lemma_distribute(n, m, n);
    lemma_exchange(c, a, c, a);
    lemma_exchange(s, b, s, b);
    lemma_exchange(s, a, s, a);
    lemma_exchange(c, b, c, b);
    // The mixed products cancel.
    lemma_exchange(c, a, s, b);
    lemma_exchange(s, a, c, b);
    lemma_commute(c, s);
    lemma_commute(p, q);
    lemma_commute(m, n);
    // The squares add up.
    lemma_distribute(a * a, c * c, s * s);
    lemma_distribute(b * b, c * c, s * s);
    lemma_commute(a * a, b * b);
    lemma_commute(b * b, a * a);
}

/// A turn is undone by the turn back.
proof fn lemma_turn_back(a: real, b: real, c: real, s: real)
    requires
        c * c + s * s == 1real,
    ensures
        c * (c * a - s * b) - (-s) * (s * a + c * b) == a,
        (-s) * (c * a - s * b) + c * (s * a + c * b) == b,
{
    lemma_distribute(c, c * a, s * b);
    lemma_distribute(c, s * a, c * b);
    lemma_distribute(s, c * a, s * b);
    lemma_distribute(s, s * a, c * b);
    lemma_distribute(s * a + c * b, 0real, s);
    lemma_distribute(c * a - s * b, 0real, s);
    assert(0real * (s * a + c * b) == 0real) by (nonlinear_arith);
    assert(0real * (c * a - s * b) == 0real) by (nonlinear_arith);
    assert(0real - s == -s);
    lemma_regroup(c, c, a);
    lemma_regroup(c, s, b);
    lemma_regroup(s, s, a);
    lemma_regroup(s, c, b);
    lemma_regroup(s, c, a);
    lemma_regroup(s, s, b);
    lemma_regroup(c, s, a);
    lemma_regroup(c, c, b);
    lemma_commute(c, s);
    lemma_distribute(a, c * c, s * s);
    lemma_distribute(b, c * c, s * s);
    lemma_commute(a, b);
    lemma_commute(b, a);
}

/// Products may be regrouped.
proof fn lemma_regroup(x: real, y: real, z: real)
    ensures
        x * (y * z) == (x * y) * z,
{
    assert(x * (y * z) == (x * y) * z) by (nonlinear_arith);
}

/// In exact arithmetic a schedule keeps the norm of a vector.
pub proof fn law_schedule_keeps_norm(
    v: Seq<real>,
    schedule: Seq<GivensRotation>,
    cos: spec_fn(u64) -> real,
    sin: spec_fn(u64) -> real,
)
    requires
        circular(cos, sin),
        forall|i: int| 0 <= i < schedule.len() ==> in_plane(#[trigger] schedule[i], v.len()),
    ensures
        run(v, schedule, |u: Seq<real>, r: GivensRotation| rotated(u, r, cos, sin)).len()
            == v.len(),
        squares(run(v, schedule, |u: Seq<real>, r: GivensRotation| rotated(u, r, cos, sin)))
            == squares(v),
    decreases schedule.len(),
{
    if schedule.len() > 0 {
        let step = |u: Seq<real>, r: GivensRotation| rotated(u, r, cos, sin);
        let init = schedule.drop_last();
        let r = schedule.last();
        assert forall|i: int| 0 <= i < init.len() implies in_plane(
            #[trigger] init[i],
            v.len(),
        ) by {
            assert(init[i] == schedule[i]);
        }
        law_schedule_keeps_norm(v, init, cos, sin);
        let u = run(v, init, step);
        let (a, b) = (u[r.left as int], u[r.right as int]);
        let (c, s) = (cos(r.theta), sin(r.theta));
        lemma_squares_update(u, r.left as int, c * a - s * b);
        lemma_squares_update(
            u.update(r.left as int, c * a - s * b),
            r.right as int,
            s * a + c * b,
        );
        lemma_turn_squares(a, b, c, s);
    }
}

/// In exact arithmetic a schedule is undone by its inverse.
pub proof fn law_schedule_is_undone(
    v: Seq<real>,
    schedule: Seq<GivensRotation>,
    cos: spec_fn(u64) -> real,
    sin: spec_fn(u64) -> real,
)
    requires
        circular(cos, sin),
        forall|i: int| 0 <= i < schedule.len() ==> in_plane(#[trigger] schedule[i], v.len()),
    ensures
        ({
            let step = |u: Seq<real>, r: GivensRotation| rotated(u, r, cos, sin);
            run(run(v, schedule, step), inverse_of(schedule), step) == v
        }),
    decreases schedule.len(),
{
    if schedule.len() > 0 {
        let step = |u: Seq<real>, r: GivensRotation| rotated(u, r, cos, sin);
        let init = schedule.drop_last();
        let r = schedule.last();
        assert forall|i: int| 0 <= i < init.len() implies in_plane(
            #[trigger] init[i],
            v.len(),
        ) by {
            assert(init[i] == schedule[i]);
        }
        law_schedule_is_undone(v, init, cos, sin);
        law_schedule_keeps_norm(v, init, cos, sin);
        let u = run(v, init, step);
        lemma_turn_back(u[r.left as int], u[r.right as int], cos(r.theta), sin(r.theta));
        assert(rotated(rotated(u, r, cos, sin), inverse_rotation(r), cos, sin) =~= u);
        assert(inverse_of(schedule) =~= seq![inverse_rotation(r)] + inverse_of(init));
        lemma_run_prepend(step(u, r), inverse_rotation(r), inverse_of(init), step);
    }
}

/// Where the number of coordinates is even, as in the real embedding of a state, a layer turns
/// every one of them.
pub proof fn law_layer_turns_everything(ordering: Seq<usize>, len: nat, c: usize) -> (i: int)
    requires
        len <= usize::MAX,
        len % 2 == 0,
        is_ordering(ordering, len),
        c < len,
    ensures
        0 <= i < pairs_of(ordering).len(),
        pairs_of(ordering)[i].0 == c || pairs_of(ordering)[i].1 == c,
{
    broadcast use vstd::seq_lib::group_to_multiset_ensures;

    let all = Seq::new(len, |i: int| i as usize);
    assert(all[c as int] == c);
    assert(all.to_multiset().count(c) > 0) by {
        assert(all.contains(c));
    }
    assert(ordering.to_multiset().count(c) > 0);
    assert(ordering.contains(c));
    assert(ordering.len() == ordering.to_multiset().len());
    assert(all.len() == all.to_multiset().len());
    let p = choose|p: int| 0 <= p < ordering.len() && ordering[p] == c;
    if p % 2 == 0 {
        assert(pairs_of(ordering)[p / 2].0 == ordering[2 * (p / 2)]);
    } else {
        assert(pairs_of(ordering)[p / 2].1 == ordering[2 * (p / 2) + 1]);
    }
    p / 2
}

} // verus!
