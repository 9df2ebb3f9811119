use vstd::prelude::*;

use crate::cycle_text::denoted_permutation;
use crate::permutation::{compose, identity_images, lemma_distinct_len, Permutation};

verus! {

/// The images of each generator, in order.
pub open spec fn generator_images(gens: Seq<Permutation>) -> Seq<Seq<u8>> {
    gens.map_values(|q: Permutation| q@)
}

/// The points reached from `base` by at most `n` steps, each step applying
/// one of the generators.
pub open spec fn steps(gens: Seq<Seq<u8>>, base: int, n: nat) -> Set<int>
    decreases n,
{
    if n == 0 {
        set![base]
    } else {
        let prev = steps(gens, base, (n - 1) as nat);
        prev.union(
            Set::new(
                |z: int|
                    exists|y: int, k: int|
                        prev.contains(y) && 0 <= k < gens.len() && z == #[trigger] gens[k][y] as int,
            ),
        )
    }
}

/// `x` lies in the orbit of `base`: some sequence of generators carries
/// `base` to `x`.
pub open spec fn in_orbit(gens: Seq<Seq<u8>>, base: int, x: int) -> bool {
    exists|n: nat| #[trigger] steps(gens, base, n).contains(x)
}

/// Every generator carries each point of `s` into `s`.
pub open spec fn closed_under(s: Set<int>, gens: Seq<Seq<u8>>) -> bool {
    forall|y: int, k: int| s.contains(y) && 0 <= k < gens.len() ==> s.contains(#[trigger] gens[k][y] as int)
}

/// Each point of `order` after the first was found from an earlier one: its
/// representative is the representative of that earlier point times a
/// generator that carries the earlier point to it.
pub open spec fn found_in_order(reps: Seq<Option<Permutation>>, gens: Seq<Seq<u8>>, order: Seq<u8>) -> bool {
    forall|t: int|
        0 < t < order.len() ==> exists|s: int, k: int|
            0 <= s < t && 0 <= k < gens.len() && gens[k][order[s] as int] == order[t] && (
            #[trigger] reps[order[t] as int])->0@ == compose(reps[order[s] as int]->0@, gens[k])
}

/// The product of the identity and the generators named by `w`, in order.
pub open spec fn word_product(gens: Seq<Seq<u8>>, w: Seq<int>) -> Seq<u8>
    decreases w.len(),
{
    if w.len() == 0 {
        identity_images()
    } else {
        compose(word_product(gens, w.drop_last()), gens[w.last()])
    }
}

/// `q` holds point `x`.
pub open spec fn holds(q: Seq<u8>, x: int) -> bool {
    exists|t: int| 0 <= t < q.len() && q[t] as int == x
}

/// The orbit is closed under every generator.
pub proof fn lemma_orbit_closed(gens: Seq<Seq<u8>>, base: int, x: int, k: int)
    requires
        in_orbit(gens, base, x),
        0 <= k < gens.len(),
    ensures
        in_orbit(gens, base, gens[k][x] as int),
{
    let n = choose|n: nat| #[trigger] steps(gens, base, n).contains(x);
    assert(steps(gens, base, n + 1).contains(gens[k][x] as int));
}

/// The orbit is the least closed set: any set that holds `base` and is closed
/// under every generator holds the whole orbit.
pub proof fn lemma_orbit_least(gens: Seq<Seq<u8>>, base: int, s: Set<int>, x: int)
    requires
        s.contains(base),
        closed_under(s, gens),
        in_orbit(gens, base, x),
    ensures
        s.contains(x),
{
    let n = choose|n: nat| #[trigger] steps(gens, base, n).contains(x);
    lemma_steps_within(gens, base, s, n);
}

/// A closed set that holds `base` holds every point reached in `n` steps.
proof fn lemma_steps_within(gens: Seq<Seq<u8>>, base: int, s: Set<int>, n: nat)
    requires
        s.contains(base),
        closed_under(s, gens),
    ensures
        steps(gens, base, n).subset_of(s),
    decreases n,
{
    if n > 0 {
        lemma_steps_within(gens, base, s, (n - 1) as nat);
    }
}

/// The orbit depends on which generators there are, not on their order: two
/// lists holding the same generators give the same orbit.
pub proof fn lemma_orbit_order_free(gens1: Seq<Seq<u8>>, gens2: Seq<Seq<u8>>, base: int, x: int)
    requires
        forall|k: int| 0 <= k < gens1.len() ==> exists|j: int| 0 <= j < gens2.len() && #[trigger] gens1[k] == gens2[j],
        forall|j: int| 0 <= j < gens2.len() ==> exists|k: int| 0 <= k < gens1.len() && gens1[k] == #[trigger] gens2[j],
    ensures
        in_orbit(gens1, base, x) <==> in_orbit(gens2, base, x),
{
    let o1 = Set::new(|z: int| in_orbit(gens1, base, z));
    let o2 = Set::new(|z: int| in_orbit(gens2, base, z));
    assert(steps(gens1, base, 0).contains(base));
    assert(steps(gens2, base, 0).contains(base));
    assert(closed_under(o1, gens2)) by {
        assert forall|y: int, j: int| o1.contains(y) && 0 <= j < gens2.len() implies o1.contains(
            #[trigger] gens2[j][y] as int,
        ) by {
            let k = choose|k: int| 0 <= k < gens1.len() && gens1[k] == gens2[j];
            lemma_orbit_closed(gens1, base, y, k);
        }
    }
    assert(closed_under(o2, gens1)) by {
        assert forall|y: int, k: int| o2.contains(y) && 0 <= k < gens1.len() implies o2.contains(
            #[trigger] gens1[k][y] as int,
        ) by {
            let j = choose|j: int| 0 <= j < gens2.len() && gens1[k] == gens2[j];
            lemma_orbit_closed(gens2, base, y, j);
        }
    }
    if in_orbit(gens1, base, x) {
        lemma_orbit_least(gens1, base, o2, x);
    }
    if in_orbit(gens2, base, x) {
        lemma_orbit_least(gens2, base, o1, x);
    }
}

/// Every representative recorded in discovery order is the identity times a
/// word of generators.
pub proof fn lemma_representatives_are_products(
    reps: Seq<Option<Permutation>>,
    gens: Seq<Seq<u8>>,
    order: Seq<u8>,
    t: int,
)
    requires
        order.len() >= 1,
        reps[order[0] as int] matches Some(q) && q@ == identity_images(),
        found_in_order(reps, gens, order),
        0 <= t < order.len(),
    ensures
        exists|w: Seq<int>|
            (forall|i: int| 0 <= i < w.len() ==> 0 <= #[trigger] w[i] < gens.len()) && reps[order[t] as int]->0@
                == word_product(gens, w),
    decreases t,
{
    if t == 0 {
        let w = Seq::<int>::empty();
        assert(reps[order[0] as int]->0@ == word_product(gens, w));
    } else {
        let (s, k) = choose|s: int, k: int|
            0 <= s < t && 0 <= k < gens.len() && gens[k][order[s] as int] == order[t] && (
            #[trigger] reps[order[t] as int])->0@ == compose(reps[order[s] as int]->0@, gens[k]);
        lemma_representatives_are_products(reps, gens, order, s);
        let w = choose|w: Seq<int>|
            (forall|i: int| 0 <= i < w.len() ==> 0 <= #[trigger] w[i] < gens.len()) && reps[order[s] as int]->0@
                == word_product(gens, w);
        let w2 = w.push(k);
        assert(w2.drop_last() =~= w);
        assert(reps[order[t] as int]->0@ == word_product(gens, w2));
        assert(forall|i: int| 0 <= i < w2.len() ==> 0 <= #[trigger] w2[i] < gens.len());
    }
}

/// Computes, for each point of the orbit of `point` under the generators, a
/// permutation that carries `point` to it (a Schreier transversal); points
/// outside the orbit have no entry. Each pass applies the generators in order
/// to the growing queue of found points; passes repeat until one finds no new
/// point. A point's representative is the one recorded when it was first found:
/// the representative of the point it was found from, times the generator.
pub fn orbit(generators: &Vec<Permutation>, point: u8) -> (r: [Option<Permutation>; 32])
    requires
        point < 32,
    ensures
        r@[point as int] matches Some(q) && q@ == identity_images(),
        forall|x: int|
            0 <= x < 32 ==> (#[trigger] r@[x] is Some <==> in_orbit(
                generator_images(generators@),
                point as int,
                x,
            )),
        forall|x: int| 0 <= x < 32 ==> (#[trigger] r@[x] matches Some(q) ==> q@[point as int] == x),
        exists|order: Seq<u8>|
            order.len() >= 1 && order[0] == point && order.no_duplicates() && (forall|x: int|
                0 <= x < 32 ==> (#[trigger] r@[x] is Some <==> holds(order, x))) && found_in_order(
                r@,
                generator_images(generators@),
                order,
            ),
{
    let ghost gs = generator_images(generators@);
    let id = Permutation::identity();
    let mut reps: [Option<Permutation>; 32] = [None; 32];
    reps[point as usize] = Some(id);
    let mut queue: Vec<u8> = Vec::new();
    queue.push(point);
    proof {
        assert(queue@[0] == point);
        assert forall|x: int| 0 <= x < 32 implies (#[trigger] reps@[x] is Some <==> holds(queue@, x)) by {
            if holds(queue@, x) {
                let t = choose|t: int| 0 <= t < queue@.len() && queue@[t] as int == x;
            }
        }
        assert forall|x: int| #[trigger] holds(queue@, x) implies in_orbit(gs, point as int, x) by {
            let t = choose|t: int| 0 <= t < queue@.len() && queue@[t] as int == x;
            assert(steps(gs, point as int, 0).contains(x));
        }
    }
    let mut grown: bool = true;
    while grown
        invariant
            point < 32,
            gs == generator_images(generators@),
            reps@.len() == 32,
            queue@.no_duplicates(),
            forall|t: int| 0 <= t < queue@.len() ==> #[trigger] queue@[t] < 32,
            forall|x: int| 0 <= x < 32 ==> (#[trigger] reps@[x] is Some <==> holds(queue@, x)),
            forall|x: int| 0 <= x < 32 ==> (#[trigger] reps@[x] matches Some(q) ==> q@[point as int] == x),
            reps@[point as int] matches Some(q) && q@ == identity_images(),
            queue@[0] == point,
            queue@.len() >= 1,
            found_in_order(reps@, gs, queue@),
            forall|x: int| #[trigger] holds(queue@, x) ==> in_orbit(gs, point as int, x),
            !grown ==> forall|j: int, t: int|
                0 <= j < gs.len() && 0 <= t < queue@.len() ==> #[trigger] holds(
                    queue@,
                    gs[j][queue@[t] as int] as int,
                ),
        decreases 33 - queue@.len() - (if grown { 0int } else { 1int }),
    {
        proof {
            lemma_distinct_len(queue@);
        }
        let ghost start = queue@.len();
        grown = false;
        let mut k: usize = 0;
        while k < generators.len()
            invariant
                point < 32,
                gs == generator_images(generators@),
                k <= generators@.len(),
                reps@.len() == 32,
                queue@.no_duplicates(),
                forall|t: int| 0 <= t < queue@.len() ==> #[trigger] queue@[t] < 32,
                forall|x: int| 0 <= x < 32 ==> (#[trigger] reps@[x] is Some <==> holds(queue@, x)),
                forall|x: int|
                    0 <= x < 32 ==> (#[trigger] reps@[x] matches Some(q) ==> q@[point as int] == x),
                reps@[point as int] matches Some(q) && q@ == identity_images(),
                queue@[0] == point,
                queue@.len() >= 1,
                found_in_order(reps@, gs, queue@),
                forall|x: int| #[trigger] holds(queue@, x) ==> in_orbit(gs, point as int, x),
                start <= queue@.len(),
                grown ==> start < queue@.len(),
                !grown ==> start == queue@.len() && forall|j: int, t: int|
                    0 <= j < k && 0 <= t < queue@.len() ==> #[trigger] holds(
                        queue@,
                        gs[j][queue@[t] as int] as int,
                    ),
            decreases generators@.len() - k,
        {
            let g = &generators[k];
            assert(gs[k as int] == g@);
            let mut i: usize = 0;
            while i < queue.len()
                invariant
                    point < 32,
                    gs == generator_images(generators@),
                    k < generators@.len(),
                    gs[k as int] == g@,
                    i <= queue@.len(),
                    reps@.len() == 32,
                    queue@.no_duplicates(),
                    forall|t: int| 0 <= t < queue@.len() ==> #[trigger] queue@[t] < 32,
                    forall|x: int| 0 <= x < 32 ==> (#[trigger] reps@[x] is Some <==> holds(queue@, x)),
                    forall|x: int|
                        0 <= x < 32 ==> (#[trigger] reps@[x] matches Some(q) ==> q@[point as int] == x),
                    reps@[point as int] matches Some(q) && q@ == identity_images(),
                    queue@[0] == point,
                    queue@.len() >= 1,
                    found_in_order(reps@, gs, queue@),
                    forall|x: int| #[trigger] holds(queue@, x) ==> in_orbit(gs, point as int, x),
                    forall|t: int| 0 <= t < i ==> holds(queue@, g@[#[trigger] queue@[t] as int] as int),
                    start <= queue@.len(),
                    grown ==> start < queue@.len(),
                    !grown ==> start == queue@.len() && forall|j: int, t: int|
                        0 <= j < k && 0 <= t < queue@.len() ==> #[trigger] holds(
                            queue@,
                            gs[j][queue@[t] as int] as int,
                        ),
                decreases 32 - i,
            {
                proof {
                    lemma_distinct_len(queue@);
                }
                let x = queue[i];
                assert(holds(queue@, x as int));
                let rep = match reps[x as usize] {
                    Some(q) => q,
                    None => {
                        assert(false);
                        id
                    },
                };
                let image = g.index(x);
                let action = rep.mul(g);
                let ghost q0 = queue@;
                let ghost r0 = reps@;
                if reps[image as usize].is_none() {
                    reps[image as usize] = Some(action);
                    queue.push(image);
                    grown = true;
                    proof {
                        assert(queue@ == q0.push(image));
                        assert forall|y: int| holds(q0, y) implies #[trigger] holds(queue@, y) by {
                            let t = choose|t: int| 0 <= t < q0.len() && q0[t] as int == y;
                            assert(queue@[t] == q0[t]);
                        }
                        assert(holds(queue@, image as int)) by {
                            assert(queue@[q0.len() as int] == image);
                        }
                        assert forall|y: int| #[trigger] holds(queue@, y) implies (holds(q0, y) || y
                            == image) by {
                            let t = choose|t: int| 0 <= t < queue@.len() && queue@[t] as int == y;
                            if t < q0.len() {
                                assert(q0[t] as int == y);
                            }
                        }
                        assert(in_orbit(gs, point as int, image as int)) by {
                            lemma_orbit_closed(gs, point as int, x as int, k as int);
                        }
                        assert(queue@.no_duplicates()) by {
                            assert forall|t: int| 0 <= t < q0.len() implies q0[t] != image by {
                                if q0[t] == image {
                                    assert(holds(q0, image as int));
                                }
                            }
                        }
                        assert(found_in_order(reps@, gs, queue@)) by {
                            assert forall|t: int| 0 < t < queue@.len() implies exists|s: int, j: int|
                                0 <= s < t && 0 <= j < gs.len() && gs[j][queue@[s] as int] == queue@[t]
                                    && (#[trigger] reps@[queue@[t] as int])->0@ == compose(
                                    reps@[queue@[s] as int]->0@,
                                    gs[j],
                                ) by {
                                if t == q0.len() {
                                    assert(queue@[i as int] == x);
                                    assert(reps@[x as int] == r0[x as int]);
                                    assert(0 <= i < t && gs[k as int][queue@[i as int] as int] == queue@[t]
                                        && reps@[queue@[t] as int]->0@ == compose(
                                        reps@[queue@[i as int] as int]->0@,
                                        gs[k as int],
                                    ));
                                } else {
                                    assert(queue@[t] == q0[t]);
                                    let (s0, j0) = choose|s0: int, j0: int|
                                        0 <= s0 < t && 0 <= j0 < gs.len() && gs[j0][q0[s0] as int] == q0[t]
                                            && (#[trigger] r0[q0[t] as int])->0@ == compose(
                                            r0[q0[s0] as int]->0@,
                                            gs[j0],
                                        );
                                    assert(queue@[s0] == q0[s0]);
                                    assert(holds(q0, q0[t] as int));
                                    assert(holds(q0, q0[s0] as int));
                                    assert(q0[t] != image && q0[s0] != image);
                                    assert(reps@[q0[t] as int] == r0[q0[t] as int]);
                                    assert(reps@[q0[s0] as int] == r0[q0[s0] as int]);
                                }
                            }
                        }
                    }
                }
                proof {
                    assert(holds(queue@, image as int));
                    assert(queue@[i as int] == x);
                    assert forall|t: int| 0 <= t < i + 1 implies holds(
                        queue@,
                        g@[#[trigger] queue@[t] as int] as int,
                    ) by {
                        if t < i {
                            assert(holds(q0, g@[q0[t] as int] as int));
                            let s = choose|s: int|
                                0 <= s < q0.len() && q0[s] as int == g@[q0[t] as int] as int;
                            assert(queue@[s] == q0[s]);
                        }
                    }
                }
                i = i + 1;
            }
            proof {
                if !grown {
                    assert forall|j: int, t: int|
                        0 <= j < k + 1 && 0 <= t < queue@.len() implies #[trigger] holds(
                        queue@,
                        gs[j][queue@[t] as int] as int,
                    ) by {
                        if j == k {
                            assert(holds(queue@, g@[queue@[t] as int] as int));
                        }
                    }
                }
            }
            k = k + 1;
        }
        proof {
            lemma_distinct_len(queue@);
        }
    }
    proof {
        let s = Set::new(|z: int| holds(queue@, z));
        assert(s.contains(point as int)) by {
            assert(reps@[point as int] is Some);
        }
        assert(closed_under(s, gs)) by {
            assert forall|y: int, j: int| s.contains(y) && 0 <= j < gs.len() implies s.contains(
                #[trigger] gs[j][y] as int,
            ) by {
                let t = choose|t: int| 0 <= t < queue@.len() && queue@[t] as int == y;
                assert(holds(queue@, gs[j][queue@[t] as int] as int));
            }
        }
        assert forall|x: int| 0 <= x < 32 implies (#[trigger] reps@[x] is Some <==> in_orbit(
            gs,
            point as int,
            x,
        )) by {
            if in_orbit(gs, point as int, x) {
                lemma_orbit_least(gs, point as int, s, x);
            }
        }
    }
    reps
}

/// The permutations that the texts denote, in order, leaving out every text
/// that does not parse.
pub open spec fn parsed_generators(ts: Seq<Seq<char>>) -> Seq<Seq<u8>>
    decreases ts.len(),
{
    if ts.len() == 0 {
        Seq::empty()
    } else {
        let rest = parsed_generators(ts.drop_last());
        match denoted_permutation(ts.last()) {
            Some(q) => rest.push(q),
            None => rest,
        }
    }
}

/// Parses each generator text in cycle notation and keeps, in order, those
/// that parse; malformed texts are dropped silently.
pub fn g(generators: &[&str]) -> (r: Vec<Permutation>)
    ensures
        generator_images(r@) == parsed_generators(generators@.map_values(|t: &str| t@)),
{
    let ghost ts = generators@.map_values(|t: &str| t@);
    let mut out: Vec<Permutation> = Vec::new();
    let mut i: usize = 0;
    while i < generators.len()
        invariant
            ts == generators@.map_values(|t: &str| t@),
            i <= generators@.len(),
            generator_images(out@) == parsed_generators(ts.take(i as int)),
        decreases generators@.len() - i,
    {
        let parsed = Permutation::parse(generators[i]);
        let ghost before = out@;
        proof {
            let u = ts.take(i + 1);
            assert(u.drop_last() =~= ts.take(i as int));
            assert(u.last() == generators@[i as int]@);
        }
        match parsed {
            Some(q) => {
                out.push(q);
                assert(generator_images(out@) =~= generator_images(before).push(q@));
            },
            None => {},
        }
        i = i + 1;
    }
    proof {
        assert(ts.take(ts.len() as int) =~= ts);
    }
    out
}

} // verus!
