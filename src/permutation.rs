use vstd::prelude::*;

verus! {

/// A sequence of 32 images that is a bijection of `0..32` onto itself.
pub open spec fn is_bijection(s: Seq<u8>) -> bool {
    &&& s.len() == 32
    &&& forall|i: int| 0 <= i < 32 ==> #[trigger] s[i] < 32
    &&& forall|i: int, j: int| 0 <= i < 32 && 0 <= j < 32 && i != j ==> s[i] != s[j]
}

/// The identity mapping of the domain.
pub open spec fn identity_images() -> Seq<u8> {
    Seq::new(32, |i: int| i as u8)
}

/// The images that `from_array` builds: the given value where it is in range,
/// the point itself where it is missing or out of range.
pub open spec fn images_from(arr: Seq<u8>) -> Seq<u8> {
    Seq::new(32, |i: int| if i < arr.len() && arr[i] < 32 { arr[i] } else { i as u8 })
}

/// The composition `a * b`: position `i` holds `b[a[i]]`.
pub open spec fn compose(a: Seq<u8>, b: Seq<u8>) -> Seq<u8> {
    Seq::new(32, |i: int| b[a[i] as int])
}

/// `x` is a point of one of the cycles.
pub open spec fn in_cycles(cs: Seq<Seq<u8>>, x: int) -> bool {
    exists|a: int, k: int| 0 <= a < cs.len() && 0 <= k < cs[a].len() && cs[a][k] == x
}

/// Every point of every cycle lies in the domain and occurs once over all cycles.
pub open spec fn disjoint_cycles(cs: Seq<Seq<u8>>) -> bool {
    &&& forall|a: int, k: int| 0 <= a < cs.len() && 0 <= k < cs[a].len() ==> #[trigger] cs[a][k] < 32
    &&& forall|a: int, k: int, b: int, l: int|
        0 <= a < cs.len() && 0 <= k < cs[a].len() && 0 <= b < cs.len() && 0 <= l < cs[b].len()
            && (a != b || k != l) ==> #[trigger] cs[a][k] != #[trigger] cs[b][l]
}

/// The point that follows position `k` of cycle `c`, wrapping round at the end.
pub open spec fn next_in(c: Seq<u8>, k: int) -> u8 {
    if k + 1 < c.len() {
        c[k + 1]
    } else {
        c[0]
    }
}

/// Every point of every cycle lies in the domain.
pub open spec fn points_in_domain(cs: Seq<Seq<u8>>) -> bool {
    forall|a: int, k: int| 0 <= a < cs.len() && 0 <= k < cs[a].len() ==> #[trigger] cs[a][k] < 32
}

/// The images after the first `j` writes of cycle `c` on top of `p`: write
/// `k` sends `c[k]` to the next point of the cycle.
pub open spec fn link_prefix(p: Seq<u8>, c: Seq<u8>, j: nat) -> Seq<u8>
    decreases j,
{
    if j == 0 {
        p
    } else {
        link_prefix(p, c, (j - 1) as nat).update(c[j - 1] as int, next_in(c, j - 1))
    }
}

/// The images that `from_cycles` builds: the identity, then each cycle's
/// writes in order, later writes overwriting earlier ones.
pub open spec fn overwrite_images(cs: Seq<Seq<u8>>) -> Seq<u8>
    decreases cs.len(),
{
    if cs.len() == 0 {
        identity_images()
    } else {
        link_prefix(overwrite_images(cs.drop_last()), cs.last(), cs.last().len())
    }
}

/// `p` sends each point of each cycle to the next point of that cycle, and
/// fixes every point that no cycle holds.
pub open spec fn links_cycles(p: Seq<u8>, cs: Seq<Seq<u8>>) -> bool {
    &&& p.len() == 32
    &&& forall|a: int, k: int|
        0 <= a < cs.len() && 0 <= k < cs[a].len() ==> p[#[trigger] cs[a][k] as int] == next_in(
            cs[a],
            k,
        )
    &&& forall|x: int| 0 <= x < 32 && !in_cycles(cs, x) ==> #[trigger] p[x] == x
}

/// `cs` is the disjoint-cycle decomposition of `p`, fixed points left out:
/// each cycle has at least two points and starts at its smallest one, and the
/// cycles come in ascending order of their first points.
pub open spec fn is_cycle_decomposition(p: Seq<u8>, cs: Seq<Seq<u8>>) -> bool {
    &&& disjoint_cycles(cs)
    &&& links_cycles(p, cs)
    &&& forall|a: int| 0 <= a < cs.len() ==> #[trigger] cs[a].len() >= 2
    &&& forall|a: int, k: int| 0 <= a < cs.len() && 0 <= k < cs[a].len() ==> cs[a][0] <= #[trigger] cs[a][k]
    &&& forall|a: int, b: int| 0 <= a < b < cs.len() ==> #[trigger] cs[a][0] < #[trigger] cs[b][0]
}

/// A permutation of the domain `0..32`; position `i` holds the image of `i`.
#[derive(Clone, Copy, Debug, PartialEq, Eq)]
pub struct Permutation {
    images: [u8; 32],
}

impl View for Permutation {
    type V = Seq<u8>;

    closed spec fn view(&self) -> Seq<u8> {
        self.images@
    }
}

impl Permutation {
    #[verifier::type_invariant]
    spec fn is_valid(self) -> bool {
        is_bijection(self.images@)
    }

    /// The identity permutation.
    pub fn identity() -> (r: Permutation)
        ensures
            r@ == identity_images(),
            is_bijection(r@),
    {
        let mut images: [u8; 32] = [0u8; 32];
        let mut i: u8 = 0;
        while i < 32
            invariant
                i <= 32,
                images@.len() == 32,
                forall|k: int| 0 <= k < i ==> images@[k] == k as u8,
            decreases 32 - i,
        {
            images[i as usize] = i;
            i = i + 1;
        }
        assert(images@ =~= identity_images());
        Permutation { images }
    }

    /// Builds a permutation from up to 32 images; a position that is missing
    /// or holds a value outside the domain maps to itself.
    pub fn from_array(arr: &[u8]) -> (r: Permutation)
        requires
            is_bijection(images_from(arr@)),
        ensures
            r@ == images_from(arr@),
            is_bijection(r@),
    {
        let images = fill_from(arr);
        Permutation { images }
    }

    /// Whether `from_array` may be called on `arr`: the images it would build
    /// form a bijection.
    pub fn is_valid_array(arr: &[u8]) -> (r: bool)
        ensures
            r == is_bijection(images_from(arr@)),
    {
        let images = fill_from(arr);
        images_are_bijection(&images)
    }

    /// Builds a permutation from cycles, starting from the identity: each point
    /// of a cycle is linked to the next one, the last back to the first, one
    /// write at a time, so that a later cycle overwrites an earlier one on a
    /// shared point. For disjoint cycles every point of a cycle maps to the
    /// next and all other points stay fixed.
    pub fn from_cycles(cycles: &Vec<Vec<u8>>) -> (r: Permutation)
        requires
            points_in_domain(cycles.deep_view()),
            is_bijection(overwrite_images(cycles.deep_view())),
        ensures
            r@ == overwrite_images(cycles.deep_view()),
            disjoint_cycles(cycles.deep_view()) ==> links_cycles(r@, cycles.deep_view()),
            is_bijection(r@),
    {
        let images = overwrite_array(cycles);
        proof {
            if disjoint_cycles(cycles.deep_view()) {
                lemma_overwrite_links(cycles.deep_view());
            }
        }
        Permutation { images }
    }

    /// Whether `from_cycles` may be called on `cycles`: the images it would
    /// build form a bijection.
    pub fn cycles_form_bijection(cycles: &Vec<Vec<u8>>) -> (r: bool)
        requires
            points_in_domain(cycles.deep_view()),
        ensures
            r == is_bijection(overwrite_images(cycles.deep_view())),
    {
        let images = overwrite_array(cycles);
        images_are_bijection(&images)
    }

    /// The disjoint cycles of this permutation, fixed points left out; each
    /// cycle starts at its smallest point and the cycles come in ascending
    /// order of those points.
    pub fn cycles(&self) -> (r: Vec<Vec<u8>>)
        ensures
            is_cycle_decomposition(self@, r.deep_view()),
    {
        proof {
            use_type_invariant(self);
        }
        let ghost p = self@;
        let mut done: [bool; 32] = [false; 32];
        let mut cycles: Vec<Vec<u8>> = Vec::new();
        let mut i: u8 = 0;
        while i < 32
            invariant
                p == self@,
                is_bijection(p),
                i <= 32,
                done@.len() == 32,
                decomposed_below(p, cycles.deep_view(), i as int),
                forall|x: int|
                    0 <= x < 32 ==> (#[trigger] done@[x] <==> (x < i || in_cycles(cycles.deep_view(), x))),
            decreases 32 - i,
        {
            let ghost cs = cycles.deep_view();
            if !done[i as usize] {
                if self.images[i as usize] == i {
                    done[i as usize] = true;
                } else {
                    let ghost done0 = done@;
                    let mut cycle: Vec<u8> = Vec::new();
                    let mut j: u8 = i;
                    while !done[j as usize]
                        invariant
                            p == self@,
                            is_bijection(p),
                            i < 32,
                            p[i as int] != i,
                            cs == cycles.deep_view(),
                            decomposed_below(p, cs, i as int),
                            done0.len() == 32,
                            !done0[i as int],
                            forall|x: int| 0 <= x < 32 ==> (#[trigger] done0[x] <==> (x < i || in_cycles(cs, x))),
                            done@.len() == 32,
                            j < 32,
                            cycle@.len() == 0 ==> j == i,
                            cycle@.len() >= 1 ==> cycle@[0] == i && j == p[cycle@.last() as int],
                            forall|t: int| 0 <= t < cycle@.len() - 1 ==> p[#[trigger] cycle@[t] as int] == cycle@[t + 1],
                            cycle@.no_duplicates(),
                            forall|t: int|
                                0 <= t < cycle@.len() ==> #[trigger] cycle@[t] < 32 && !done0[cycle@[t] as int],
                            forall|x: int|
                                0 <= x < 32 ==> (#[trigger] done@[x] <==> (done0[x] || cycle@.contains(x as u8))),
                        decreases 32 - cycle@.len(),
                    {
                        let ghost before = cycle@;
                        let ghost jj = j as int;
                        cycle.push(j);
                        done[j as usize] = true;
                        j = self.images[j as usize];
                        proof {
                            assert forall|x: int| 0 <= x < 32 implies (#[trigger] done@[x] <==> (done0[x]
                                || cycle@.contains(x as u8))) by {
                                if before.contains(x as u8) {
                                    let t = choose|t: int| 0 <= t < before.len() && before[t] == x as u8;
                                    assert(cycle@[t] == x as u8);
                                }
                                if x == jj {
                                    assert(cycle@[cycle@.len() - 1] == x as u8);
                                }
                                if cycle@.contains(x as u8) && x != jj {
                                    let t = choose|t: int| 0 <= t < cycle@.len() && cycle@[t] == x as u8;
                                    assert(before[t] == x as u8);
                                }
                            }
                            assert(cycle@.no_duplicates()) by {
                                assert(!before.contains(cycle@.last()));
                            }
                            lemma_distinct_len(cycle@);
                        }
                    }
                    proof {
                        lemma_walk_closes(p, cs, i as int, done0, cycle@, j as int);
                    }
                    let ghost c = cycle@;
                    let ghost vs = cycles@;
                    cycles.push(cycle);
                    proof {
                        lemma_extend_decomposition(p, cs, i as int, done0, c);
                        assert(cycles@ =~= vs.push(cycle));
                        assert(cycles.deep_view() =~= cs.push(c)) by {
                            assert forall|k: int| 0 <= k < cs.len() + 1 implies cycles.deep_view()[k]
                                == cs.push(c)[k] by {
                                if k < cs.len() {
                                    assert(cycles@[k] == vs[k]);
                                }
                            }
                        }
                        assert forall|x: int| 0 <= x < 32 implies (#[trigger] done@[x] <==> (x < i + 1
                            || in_cycles(cycles.deep_view(), x))) by {
                            if c.contains(x as u8) {
                                let t = choose|t: int| 0 <= t < c.len() && c[t] == x as u8;
                                assert(cs.push(c)[cs.len() as int][t] == x);
                            }
                            if in_cycles(cs.push(c), x) {
                                let (a, k) = choose|a: int, k: int|
                                    0 <= a < cs.push(c).len() && 0 <= k < cs.push(c)[a].len() && cs.push(c)[a][k] == x;
                                if a < cs.len() {
                                    assert(cs[a][k] == x);
                                } else {
                                    assert(c[k] == x);
                                }
                            }
                            if x == i {
                                assert(c[0] == i);
                            }
                        }
                    }
                }
            }
            proof {
                let cs1 = cycles.deep_view();
                assert forall|x: int| 0 <= x < i + 1 && !in_cycles(cs1, x) implies #[trigger] p[x] == x by {
                    if x < i {
                        assert(!in_cycles(cs, x) || in_cycles(cs1, x)) by {
                            if in_cycles(cs, x) && cs1.len() > cs.len() {
                                let (a, k) = choose|a: int, k: int|
                                    0 <= a < cs.len() && 0 <= k < cs[a].len() && cs[a][k] == x;
                                assert(cs1[a][k] == x);
                            }
                        }
                    }
                }
            }
            i = i + 1;
        }
        cycles
    }

    /// The image of point `i`.
    pub fn index(&self, i: u8) -> (r: u8)
        requires
            i < 32,
        ensures
            r == self@[i as int],
            r < 32,
    {
        proof {
            use_type_invariant(self);
        }
        self.images[i as usize]
    }

    /// The composition `self * rhs`: point `i` goes to `rhs[self[i]]`.
    pub fn mul(&self, rhs: &Permutation) -> (r: Permutation)
        ensures
            r@ == compose(self@, rhs@),
            is_bijection(r@),
    {
        proof {
            use_type_invariant(self);
            use_type_invariant(rhs);
        }
        let mut images: [u8; 32] = [0u8; 32];
        let mut i: usize = 0;
        while i < 32
            invariant
                i <= 32,
                images@.len() == 32,
                is_bijection(self@),
                is_bijection(rhs@),
                forall|k: int| 0 <= k < i ==> images@[k] == compose(self@, rhs@)[k],
            decreases 32 - i,
        {
            let a = self.images[i];
            images[i] = rhs.images[a as usize];
            i = i + 1;
        }
        assert(images@ =~= compose(self@, rhs@));
        Permutation { images }
    }

    /// The 32 images, position `i` holding the image of `i`.
    pub fn to_array(&self) -> (r: [u8; 32])
        ensures
            r@ == self@,
            is_bijection(r@),
    {
        proof {
            use_type_invariant(self);
        }
        self.images
    }
}

/// The images that `from_array` builds.
fn fill_from(arr: &[u8]) -> (r: [u8; 32])
    ensures
        r@ == images_from(arr@),
{
    let mut images: [u8; 32] = [0u8; 32];
    let mut i: usize = 0;
    while i < 32
        invariant
            i <= 32,
            images@.len() == 32,
            forall|k: int| 0 <= k < i ==> images@[k] == images_from(arr@)[k],
        decreases 32 - i,
    {
        if i < arr.len() && arr[i] < 32 {
            images[i] = arr[i];
        } else {
            images[i] = i as u8;
        }
        i = i + 1;
    }
    assert(images@ =~= images_from(arr@));
    images
}

/// Whether 32 images form a bijection of the domain.
fn images_are_bijection(images: &[u8; 32]) -> (r: bool)
    ensures
        r == is_bijection(images@),
{
    let mut seen: [bool; 32] = [false; 32];
    let mut i: usize = 0;
    while i < 32
        invariant
            images@.len() == 32,
            i <= 32,
            seen@.len() == 32,
            forall|k: int| 0 <= k < i ==> #[trigger] images@[k] < 32,
            forall|k: int, l: int| 0 <= k < i && 0 <= l < i && k != l ==> images@[k] != images@[l],
            forall|x: int| 0 <= x < 32 ==> (#[trigger] seen@[x] <==> exists|k: int| 0 <= k < i && images@[k] == x),
        decreases 32 - i,
    {
        let v = images[i];
        if v >= 32 {
            return false;
        }
        if seen[v as usize] {
            proof {
                let k = choose|k: int| 0 <= k < i && images@[k] == v;
                assert(images@[k] == images@[i as int]);
            }
            return false;
        }
        seen[v as usize] = true;
        proof {
            assert forall|x: int| 0 <= x < 32 implies (#[trigger] seen@[x] <==> exists|k: int|
                0 <= k < i + 1 && images@[k] == x) by {
                if x == v {
                    assert(images@[i as int] == x);
                }
            }
        }
        i = i + 1;
    }
    true
}

/// The images that `from_cycles` builds.
fn overwrite_array(cycles: &Vec<Vec<u8>>) -> (r: [u8; 32])
    requires
        points_in_domain(cycles.deep_view()),
    ensures
        r@ == overwrite_images(cycles.deep_view()),
{
    let ghost cs = cycles.deep_view();
    let mut images: [u8; 32] = [0u8; 32];
    let mut i: u8 = 0;
    while i < 32
        invariant
            i <= 32,
            images@.len() == 32,
            forall|k: int| 0 <= k < i ==> images@[k] == k as u8,
        decreases 32 - i,
    {
        images[i as usize] = i;
        i = i + 1;
    }
    proof {
        assert(cs.take(0) =~= Seq::<Seq<u8>>::empty());
        assert(images@ =~= identity_images());
    }
    let mut a: usize = 0;
    while a < cycles.len()
        invariant
            cs == cycles.deep_view(),
            points_in_domain(cs),
            a <= cs.len(),
            images@ == overwrite_images(cs.take(a as int)),
            images@.len() == 32,
        decreases cs.len() - a,
    {
        let c = &cycles[a];
        assert(c@ == cs[a as int]);
        let ghost base = images@;
        if c.len() > 0 {
            let fst = c[0];
            let mut k: usize = 0;
            while k < c.len() - 1
                invariant
                    c@ == cs[a as int],
                    points_in_domain(cs),
                    a < cs.len(),
                    0 < c@.len(),
                    k < c@.len(),
                    images@ == link_prefix(base, c@, k as nat),
                    images@.len() == 32,
                decreases c@.len() - k,
            {
                assert(c@[k as int] < 32);
                images[c[k] as usize] = c[k + 1];
                k = k + 1;
            }
            assert(c@[k as int] < 32);
            images[c[k] as usize] = fst;
        }
        proof {
            let e = cs.take(a + 1);
            assert(e.drop_last() =~= cs.take(a as int));
            assert(e.last() == c@);
        }
        a = a + 1;
    }
    proof {
        assert(cs.take(cs.len() as int) =~= cs);
    }
    images
}

/// Writing the links of a cycle of distinct points sets each written point to
/// its successor and leaves every other point alone.
proof fn lemma_link_prefix(p: Seq<u8>, c: Seq<u8>, j: nat)
    requires
        p.len() == 32,
        j <= c.len(),
        c.no_duplicates(),
        forall|k: int| 0 <= k < c.len() ==> #[trigger] c[k] < 32,
    ensures
        link_prefix(p, c, j).len() == 32,
        forall|k: int| 0 <= k < j ==> link_prefix(p, c, j)[#[trigger] c[k] as int] == next_in(c, k),
        forall|x: int| 0 <= x < 32 && (forall|k: int| 0 <= k < j ==> c[k] != x) ==> #[trigger] link_prefix(p, c, j)[x] == p[x],
    decreases j,
{
    if j > 0 {
        lemma_link_prefix(p, c, (j - 1) as nat);
        assert(c[j - 1] < 32);
        assert forall|k: int| 0 <= k < j implies link_prefix(p, c, j)[#[trigger] c[k] as int] == next_in(c, k) by {
            if k < j - 1 {
                assert(c[k] != c[j - 1]);
            }
        }
    }
}

/// For disjoint cycles, the overwriting construction links each cycle and
/// fixes all other points.
pub proof fn lemma_overwrite_links(cs: Seq<Seq<u8>>)
    requires
        disjoint_cycles(cs),
    ensures
        links_cycles(overwrite_images(cs), cs),
    decreases cs.len(),
{
    if cs.len() == 0 {
        assert forall|x: int| 0 <= x < 32 && !in_cycles(cs, x) implies #[trigger] overwrite_images(cs)[x] == x by {}
    } else {
        let n = cs.len() - 1;
        let cs0 = cs.drop_last();
        let c = cs.last();
        assert(disjoint_cycles(cs0)) by {
            assert forall|a: int, k: int, b: int, l: int|
                0 <= a < cs0.len() && 0 <= k < cs0[a].len() && 0 <= b < cs0.len() && 0 <= l < cs0[b].len()
                    && (a != b || k != l) implies #[trigger] cs0[a][k] != #[trigger] cs0[b][l] by {
                assert(cs[a][k] != cs[b][l]);
            }
        }
        lemma_overwrite_links(cs0);
        let p0 = overwrite_images(cs0);
        assert(c.no_duplicates()) by {
            assert forall|i: int, j: int| 0 <= i < c.len() && 0 <= j < c.len() && i != j implies c[i] != c[j] by {
                assert(cs[n][i] != cs[n][j]);
            }
        }
        assert forall|k: int| 0 <= k < c.len() implies #[trigger] c[k] < 32 by {
            assert(cs[n][k] < 32);
        }
        lemma_link_prefix(p0, c, c.len());
        let p = overwrite_images(cs);
        assert forall|a: int, k: int| 0 <= a < cs.len() && 0 <= k < cs[a].len() implies p[
            #[trigger] cs[a][k] as int] == next_in(cs[a], k) by {
            if a < n {
                assert(cs0[a][k] == cs[a][k]);
                assert(cs[a][k] < 32);
                assert forall|l: int| 0 <= l < c.len() implies c[l] != cs[a][k] by {
                    assert(cs[n][l] != cs[a][k]);
                }
                assert(p0[cs0[a][k] as int] == next_in(cs0[a], k));
            }
        }
        assert forall|x: int| 0 <= x < 32 && !in_cycles(cs, x) implies #[trigger] p[x] == x by {
            assert forall|l: int| 0 <= l < c.len() implies c[l] != x by {
                if c[l] == x {
                    assert(cs[n][l] == x);
                }
            }
            if in_cycles(cs0, x) {
                let (a, k) = choose|a: int, k: int| 0 <= a < cs0.len() && 0 <= k < cs0[a].len() && cs0[a][k] == x;
                assert(cs[a][k] == x);
            }
        }
    }
}

/// A bijection of the domain covers it: every point is the image of some point.
/// With the constructors' `is_bijection` guarantees, every permutation has no
/// repeated image and full coverage.
pub proof fn lemma_bijection_covers(s: Seq<u8>, v: int)
    requires
        is_bijection(s),
        0 <= v < 32,
    ensures
        exists|i: int| 0 <= i < 32 && s[i] == v,
{
    let t = Seq::new(32, |i: int| s[i] as int);
    assert(t.no_duplicates()) by {
        assert forall|i: int, j: int| 0 <= i < t.len() && 0 <= j < t.len() && i != j implies t[i]
            != t[j] by {
            assert(s[i] != s[j]);
        }
    }
    t.unique_seq_to_set();
    vstd::set_lib::lemma_int_range(0, 32);
    let range = vstd::set_lib::set_int_range(0, 32);
    if !(exists|i: int| 0 <= i < 32 && s[i] == v) {
        assert(range.contains(v));
        assert(t.to_set().subset_of(range.remove(v))) by {
            assert forall|x: int| t.to_set().contains(x) implies range.remove(v).contains(x) by {
                let k = choose|k: int| 0 <= k < t.len() && t[k] == x;
                assert(s[k] == x);
            }
        }
        vstd::set_lib::lemma_len_subset(t.to_set(), range.remove(v));
        assert(range.remove(v).len() == 31);
        assert(false);
    }
}

/// A mapping that links disjoint cycles and fixes every other point is a bijection.
pub proof fn lemma_links_bijection(p: Seq<u8>, cs: Seq<Seq<u8>>)
    requires
        disjoint_cycles(cs),
        links_cycles(p, cs),
    ensures
        is_bijection(p),
{
    assert forall|x: int| 0 <= x < 32 implies #[trigger] p[x] < 32 by {
        if in_cycles(cs, x) {
            let (a, k) = choose|a: int, k: int| 0 <= a < cs.len() && 0 <= k < cs[a].len() && cs[a][k] == x;
            assert(p[cs[a][k] as int] == next_in(cs[a], k));
            if k + 1 < cs[a].len() {
                assert(cs[a][k + 1] < 32);
            } else {
                assert(cs[a][0] < 32);
            }
        }
    }
    assert forall|x: int, y: int| 0 <= x < 32 && 0 <= y < 32 && x != y implies p[x] != p[y] by {
        lemma_image_in_cycles(p, cs, x);
        lemma_image_in_cycles(p, cs, y);
    }
}

/// Where `p` links disjoint cycles, the image of a point in a cycle is the next
/// position of that cycle, and a point outside all cycles is its own image.
proof fn lemma_image_in_cycles(p: Seq<u8>, cs: Seq<Seq<u8>>, x: int)
    requires
        disjoint_cycles(cs),
        links_cycles(p, cs),
        0 <= x < 32,
    ensures
        in_cycles(cs, x) ==> exists|a: int, k: int|
            0 <= a < cs.len() && 0 <= k < cs[a].len() && cs[a][k] == x && #[trigger] in_cycles(cs, p[x] as int)
                && p[x] == next_in(cs[a], k) && (k + 1 < cs[a].len() ==> p[x] == cs[a][k + 1]) && (k + 1
                >= cs[a].len() ==> p[x] == cs[a][0]),
        !in_cycles(cs, x) ==> p[x] == x,
{
    if in_cycles(cs, x) {
        let (a, k) = choose|a: int, k: int| 0 <= a < cs.len() && 0 <= k < cs[a].len() && cs[a][k] == x;
        assert(p[cs[a][k] as int] == next_in(cs[a], k));
        if k + 1 < cs[a].len() {
            assert(cs[a][k + 1] == p[x]);
        } else {
            assert(cs[a][0] == p[x]);
        }
    }
}

/// The cycles found among the points below `n`: a decomposition of `p`
/// restricted to them, with every point below `n` outside them fixed.
spec fn decomposed_below(p: Seq<u8>, cs: Seq<Seq<u8>>, n: int) -> bool {
    &&& disjoint_cycles(cs)
    &&& forall|a: int, k: int|
        0 <= a < cs.len() && 0 <= k < cs[a].len() ==> p[#[trigger] cs[a][k] as int] == next_in(
            cs[a],
            k,
        )
    &&& forall|a: int| 0 <= a < cs.len() ==> #[trigger] cs[a].len() >= 2
    &&& forall|a: int, k: int| 0 <= a < cs.len() && 0 <= k < cs[a].len() ==> cs[a][0] <= #[trigger] cs[a][k]
    &&& forall|a: int, b: int| 0 <= a < b < cs.len() ==> #[trigger] cs[a][0] < #[trigger] cs[b][0]
    &&& forall|a: int| 0 <= a < cs.len() ==> #[trigger] cs[a][0] < n
    &&& forall|x: int| 0 <= x < n && !in_cycles(cs, x) ==> #[trigger] p[x] == x
}

/// A sequence of distinct points of the domain has at most 32 entries.
pub(crate) proof fn lemma_distinct_len(s: Seq<u8>)
    requires
        s.no_duplicates(),
        forall|t: int| 0 <= t < s.len() ==> #[trigger] s[t] < 32,
    ensures
        s.len() <= 32,
{
    let t = Seq::new(s.len(), |i: int| s[i] as int);
    assert(t.no_duplicates()) by {
        assert forall|i: int, j: int| 0 <= i < t.len() && 0 <= j < t.len() && i != j implies t[i]
            != t[j] by {
            assert(s[i] != s[j]);
        }
    }
    t.unique_seq_to_set();
    vstd::set_lib::lemma_int_range(0, 32);
    let range = vstd::set_lib::set_int_range(0, 32);
    assert(t.to_set().subset_of(range)) by {
        assert forall|x: int| t.to_set().contains(x) implies range.contains(x) by {
            let k = choose|k: int| 0 <= k < t.len() && t[k] == x;
            assert(s[k] < 32);
        }
    }
    vstd::set_lib::lemma_len_subset(t.to_set(), range);
}

/// Following `p` from an unvisited, moved point `i`, the first visited point
/// met again is `i` itself.
#[verifier::rlimit(40)]
proof fn lemma_walk_closes(
    p: Seq<u8>,
    cs: Seq<Seq<u8>>,
    i: int,
    done0: Seq<bool>,
    c: Seq<u8>,
    j: int,
)
    requires
        is_bijection(p),
        0 <= i < 32,
        p[i] != i,
        decomposed_below(p, cs, i),
        done0.len() == 32,
        !done0[i],
        forall|x: int| 0 <= x < 32 ==> (#[trigger] done0[x] <==> (x < i || in_cycles(cs, x))),
        0 <= j < 32,
        c.len() == 0 ==> j == i,
        c.len() >= 1 ==> c[0] == i && j == p[c.last() as int],
        forall|t: int| 0 <= t < c.len() - 1 ==> p[#[trigger] c[t] as int] == c[t + 1],
        c.no_duplicates(),
        forall|t: int| 0 <= t < c.len() ==> #[trigger] c[t] < 32 && !done0[c[t] as int],
        done0[j] || c.contains(j as u8),
    ensures
        j == i,
        c.len() >= 2,
{
    if c.len() == 0 {
        assert(!c.contains(j as u8));
    } else {
        let y = c.last() as int;
        assert(c[c.len() - 1] < 32 && !done0[y]);
        if done0[j] {
            if in_cycles(cs, j) {
                let (a, m) = choose|a: int, m: int| 0 <= a < cs.len() && 0 <= m < cs[a].len() && cs[a][m] == j;
                let pm = if m > 0 { m - 1 } else { cs[a].len() - 1 };
                assert(p[cs[a][pm] as int] == next_in(cs[a], pm));
                assert(cs[a][pm] < 32);
                assert(p[cs[a][pm] as int] == j);
                assert(cs[a][pm] as int == y);
                assert(in_cycles(cs, y));
            } else {
                assert(p[j] == j);
                assert(j == y);
            }
        } else {
            let m = choose|m: int| 0 <= m < c.len() && c[m] == j as u8;
            if m > 0 {
                assert(p[c[m - 1] as int] == c[m]);
                assert(c[m - 1] < 32);
                assert(c[m - 1] as int == y);
            }
        }
        if c.len() == 1 {
            assert(c.last() == i);
        }
    }
}

/// A closed walk from the smallest unvisited moved point extends the
/// decomposition found so far by one cycle.
proof fn lemma_extend_decomposition(p: Seq<u8>, cs: Seq<Seq<u8>>, i: int, done0: Seq<bool>, c: Seq<u8>)
    requires
        is_bijection(p),
        0 <= i < 32,
        decomposed_below(p, cs, i),
        done0.len() == 32,
        forall|x: int| 0 <= x < 32 ==> (#[trigger] done0[x] <==> (x < i || in_cycles(cs, x))),
        c.len() >= 2,
        c[0] == i,
        p[c.last() as int] == i,
        forall|t: int| 0 <= t < c.len() - 1 ==> p[#[trigger] c[t] as int] == c[t + 1],
        c.no_duplicates(),
        forall|t: int| 0 <= t < c.len() ==> #[trigger] c[t] < 32 && !done0[c[t] as int],
    ensures
        decomposed_below(p, cs.push(c), i + 1),
{
    let ds = cs.push(c);
    let n = cs.len() as int;
    assert(ds[n] == c);
    assert forall|a: int, k: int| 0 <= a < ds.len() && 0 <= k < ds[a].len() implies #[trigger] ds[a][k] < 32 by {
        if a == n {
            assert(c[k] < 32);
        }
    }
    assert forall|a: int, k: int, b: int, l: int|
        0 <= a < ds.len() && 0 <= k < ds[a].len() && 0 <= b < ds.len() && 0 <= l < ds[b].len() && (
        a != b || k != l) implies #[trigger] ds[a][k] != #[trigger] ds[b][l] by {
        if a == n && b < n {
            assert(c[k] < 32 && !done0[c[k] as int]);
            assert(cs[b][l] < 32);
            assert(in_cycles(cs, cs[b][l] as int));
        } else if a < n && b == n {
            assert(c[l] < 32 && !done0[c[l] as int]);
            assert(cs[a][k] < 32);
            assert(in_cycles(cs, cs[a][k] as int));
        } else if a < n && b < n {
            assert(cs[a][k] != cs[b][l]);
        }
    }
    assert forall|a: int, k: int| 0 <= a < ds.len() && 0 <= k < ds[a].len() implies p[#[trigger] ds[a][k] as int] == next_in(ds[a], k) by {
        if a == n {
            if k + 1 < c.len() {
                assert(p[c[k] as int] == c[k + 1]);
            }
        } else {
            assert(ds[a] == cs[a]);
        }
    }
    assert forall|a: int, k: int| 0 <= a < ds.len() && 0 <= k < ds[a].len() implies ds[a][0] <= #[trigger] ds[a][k] by {
        if a == n {
            assert(c[k] < 32 && !done0[c[k] as int]);
        } else {
            assert(ds[a] == cs[a]);
        }
    }
    assert forall|a: int, b: int| 0 <= a < b < ds.len() implies #[trigger] ds[a][0] < #[trigger] ds[b][0] by {
        if b == n {
            assert(cs[a][0] < i);
        } else {
            assert(cs[a][0] < cs[b][0]);
        }
    }
    assert forall|a: int| 0 <= a < ds.len() implies #[trigger] ds[a][0] < i + 1 by {
        if a < n {
            assert(cs[a][0] < i);
        }
    }
    assert forall|a: int| 0 <= a < ds.len() implies #[trigger] ds[a].len() >= 2 by {
        if a < n {
            assert(cs[a].len() >= 2);
        }
    }
    assert forall|x: int| 0 <= x < i + 1 && !in_cycles(ds, x) implies #[trigger] p[x] == x by {
        if x == i {
            assert(ds[n][0] == x);
        } else if in_cycles(cs, x) {
            let (a, k) = choose|a: int, k: int| 0 <= a < cs.len() && 0 <= k < cs[a].len() && cs[a][k] == x;
            assert(ds[a][k] == x);
        }
    }
}

/// The point reached from `x` after `n` applications of `p`.
pub open spec fn iterate(p: Seq<u8>, x: int, n: nat) -> int
    decreases n,
{
    if n == 0 {
        x
    } else {
        p[iterate(p, x, (n - 1) as nat)] as int
    }
}

/// Along a cycle of the decomposition, `m` applications of `p` advance `m`
/// positions, wrapping round.
proof fn lemma_iterate_along_cycle(p: Seq<u8>, cs: Seq<Seq<u8>>, a: int, k: int, m: nat)
    requires
        is_cycle_decomposition(p, cs),
        0 <= a < cs.len(),
        0 <= k < cs[a].len(),
    ensures
        iterate(p, cs[a][k] as int, m) == cs[a][(k + m) % (cs[a].len() as int)],
    decreases m,
{
    let len = cs[a].len() as int;
    if m == 0 {
        assert(k % len == k) by (nonlinear_arith)
            requires
                0 <= k < len,
        ;
    } else {
        lemma_iterate_along_cycle(p, cs, a, k, (m - 1) as nat);
        let r = (k + m - 1) % len;
        assert(0 <= r < len) by (nonlinear_arith)
            requires
                len > 0,
                r == (k + m - 1) % len,
                k + m - 1 >= 0,
        ;
        assert(p[cs[a][r] as int] == next_in(cs[a], r));
        assert((k + m) % len == if r + 1 < len { r + 1 } else { 0 }) by {
            vstd::arithmetic::div_mod::lemma_fundamental_div_mod(k + m - 1, len);
            let q0 = (k + m - 1) / len;
            assert(len * q0 == q0 * len) by (nonlinear_arith);
            assert(k + m - 1 == q0 * len + r);
            if r + 1 < len {
                vstd::arithmetic::div_mod::lemma_fundamental_div_mod_converse(k + m, len, q0, r + 1);
            } else {
                assert((q0 + 1) * len == q0 * len + len) by (nonlinear_arith);
                assert(k + m == (q0 + 1) * len + 0);
                vstd::arithmetic::div_mod::lemma_fundamental_div_mod_converse(k + m, len, q0 + 1, 0);
            }
        }
    }
}

/// Starting from any point of a cycle of the decomposition, applying `p`
/// returns to that point after exactly as many steps as the cycle has points,
/// and not before.
pub proof fn lemma_cycle_period(p: Seq<u8>, cs: Seq<Seq<u8>>, a: int, k: int)
    requires
        is_cycle_decomposition(p, cs),
        0 <= a < cs.len(),
        0 <= k < cs[a].len(),
    ensures
        iterate(p, cs[a][k] as int, cs[a].len()) == cs[a][k],
        forall|m: nat| 0 < m < cs[a].len() ==> iterate(p, cs[a][k] as int, m) != cs[a][k],
{
    let len = cs[a].len() as int;
    lemma_iterate_along_cycle(p, cs, a, k, len as nat);
    assert((k + len) % len == k) by {
        vstd::arithmetic::div_mod::lemma_fundamental_div_mod_converse(k + len, len, 1, k);
    }
    assert forall|m: nat| 0 < m < len implies iterate(p, cs[a][k] as int, m) != cs[a][k] by {
        lemma_iterate_along_cycle(p, cs, a, k, m);
        let r = if k + m < len { k + m } else { k + m - len };
        assert((k + m) % len == r) by {
            vstd::arithmetic::div_mod::lemma_fundamental_div_mod_converse(
                k + m,
                len,
                if k + m < len { 0 } else { 1 },
                r,
            );
        }
        assert(cs[a][r] != cs[a][k]);
    }
}

/// A point that no cycle of the decomposition holds is fixed by `p`.
pub proof fn lemma_fixed_outside_cycles(p: Seq<u8>, cs: Seq<Seq<u8>>, x: int)
    requires
        is_cycle_decomposition(p, cs),
        0 <= x < 32,
        !in_cycles(cs, x),
    ensures
        iterate(p, x, 1) == x,
{
    assert(iterate(p, x, 0) == x);
}

/// A cycle of the decomposition is the walk of `p` from its first point.
proof fn lemma_cycle_from_start(p: Seq<u8>, cs: Seq<Seq<u8>>, a: int, m: int)
    requires
        is_cycle_decomposition(p, cs),
        0 <= a < cs.len(),
        0 <= m < cs[a].len(),
    ensures
        cs[a][m] as int == iterate(p, cs[a][0] as int, m as nat),
{
    lemma_iterate_along_cycle(p, cs, a, 0, m as nat);
    vstd::arithmetic::div_mod::lemma_small_mod(m as nat, cs[a].len());
}

/// Two cycles of decompositions of `p` that start at the same point are equal.
proof fn lemma_same_start(p: Seq<u8>, cs1: Seq<Seq<u8>>, a: int, cs2: Seq<Seq<u8>>, b: int)
    requires
        is_cycle_decomposition(p, cs1),
        is_cycle_decomposition(p, cs2),
        0 <= a < cs1.len(),
        0 <= b < cs2.len(),
        cs1[a][0] == cs2[b][0],
    ensures
        cs1[a] == cs2[b],
{
    let x = cs1[a][0] as int;
    let l1 = cs1[a].len();
    let l2 = cs2[b].len();
    lemma_cycle_period(p, cs1, a, 0);
    lemma_cycle_period(p, cs2, b, 0);
    if l1 < l2 {
        assert(iterate(p, x, l1) == x);
        assert(0 < l1 < l2);
    }
    if l2 < l1 {
        assert(iterate(p, x, l2) == x);
        assert(0 < l2 < l1);
    }
    assert forall|m: int| 0 <= m < l1 implies cs1[a][m] == cs2[b][m] by {
        lemma_cycle_from_start(p, cs1, a, m);
        lemma_cycle_from_start(p, cs2, b, m);
    }
    assert(cs1[a] =~= cs2[b]);
}

/// The first point of a cycle of one decomposition of `p` is the first point
/// of a cycle of any other.
proof fn lemma_start_is_start(p: Seq<u8>, cs1: Seq<Seq<u8>>, a: int, cs2: Seq<Seq<u8>>) -> (b: int)
    requires
        is_cycle_decomposition(p, cs1),
        is_cycle_decomposition(p, cs2),
        0 <= a < cs1.len(),
    ensures
        0 <= b < cs2.len(),
        cs2[b][0] == cs1[a][0],
{
    let x = cs1[a][0] as int;
    assert(cs1[a][0] < 32);
    assert(p[cs1[a][0] as int] == next_in(cs1[a], 0));
    assert(cs1[a][1] != cs1[a][0]);
    assert(in_cycles(cs2, x));
    let (b, l) = choose|b: int, l: int| 0 <= b < cs2.len() && 0 <= l < cs2[b].len() && cs2[b][l] == x;
    let l2 = cs2[b].len() as int;
    lemma_iterate_along_cycle(p, cs2, b, l, (l2 - l) as nat);
    vstd::arithmetic::div_mod::lemma_fundamental_div_mod_converse(l + (l2 - l), l2, 1, 0);
    let y = cs2[b][0] as int;
    assert(iterate(p, x, (l2 - l) as nat) == y);
    lemma_iterate_along_cycle(p, cs1, a, 0, (l2 - l) as nat);
    let j = (0 + (l2 - l)) % (cs1[a].len() as int);
    assert(0 <= j < cs1[a].len()) by {
        vstd::arithmetic::div_mod::lemma_mod_bound(l2 - l, cs1[a].len() as int);
    }
    assert(cs1[a][0] <= cs1[a][j]);
    assert(cs2[b][0] <= cs2[b][l]);
    b
}

/// The decomposition of a permutation into cycles is unique: what `cycles`
/// returns, and so the text that `to_string` writes, is determined by `p`.
pub proof fn lemma_decomposition_unique(p: Seq<u8>, cs1: Seq<Seq<u8>>, cs2: Seq<Seq<u8>>)
    requires
        is_cycle_decomposition(p, cs1),
        is_cycle_decomposition(p, cs2),
    ensures
        cs1 == cs2,
{
    lemma_starts_agree(p, cs1, cs2, cs1.len() as int);
    lemma_starts_agree(p, cs2, cs1, cs2.len() as int);
    if cs1.len() < cs2.len() {
        let n = cs1.len() as int;
        let a = lemma_start_is_start(p, cs2, n, cs1);
        assert(cs2[a][0] == cs1[a][0]);
        assert(cs2[a][0] < cs2[n][0]);
    }
    if cs2.len() < cs1.len() {
        let n = cs2.len() as int;
        let a = lemma_start_is_start(p, cs1, n, cs2);
        assert(cs1[a][0] == cs2[a][0]);
        assert(cs1[a][0] < cs1[n][0]);
    }
    assert forall|a: int| 0 <= a < cs1.len() implies cs1[a] == cs2[a] by {
        lemma_same_start(p, cs1, a, cs2, a);
    }
    assert(cs1 =~= cs2);
}

/// Both decompositions list the same first points below position `n`.
proof fn lemma_starts_agree(p: Seq<u8>, cs1: Seq<Seq<u8>>, cs2: Seq<Seq<u8>>, n: int)
    requires
        is_cycle_decomposition(p, cs1),
        is_cycle_decomposition(p, cs2),
        0 <= n <= cs1.len(),
    ensures
        forall|a: int| 0 <= a < n ==> a < cs2.len() && #[trigger] cs1[a][0] == cs2[a][0],
    decreases n,
{
    if n > 0 {
        lemma_starts_agree(p, cs1, cs2, n - 1);
        let i = n - 1;
        let b = lemma_start_is_start(p, cs1, i, cs2);
        if b < i {
            assert(cs1[b][0] == cs2[b][0]);
            assert(cs1[b][0] < cs1[i][0]);
        } else if b > i {
            let c = lemma_start_is_start(p, cs2, i, cs1);
            if c < i {
                assert(cs1[c][0] == cs2[c][0]);
                assert(cs2[c][0] < cs2[i][0]);
            } else if c == i {
                assert(cs2[i][0] < cs2[b][0]);
            } else {
                assert(cs1[i][0] < cs1[c][0]);
                assert(cs2[i][0] < cs2[b][0]);
            }
        }
    }
}

/// Identity laws: `p * identity == p` and `identity * p == p`.
pub proof fn lemma_identity_laws(p: Seq<u8>)
    requires
        is_bijection(p),
    ensures
        compose(p, identity_images()) == p,
        compose(identity_images(), p) == p,
{
    assert(compose(p, identity_images()) =~= p);
    assert(compose(identity_images(), p) =~= p);
}

} // verus!
