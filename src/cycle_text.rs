use vstd::prelude::*;

use crate::permutation::{
    disjoint_cycles, identity_images, in_cycles, is_bijection, is_cycle_decomposition,
    lemma_decomposition_unique, lemma_links_bijection, links_cycles, next_in, overwrite_images,
    points_in_domain,
    Permutation,
};

verus! {

/// The value of a base-32 digit: `0`-`9` stand for 0 to 9, `a`-`v` (or
/// `A`-`V`) for 10 to 31.
pub open spec fn digit_value(c: char) -> Option<u8> {
    let u = c as u32;
    if 48 <= u <= 57 {
        Some((u - 48) as u8)
    } else if 97 <= u <= 118 {
        Some((u - 87) as u8)
    } else if 65 <= u <= 86 {
        Some((u - 55) as u8)
    } else {
        None
    }
}

/// The lower-case base-32 digit for a point of the domain.
pub open spec fn digit_char(v: u8) -> char {
    if v < 10 {
        ((v + 48) as u8) as char
    } else {
        ((v + 87) as u8) as char
    }
}

/// The cycles written between the outer parentheses, cycles separated by
/// `)(` and each cycle a run of digits; `None` if the text is not of that shape.
pub open spec fn read_pieces(t: Seq<char>) -> Option<Seq<Seq<u8>>>
    decreases t.len(),
{
    if t.len() == 0 {
        Some(seq![Seq::<u8>::empty()])
    } else if digit_value(t.last()) is Some {
        match read_pieces(t.drop_last()) {
            Some(ps) => Some(ps.update(ps.len() - 1, ps.last().push(digit_value(t.last())->0))),
            None => None,
        }
    } else if t.len() >= 2 && t.last() == '(' && t[t.len() - 2] == ')' {
        match read_pieces(t.subrange(0, t.len() - 2)) {
            Some(ps) => Some(ps.push(Seq::<u8>::empty())),
            None => None,
        }
    } else {
        None
    }
}

/// The cycles of a text of the shape `(c1c2...)(d1d2...)...`.
pub open spec fn read_cycles(s: Seq<char>) -> Option<Seq<Seq<u8>>> {
    if s.len() >= 2 && s[0] == '(' && s[s.len() - 1] == ')' {
        read_pieces(s.subrange(1, s.len() - 1))
    } else {
        None
    }
}

/// The mapping that links disjoint cycles and fixes every other point.
pub open spec fn cycle_images(cs: Seq<Seq<u8>>) -> Seq<u8> {
    Seq::new(
        32,
        |x: int|
            if in_cycles(cs, x) {
                let (a, k) = choose|a: int, k: int|
                    0 <= a < cs.len() && 0 <= k < cs[a].len() && cs[a][k] == x;
                next_in(cs[a], k)
            } else {
                x as u8
            },
    )
}

/// The permutation that a text denotes: its cycles applied in order by
/// `from_cycles`, where the text reads and the result is a bijection.
pub open spec fn denoted_permutation(s: Seq<char>) -> Option<Seq<u8>> {
    match read_cycles(s) {
        Some(cs) => if is_bijection(overwrite_images(cs)) {
            Some(overwrite_images(cs))
        } else {
            None
        },
        None => None,
    }
}

/// The digits of one cycle.
pub open spec fn digits(c: Seq<u8>) -> Seq<char> {
    c.map_values(|v: u8| digit_char(v))
}

/// One cycle written out: its digits between parentheses.
pub open spec fn render_cycle(c: Seq<u8>) -> Seq<char> {
    seq!['('] + digits(c) + seq![')']
}

/// The cycles written out one after another.
pub open spec fn render_all(cs: Seq<Seq<u8>>) -> Seq<char>
    decreases cs.len(),
{
    if cs.len() == 0 {
        Seq::empty()
    } else {
        render_all(cs.drop_last()) + render_cycle(cs.last())
    }
}

/// Cycle notation: `()` for no cycles, else the cycles written out.
pub open spec fn render(cs: Seq<Seq<u8>>) -> Seq<char> {
    if cs.len() == 0 {
        seq!['(', ')']
    } else {
        render_all(cs)
    }
}

/// `s` is the cycle notation of `p`: its decomposition written out.
pub open spec fn formats_as(p: Seq<u8>, s: Seq<char>) -> bool {
    exists|cs: Seq<Seq<u8>>| is_cycle_decomposition(p, cs) && s == render(cs)
}

/// Relies on `String::push`: the character is appended at the end.
#[verifier::external_body]
fn push_char(s: &mut String, c: char)
    ensures
        final(s)@ == old(s)@.push(c),
{
    s.push(c)
}

/// Decodes one base-32 digit.
fn digit_of(c: char) -> (r: Option<u8>)
    ensures
        r == digit_value(c),
{
    let u = c as u32;
    if 48 <= u && u <= 57 {
        Some((u - 48) as u8)
    } else if 97 <= u && u <= 118 {
        Some((u - 87) as u8)
    } else if 65 <= u && u <= 86 {
        Some((u - 55) as u8)
    } else {
        None
    }
}

/// The lower-case digit of a point of the domain.
fn char_of(v: u8) -> (r: char)
    requires
        v < 32,
    ensures
        r == digit_char(v),
        digit_value(r) == Some(v),
{
    if v < 10 {
        (v + 48) as char
    } else {
        (v + 87) as char
    }
}

/// A character that is no digit and no half of a `)(` separator leaves every
/// longer prefix unreadable.
proof fn lemma_stuck_from(t: Seq<char>, i: int, j: int)
    requires
        0 <= i < j <= t.len(),
        digit_value(t[i]) is None,
        !(t[i] == ')' && i + 1 < t.len() && t[i + 1] == '('),
        !(t[i] == '(' && i > 0 && t[i - 1] == ')'),
    ensures
        read_pieces(t.take(j)) is None,
    decreases j,
{
    let u = t.take(j);
    if j > i + 1 {
        lemma_stuck_from(t, i, j - 1);
        assert(u.drop_last() =~= t.take(j - 1));
        if j - 2 > i {
            lemma_stuck_from(t, i, j - 2);
            assert(u.subrange(0, u.len() - 2) =~= t.take(j - 2));
        }
    }
}

/// Reads the cycles of a text of the shape `(c1c2...)(d1d2...)...`.
fn read_cycles_of(s: &str) -> (r: Option<Vec<Vec<u8>>>)
    ensures
        r matches Some(cs) ==> read_cycles(s@) == Some(cs.deep_view()),
        r is None ==> read_cycles(s@) is None,
{
    let n = s.unicode_len();
    if n < 2 {
        return None;
    }
    if s.get_char(0) != '(' || s.get_char(n - 1) != ')' {
        return None;
    }
    let m = n - 2;
    let ghost t = s@.subrange(1, n - 1);
    let mut acc: Vec<Vec<u8>> = Vec::new();
    let mut cur: Vec<u8> = Vec::new();
    let mut i: usize = 0;
    proof {
        assert(t.take(0) =~= Seq::<char>::empty());
        assert(acc.deep_view().push(cur@) =~= seq![Seq::<u8>::empty()]);
    }
    while i < m
        invariant
            n == s@.len(),
            m == n - 2,
            t == s@.subrange(1, n - 1),
            i <= m,
            read_pieces(t.take(i as int)) == Some(acc.deep_view().push(cur@)),
            i > 0 ==> t[i - 1] != ')',
        decreases m - i,
    {
        let c = s.get_char(i + 1);
        assert(c == t[i as int]);
        match digit_of(c) {
            Some(d) => {
                let ghost before = cur@;
                cur.push(d);
                proof {
                    let u = t.take(i + 1);
                    assert(u.drop_last() =~= t.take(i as int));
                    assert(u.last() == c);
                    assert(acc.deep_view().push(cur@) =~= acc.deep_view().push(before).update(
                        acc.deep_view().len() as int,
                        before.push(d),
                    ));
                }
                i = i + 1;
            },
            None => {
                if c == ')' && i + 1 < m && s.get_char(i + 2) == '(' {
                    let ghost before = cur@;
                    let ghost av = acc@;
                    let ghost dv = acc.deep_view();
                    acc.push(cur);
                    cur = Vec::new();
                    proof {
                        let u = t.take(i + 2);
                        assert(u.subrange(0, u.len() - 2) =~= t.take(i as int));
                        assert(u.last() == '(' && u[u.len() - 2] == ')');
                        assert(acc.deep_view() =~= dv.push(before)) by {
                            assert forall|k: int| 0 <= k < dv.len() + 1 implies acc.deep_view()[k]
                                == dv.push(before)[k] by {
                                if k < dv.len() {
                                    assert(acc@[k] == av[k]);
                                } else {
                                    assert(acc@[k]@ == before);
                                    assert(acc@[k].deep_view() =~= acc@[k]@);
                                }
                            }
                        }
                        assert(acc.deep_view().push(cur@) =~= acc.deep_view().push(Seq::<u8>::empty()));
                    }
                    i = i + 2;
                } else {
                    proof {
                        lemma_stuck_from(t, i as int, t.len() as int);
                        assert(t.take(t.len() as int) =~= t);
                    }
                    return None;
                }
            },
        }
    }
    let ghost av = acc@;
    let ghost dv = acc.deep_view();
    let ghost cv = cur@;
    acc.push(cur);
    proof {
        assert(t.take(m as int) =~= t);
        assert(acc.deep_view() =~= dv.push(cv)) by {
            assert forall|k: int| 0 <= k < dv.len() + 1 implies acc.deep_view()[k] == dv.push(cv)[k] by {
                if k < dv.len() {
                    assert(acc@[k] == av[k]);
                } else {
                    assert(acc@[k]@ == cv);
                    assert(acc@[k].deep_view() =~= acc@[k]@);
                }
            }
        }
    }
    Some(acc)
}

/// Every cycle read from a text holds points of the domain only.
proof fn lemma_pieces_in_domain(t: Seq<char>)
    requires
        read_pieces(t) is Some,
    ensures
        points_in_domain(read_pieces(t)->0),
        read_pieces(t)->0.len() >= 1,
    decreases t.len(),
{
    if t.len() > 0 {
        if digit_value(t.last()) is Some {
            lemma_pieces_in_domain(t.drop_last());
        } else {
            lemma_pieces_in_domain(t.subrange(0, t.len() - 2));
        }
    }
}

/// Where `p` links disjoint cycles and fixes the rest, it is `cycle_images(cs)`.
proof fn lemma_links_images(p: Seq<u8>, cs: Seq<Seq<u8>>)
    requires
        disjoint_cycles(cs),
        links_cycles(p, cs),
    ensures
        p == cycle_images(cs),
{
    assert forall|x: int| 0 <= x < 32 implies p[x] == cycle_images(cs)[x] by {
        if in_cycles(cs, x) {
            let (a, k) = choose|a: int, k: int| 0 <= a < cs.len() && 0 <= k < cs[a].len() && cs[a][k] == x;
            assert(p[cs[a][k] as int] == next_in(cs[a], k));
        }
    }
    assert(p =~= cycle_images(cs));
}

/// The text between the outer parentheses of the written-out cycles.
spec fn inner_text(cs: Seq<Seq<u8>>) -> Seq<char>
    decreases cs.len(),
{
    if cs.len() <= 1 {
        digits(cs[0])
    } else {
        inner_text(cs.drop_last()) + seq![')', '('] + digits(cs.last())
    }
}

/// Digits appended to a readable text extend its last cycle.
proof fn lemma_read_digits(x: Seq<char>, c: Seq<u8>, ps: Seq<Seq<u8>>)
    requires
        read_pieces(x) == Some(ps),
        ps.len() >= 1,
        forall|t: int| 0 <= t < c.len() ==> #[trigger] c[t] < 32,
    ensures
        read_pieces(x + digits(c)) == Some(ps.update(ps.len() - 1, ps.last() + c)),
    decreases c.len(),
{
    if c.len() == 0 {
        assert(x + digits(c) =~= x);
        assert(ps.update(ps.len() - 1, ps.last() + c) =~= ps);
    } else {
        let c0 = c.drop_last();
        let v = c.last();
        lemma_read_digits(x, c0, ps);
        let y = x + digits(c);
        assert(y.drop_last() =~= x + digits(c0));
        assert(y.last() == digit_char(v));
        assert(v < 32);
        assert(digit_value(digit_char(v)) == Some(v));
        let qs = ps.update(ps.len() - 1, ps.last() + c0);
        assert(c0.push(v) =~= c);
        assert((ps.last() + c0).push(v) =~= ps.last() + c);
        assert(qs.update(qs.len() - 1, qs.last().push(v)) =~= ps.update(ps.len() - 1, ps.last() + c));
    }
}

/// The written-out cycles are their inner text between parentheses.
proof fn lemma_render_inner(cs: Seq<Seq<u8>>)
    requires
        cs.len() >= 1,
    ensures
        render_all(cs) == seq!['('] + inner_text(cs) + seq![')'],
    decreases cs.len(),
{
    if cs.len() == 1 {
        assert(cs.drop_last() =~= Seq::<Seq<u8>>::empty());
        assert(render_all(cs.drop_last()) == Seq::<char>::empty());
        assert(render_all(cs) == render_all(cs.drop_last()) + render_cycle(cs.last()));
        assert(cs.last() == cs[0]);
        assert(inner_text(cs) == digits(cs[0]));
        assert(render_all(cs) =~= seq!['('] + inner_text(cs) + seq![')']);
    } else {
        lemma_render_inner(cs.drop_last());
        assert(render_all(cs) =~= seq!['('] + inner_text(cs) + seq![')']);
    }
}

/// The inner text of cycles of domain points reads back as those cycles.
proof fn lemma_read_inner(cs: Seq<Seq<u8>>)
    requires
        cs.len() >= 1,
        forall|a: int, k: int| 0 <= a < cs.len() && 0 <= k < cs[a].len() ==> #[trigger] cs[a][k] < 32,
    ensures
        read_pieces(inner_text(cs)) == Some(cs),
    decreases cs.len(),
{
    let c = cs.last();
    assert forall|t: int| 0 <= t < c.len() implies #[trigger] c[t] < 32 by {
        assert(cs[cs.len() - 1][t] < 32);
    }
    if cs.len() == 1 {
        let e = Seq::<char>::empty();
        assert(read_pieces(e) == Some(seq![Seq::<u8>::empty()]));
        lemma_read_digits(e, c, seq![Seq::<u8>::empty()]);
        assert(e + digits(c) =~= inner_text(cs));
        assert(seq![Seq::<u8>::empty()].update(0, Seq::<u8>::empty() + c) =~= cs);
    } else {
        let cs0 = cs.drop_last();
        lemma_read_inner(cs0);
        let x = inner_text(cs0) + seq![')', '('];
        assert(x.subrange(0, x.len() - 2) =~= inner_text(cs0));
        assert(read_pieces(x) == Some(cs0.push(Seq::<u8>::empty())));
        lemma_read_digits(x, c, cs0.push(Seq::<u8>::empty()));
        assert(cs0.push(Seq::<u8>::empty()).update(cs0.len() as int, Seq::<u8>::empty() + c) =~= cs);
    }
}

/// Disjoint cycles, written out, read back as the mapping that links them.
proof fn lemma_reads_back(cs: Seq<Seq<u8>>)
    requires
        disjoint_cycles(cs),
    ensures
        denoted_permutation(render(cs)) == Some(cycle_images(cs)),
{
    let s = render(cs);
    if cs.len() == 0 {
        let one = seq![Seq::<u8>::empty()];
        assert(s.subrange(1, s.len() - 1) =~= Seq::<char>::empty());
        assert(read_cycles(s) == Some(one));
        assert(one.drop_last() =~= Seq::<Seq<u8>>::empty());
        assert(overwrite_images(one.drop_last()) == identity_images());
        assert(one.last().len() == 0);
        assert(overwrite_images(one) == identity_images());
        assert forall|x: int| 0 <= x < 32 implies !in_cycles(cs, x) by {}
        assert(cycle_images(cs) =~= identity_images());
        lemma_links_bijection(identity_images(), cs);
    } else {
        lemma_render_inner(cs);
        assert(s.subrange(1, s.len() - 1) =~= inner_text(cs));
        lemma_read_inner(cs);
        lemma_disjoint_text(s);
    }
}

/// Every permutation that a text denotes is a bijection of the domain.
pub proof fn lemma_denoted_is_bijection(s: Seq<char>)
    requires
        denoted_permutation(s) is Some,
    ensures
        is_bijection(denoted_permutation(s)->0),
{
}

/// Text whose cycles are disjoint denotes the mapping that links them.
pub proof fn lemma_disjoint_text(s: Seq<char>)
    requires
        read_cycles(s) matches Some(cs) && disjoint_cycles(cs),
    ensures
        denoted_permutation(s) == Some(cycle_images(read_cycles(s)->0)),
{
    let cs = read_cycles(s)->0;
    crate::permutation::lemma_overwrite_links(cs);
    lemma_links_images(overwrite_images(cs), cs);
    lemma_links_bijection(overwrite_images(cs), cs);
}

/// Round trip: parsing the cycle notation of a permutation gives that
/// permutation back.
pub proof fn lemma_round_trip(p: Seq<u8>, s: Seq<char>)
    requires
        formats_as(p, s),
    ensures
        denoted_permutation(s) == Some(p),
{
    let cs = choose|cs: Seq<Seq<u8>>| is_cycle_decomposition(p, cs) && s == render(cs);
    assert(disjoint_cycles(cs) && links_cycles(p, cs));
    lemma_links_images(p, cs);
    lemma_reads_back(cs);
}

impl Permutation {
    /// Reads cycle notation `(c1c2...)(d1d2...)...`, each point one base-32
    /// digit, and builds the permutation as `from_cycles` does. Gives `None`
    /// where the text lacks the outer parentheses or holds a character that
    /// is no digit or separator, or where cycles that share points leave a
    /// mapping that is not a bijection.
    pub fn parse(s: &str) -> (r: Option<Permutation>)
        ensures
            r matches Some(q) ==> denoted_permutation(s@) == Some(q@) && is_bijection(q@),
            r is None ==> denoted_permutation(s@) is None,
    {
        match read_cycles_of(s) {
            None => None,
            Some(cs) => {
                proof {
                    lemma_pieces_in_domain(s@.subrange(1, s@.len() - 1));
                }
                if Permutation::cycles_form_bijection(&cs) {
                    Some(Permutation::from_cycles(&cs))
                } else {
                    None
                }
            },
        }
    }

    /// Cycle notation: `()` for the identity, else the cycles of `cycles()`
    /// in that order, each point one lower-case base-32 digit.
    pub fn to_string(&self) -> (r: String)
        ensures
            formats_as(self@, r@),
            forall|cs: Seq<Seq<u8>>| #[trigger] is_cycle_decomposition(self@, cs) ==> r@ == render(cs),
    {
        let cs = self.cycles();
        let ghost d = cs.deep_view();
        let mut out = String::new();
        if cs.len() == 0 {
            push_char(&mut out, '(');
            push_char(&mut out, ')');
            proof {
                assert(out@ =~= render(d));
                assert forall|cs2: Seq<Seq<u8>>| #[trigger] is_cycle_decomposition(self@, cs2) implies out@
                    == render(cs2) by {
                    lemma_decomposition_unique(self@, d, cs2);
                }
            }
            return out;
        }
        let mut a: usize = 0;
        proof {
            assert(d.take(0) =~= Seq::<Seq<u8>>::empty());
        }
        while a < cs.len()
            invariant
                d == cs.deep_view(),
                is_cycle_decomposition(self@, d),
                a <= d.len(),
                out@ == render_all(d.take(a as int)),
            decreases d.len() - a,
        {
            let c = &cs[a];
            assert(c@ == d[a as int]);
            let ghost start = out@;
            push_char(&mut out, '(');
            let mut k: usize = 0;
            while k < c.len()
                invariant
                    d == cs.deep_view(),
                    is_cycle_decomposition(self@, d),
                    a < d.len(),
                    c@ == d[a as int],
                    k <= c@.len(),
                    out@ == start + seq!['('] + digits(c@.take(k as int)),
                decreases c@.len() - k,
            {
                assert(c@[k as int] < 32);
                let ch = char_of(c[k]);
                push_char(&mut out, ch);
                proof {
                    assert(digits(c@.take(k + 1)) =~= digits(c@.take(k as int)).push(ch));
                }
                k = k + 1;
            }
            push_char(&mut out, ')');
            proof {
                assert(c@.take(k as int) =~= c@);
                let e = d.take(a + 1);
                assert(e.drop_last() =~= d.take(a as int));
                assert(e.last() == c@);
                assert(out@ =~= render_all(e));
            }
            a = a + 1;
        }
        proof {
            assert(d.take(d.len() as int) =~= d);
            assert(out@ == render(d));
            assert forall|cs2: Seq<Seq<u8>>| #[trigger] is_cycle_decomposition(self@, cs2) implies out@
                == render(cs2) by {
                lemma_decomposition_unique(self@, d, cs2);
            }
        }
        out
    }
}

} // verus!
