use vstd::prelude::*;

use crate::parser::{
    clones_exactly, concat_map, copy_of, is_function, is_suffix, lemma_concat_map_at,
    lemma_concat_map_len, lemma_concat_map_member, lemma_concat_map_take, lemma_sum_lens_mono,
    lemma_sum_lens_same,
    sum_lens, lemma_outcomes_append, lemma_outcomes_push, outcomes, Combinator,
    Parser, Succeed,
};

verus! {

/// `f` can be called on every argument, and arguments with the same model
/// give the same value.
pub open spec fn respects<A, B, M, F: Fn(A) -> B>(f: F, model: spec_fn(A) -> M) -> bool {
    &&& forall|a: A| #[trigger] call_requires(f, (a,))
    &&& forall|a1: A, a2: A, b1: B, b2: B|
        model(a1) == model(a2) && #[trigger] call_ensures(f, (a1,), b1) && #[trigger] call_ensures(
            f,
            (a2,),
            b2,
        ) ==> b1 == b2
}

/// What `f` gives on an argument whose model is `m`.
pub open spec fn apply_model<A, B, M, F: Fn(A) -> B>(f: F, model: spec_fn(A) -> M, m: M) -> B {
    (choose|ab: (A, B)| model(ab.0) == m && #[trigger] call_ensures(f, (ab.0,), ab.1)).1
}

proof fn lemma_apply_model<A, B, M, F: Fn(A) -> B>(f: F, model: spec_fn(A) -> M, a: A, b: B)
    requires
        respects(f, model),
        call_ensures(f, (a,), b),
    ensures
        apply_model(f, model, model(a)) == b,
{
    let m = model(a);
    let witness = (a, b);
    assert(model(witness.0) == m && call_ensures(f, (witness.0,), witness.1));
    let ab = choose|ab: (A, B)| model(ab.0) == m && #[trigger] call_ensures(f, (ab.0,), ab.1);
}

/// Applies `f` to the value of every parse of `p`.
pub struct Fmap<F, P> {
    pub f: F,
    pub p: P,
}

impl<Sym, B, P: Combinator<Sym>, F: Fn(P::Res) -> B> Combinator<Sym> for Fmap<F, P> {
    type Res = B;

    type Model = B;

    open spec fn model(r: B) -> B {
        r
    }

    open spec fn spec_parse(&self, input: Seq<Sym>) -> Seq<(B, Seq<Sym>)> {
        self.p.spec_parse(input).map_values(
            |x: (P::Model, Seq<Sym>)| (apply_model(self.f, |a: P::Res| P::model(a), x.0), x.1),
        )
    }

    open spec fn well_formed(&self) -> bool {
        self.p.well_formed() && respects(self.f, |a: P::Res| P::model(a))
    }

    open spec fn runs_on(&self, input: Seq<Sym>) -> bool {
        self.p.runs_on(input)
    }

    proof fn lemma_suffix(&self, input: Seq<Sym>) {
        self.p.lemma_suffix(input);
        assert forall|i: int| 0 <= i < self.spec_parse(input).len() implies is_suffix(
            #[trigger] self.spec_parse(input)[i].1,
            input,
        ) by {
            assert(self.spec_parse(input)[i].1 == self.p.spec_parse(input)[i].1);
        }
    }

    fn parse<'a>(&self, input: &'a [Sym]) -> (out: Vec<(B, &'a [Sym])>) {
        let ghost model = |a: P::Res| P::model(a);
        let mut inner = self.p.parse(input);
        let ghost all = inner@;
        let n = inner.len();
        let mut out: Vec<(B, &'a [Sym])> = Vec::new();
        let mut i: usize = 0;
        while i < n
            invariant
                self.well_formed(),
                model == (|a: P::Res| P::model(a)),
                n == all.len(),
                i <= n,
                inner@ == all.skip(i as int),
                outcomes(all, model) == self.p.spec_parse(input@),
                outcomes(out@, |r: B| r) == self.spec_parse(input@).take(i as int),
            decreases n - i,
        {
            let (a, rest) = inner.remove(0);
            proof {
                assert(all[i as int] == (a, rest));
            }
            let b = (self.f)(a);
            proof {
                lemma_apply_model(self.f, model, a, b);
                assert(outcomes(all, model)[i as int] == (model(a), rest@));
                assert(self.p.spec_parse(input@)[i as int] == (P::model(a), rest@));
                assert(self.spec_parse(input@)[i as int] == (b, rest@));
            }
            let ghost before = out@;
            out.push((b, rest));
            i = i + 1;
            proof {
                assert(inner@ =~= all.skip(i as int));
                assert(out@ == before.push((b, rest)));
                assert(outcomes(out@, |r: B| r) =~= outcomes(before, |r: B| r).push((b, rest@)));
                assert(self.spec_parse(input@).take(i as int) =~= self.spec_parse(input@).take(i - 1).push(self.spec_parse(input@)[i - 1]));
            }
        }
        proof {
            assert(self.spec_parse(input@).take(n as int) =~= self.spec_parse(input@));
            assert(outcomes(out@, |r: B| r) =~= outcomes(out@, |r: Self::Res| <Self as Combinator<Sym>>::model(r)));
        }
        out
    }
}

/// Some call of `f` on `a` returns.
pub open spec fn returns_on<A, B, F: Fn(A) -> B>(f: F, a: A) -> bool {
    exists|b: B| #[trigger] call_ensures(f, (a,), b)
}

/// `m` is the model of some value of `P`.
pub open spec fn is_model<Sym, P: Combinator<Sym>>(m: P::Model) -> bool {
    exists|a: P::Res| #[trigger] P::model(a) == m
}

/// Mapping a function that gives back its argument over `p` changes none of
/// its parses.
pub proof fn lemma_fmap_identity<Sym, R, P: Combinator<Sym, Res = R, Model = R>, F: Fn(R) -> R>(
    f: F,
    p: P,
    s: Seq<Sym>,
)
    requires
        forall|r: R| #[trigger] P::model(r) == r,
        forall|a: R| #[trigger] returns_on(f, a),
        forall|a: R, b: R| #[trigger] call_ensures(f, (a,), b) ==> b == a,
    ensures
        (Fmap { f, p }).spec_parse(s) == p.spec_parse(s),
{
    let model = |a: R| P::model(a);
    let ps = p.spec_parse(s);
    assert forall|i: int| 0 <= i < ps.len() implies apply_model(f, model, #[trigger] ps[i].0)
        == ps[i].0 by {
        let m = ps[i].0;
        assert(returns_on(f, m));
        let b = choose|b: R| call_ensures(f, (m,), b);
        assert(model((m, b).0) == m && call_ensures(f, ((m, b).0,), (m, b).1));
    }
    assert((Fmap { f, p }).spec_parse(s) =~= ps);
}

/// Mapping `g` over the result of mapping `f` over `p` gives the parses of
/// mapping `g` after `f` over `p`, where `h` is `g` after `f`.
pub proof fn lemma_fmap_compose<
    Sym,
    A,
    B,
    C,
    P: Combinator<Sym, Res = A>,
    F: Fn(A) -> B,
    G: Fn(B) -> C,
    H: Fn(A) -> C,
>(f: F, g: G, h: H, p: P, s: Seq<Sym>)
    requires
        forall|m: P::Model| #[trigger] is_model::<Sym, P>(m),
        forall|a: A| #[trigger] returns_on(f, a),
        forall|b: B| #[trigger] returns_on(g, b),
        forall|b: B, c1: C, c2: C|
            #[trigger] call_ensures(g, (b,), c1) && #[trigger] call_ensures(g, (b,), c2) ==> c1
                == c2,
        forall|a: A, b: B, c: C|
            #[trigger] call_ensures(f, (a,), b) && #[trigger] call_ensures(g, (b,), c)
                ==> call_ensures(h, (a,), c),
        respects(h, |a: A| P::model(a)),
    ensures
        (Fmap { f: g, p: Fmap { f, p } }).spec_parse(s) == (Fmap { f: h, p }).spec_parse(s),
{
    let model = |a: A| P::model(a);
    let ps = p.spec_parse(s);
    let inner = Fmap { f, p };
    let gm = |b: B| <Fmap<F, P> as Combinator<Sym>>::model(b);
    assert forall|i: int| 0 <= i < ps.len() implies apply_model(
        g,
        gm,
        apply_model(f, model, #[trigger] ps[i].0),
    ) == apply_model(h, model, ps[i].0) by {
        let m = ps[i].0;
        assert(is_model::<Sym, P>(m));
        let a0 = choose|a: A| P::model(a) == m;
        assert(returns_on(f, a0));
        let b0 = choose|b: B| call_ensures(f, (a0,), b);
        assert(model((a0, b0).0) == m && call_ensures(f, ((a0, b0).0,), (a0, b0).1));
        let ab = choose|ab: (A, B)| model(ab.0) == m && #[trigger] call_ensures(f, (ab.0,), ab.1);
        let bv = ab.1;
        assert(apply_model(f, model, m) == bv);
        assert(returns_on(g, bv));
        let c0 = choose|c: C| call_ensures(g, (bv,), c);
        assert(gm((bv, c0).0) == bv && call_ensures(g, ((bv, c0).0,), (bv, c0).1));
        let bc = choose|bc: (B, C)| gm(bc.0) == bv && #[trigger] call_ensures(g, (bc.0,), bc.1);
        assert(bc.1 == c0);
        assert(call_ensures(h, (ab.0,), c0));
        lemma_apply_model(h, model, ab.0, c0);
    }
    let lhs = (Fmap { f: g, p: inner }).spec_parse(s);
    let rhs = (Fmap { f: h, p }).spec_parse(s);
    assert forall|i: int| 0 <= i < ps.len() implies #[trigger] lhs[i] == rhs[i] by {
        assert(inner.spec_parse(s)[i] == (apply_model(f, model, ps[i].0), ps[i].1));
    }
    assert(lhs =~= rhs);
}

/// `fmap(f, p)` has one parse for each parse of `p`, in order: it leaves
/// the same input, and its value is what `f` gives on a value read as the
/// value of `p`'s parse.
pub proof fn lemma_fmap_parses<Sym, B, P: Combinator<Sym>, F: Fn(P::Res) -> B>(
    m: Fmap<F, P>,
    s: Seq<Sym>,
)
    requires
        m.well_formed(),
    ensures
        m.spec_parse(s).len() == m.p.spec_parse(s).len(),
        forall|i: int|
            0 <= i < m.p.spec_parse(s).len() ==> #[trigger] m.spec_parse(s)[i].1
                == m.p.spec_parse(s)[i].1,
        forall|i: int, a: P::Res, b: B|
            #![trigger m.p.spec_parse(s)[i], call_ensures(m.f, (a,), b)]
            0 <= i < m.p.spec_parse(s).len() && P::model(a) == m.p.spec_parse(s)[i].0
                && call_ensures(m.f, (a,), b) ==> m.spec_parse(s)[i].0 == b,
{
    assert forall|i: int, a: P::Res, b: B|
        #![trigger m.p.spec_parse(s)[i], call_ensures(m.f, (a,), b)]
        0 <= i < m.p.spec_parse(s).len() && P::model(a) == m.p.spec_parse(s)[i].0
            && call_ensures(m.f, (a,), b) implies m.spec_parse(s)[i].0 == b by {
        lemma_apply_model(m.f, |x: P::Res| P::model(x), a, b);
    }
}

/// Applies `f` to the value of every parse of `p`.
pub fn fmap<F, P>(f: F, p: Parser<P>) -> (r: Parser<Fmap<F, P>>)
    ensures
        r.parser == (Fmap { f, p: p.parser }),
{
    Parser { parser: Fmap { f, p: p.parser } }
}

/// Replaces the value of every parse of `p` with `value`.
pub struct FmapL<R, P> {
    pub value: R,
    pub p: P,
}

impl<Sym, R: Clone, P: Combinator<Sym>> Combinator<Sym> for FmapL<R, P> {
    type Res = R;

    type Model = R;

    open spec fn model(r: R) -> R {
        r
    }

    open spec fn spec_parse(&self, input: Seq<Sym>) -> Seq<(R, Seq<Sym>)> {
        self.p.spec_parse(input).map_values(|x: (P::Model, Seq<Sym>)| (self.value, x.1))
    }

    open spec fn well_formed(&self) -> bool {
        self.p.well_formed() && clones_exactly::<R>()
    }

    open spec fn runs_on(&self, input: Seq<Sym>) -> bool {
        self.p.runs_on(input)
    }

    proof fn lemma_suffix(&self, input: Seq<Sym>) {
        self.p.lemma_suffix(input);
        assert forall|i: int| 0 <= i < self.spec_parse(input).len() implies is_suffix(
            #[trigger] self.spec_parse(input)[i].1,
            input,
        ) by {
            assert(self.spec_parse(input)[i].1 == self.p.spec_parse(input)[i].1);
        }
    }

    fn parse<'a>(&self, input: &'a [Sym]) -> (out: Vec<(R, &'a [Sym])>) {
        let inner = self.p.parse(input);
        let n = inner.len();
        let mut out: Vec<(R, &'a [Sym])> = Vec::new();
        let mut i: usize = 0;
        while i < n
            invariant
                self.well_formed(),
                n == inner@.len(),
                i <= n,
                outcomes(inner@, |a: P::Res| P::model(a)) == self.p.spec_parse(input@),
                outcomes(out@, |r: R| r) == self.spec_parse(input@).take(i as int),
            decreases n - i,
        {
            let rest = inner[i].1;
            let v = copy_of(&self.value);
            proof {
                lemma_outcomes_push(out@, |r: R| r, (v, rest));
                assert(self.spec_parse(input@)[i as int] == (v, rest@));
                assert(self.spec_parse(input@).take(i + 1) =~= self.spec_parse(input@).take(
                    i as int,
                ).push(self.spec_parse(input@)[i as int]));
            }
            out.push((v, rest));
            i = i + 1;
        }
        proof {
            assert(self.spec_parse(input@).take(n as int) =~= self.spec_parse(input@));
            assert(outcomes(out@, |r: R| r) =~= outcomes(
                out@,
                |r: Self::Res| <Self as Combinator<Sym>>::model(r),
            ));
        }
        out
    }
}

/// `fmap_l(r, p)` has one parse for each parse of `p`, in order, leaving the
/// same input, with the value `r`.
pub proof fn lemma_fmap_l_parses<Sym, R: Clone, P: Combinator<Sym>>(m: FmapL<R, P>, s: Seq<Sym>)
    ensures
        m.spec_parse(s).len() == m.p.spec_parse(s).len(),
        forall|i: int|
            0 <= i < m.p.spec_parse(s).len() ==> #[trigger] m.spec_parse(s)[i] == (
                m.value,
                m.p.spec_parse(s)[i].1,
            ),
{
}

/// Ignores the value of every parse of `p` and yields `r` instead.
pub fn fmap_l<R, P>(r: R, p: Parser<P>) -> (res: Parser<FmapL<R, P>>)
    ensures
        res.parser == (FmapL { value: r, p: p.parser }),
{
    Parser { parser: FmapL { value: r, p: p.parser } }
}

/// The parses of `p` followed by those of `q`.
pub struct Choice<P, Q> {
    pub p: P,
    pub q: Q,
}

/// `p` and `q` read the same values the same way.
pub open spec fn same_models<Sym, P: Combinator<Sym>, Q: Combinator<Sym, Res = P::Res, Model = P::Model>>(
    p: P,
    q: Q,
) -> bool {
    forall|r: P::Res| #[trigger] Q::model(r) == P::model(r)
}

impl<Sym, P: Combinator<Sym>, Q: Combinator<Sym, Res = P::Res, Model = P::Model>> Combinator<
    Sym,
> for Choice<P, Q> {
    type Res = P::Res;

    type Model = P::Model;

    open spec fn model(r: P::Res) -> P::Model {
        P::model(r)
    }

    open spec fn spec_parse(&self, input: Seq<Sym>) -> Seq<(P::Model, Seq<Sym>)> {
        self.p.spec_parse(input) + self.q.spec_parse(input)
    }

    open spec fn well_formed(&self) -> bool {
        self.p.well_formed() && self.q.well_formed() && same_models(self.p, self.q)
    }

    open spec fn runs_on(&self, input: Seq<Sym>) -> bool {
        self.p.runs_on(input) && self.q.runs_on(input)
    }

    proof fn lemma_suffix(&self, input: Seq<Sym>) {
        self.p.lemma_suffix(input);
        self.q.lemma_suffix(input);
        let ps = self.p.spec_parse(input);
        assert forall|i: int| 0 <= i < self.spec_parse(input).len() implies is_suffix(
            #[trigger] self.spec_parse(input)[i].1,
            input,
        ) by {
            if i < ps.len() {
                assert(self.spec_parse(input)[i] == ps[i]);
            } else {
                assert(self.spec_parse(input)[i] == self.q.spec_parse(input)[i - ps.len()]);
            }
        }
    }

    fn parse<'a>(&self, input: &'a [Sym]) -> (out: Vec<(P::Res, &'a [Sym])>) {
        let mut out = self.p.parse(input);
        let mut more = self.q.parse(input);
        proof {
            lemma_outcomes_append(out@, more@, |r: P::Res| P::model(r));
            assert(outcomes(more@, |r: P::Res| P::model(r)) =~= outcomes(
                more@,
                |r: Q::Res| Q::model(r),
            ));
        }
        out.append(&mut more);
        out
    }
}

/// `choice(p, q)` has every parse of `p`, in order, and after them every
/// parse of `q`, in order, and no others.
pub proof fn lemma_choice_parses<Sym, P: Combinator<Sym>, Q: Combinator<
    Sym,
    Res = P::Res,
    Model = P::Model,
>>(c: Choice<P, Q>, s: Seq<Sym>)
    ensures
        c.spec_parse(s).len() == c.p.spec_parse(s).len() + c.q.spec_parse(s).len(),
        forall|i: int|
            0 <= i < c.p.spec_parse(s).len() ==> #[trigger] c.spec_parse(s)[i]
                == c.p.spec_parse(s)[i],
        forall|j: int|
            0 <= j < c.q.spec_parse(s).len() ==> c.spec_parse(s)[c.p.spec_parse(s).len() + j]
                == #[trigger] c.q.spec_parse(s)[j],
{
}

/// The parses of `p` followed by those of `q`.
pub fn choice<P, Q>(p: Parser<P>, q: Parser<Q>) -> (r: Parser<Choice<P, Q>>)
    ensures
        r.parser == (Choice { p: p.parser, q: q.parser }),
{
    Parser { parser: Choice { p: p.parser, q: q.parser } }
}

/// The parses of `p`, or those of `q` only where `p` has none.
pub struct BiasedChoice<P, Q> {
    pub p: P,
    pub q: Q,
}

impl<Sym, P: Combinator<Sym>, Q: Combinator<Sym, Res = P::Res, Model = P::Model>> Combinator<
    Sym,
> for BiasedChoice<P, Q> {
    type Res = P::Res;

    type Model = P::Model;

    open spec fn model(r: P::Res) -> P::Model {
        P::model(r)
    }

    open spec fn spec_parse(&self, input: Seq<Sym>) -> Seq<(P::Model, Seq<Sym>)> {
        if self.p.spec_parse(input).len() == 0 {
            self.q.spec_parse(input)
        } else {
            self.p.spec_parse(input)
        }
    }

    open spec fn well_formed(&self) -> bool {
        self.p.well_formed() && self.q.well_formed() && same_models(self.p, self.q)
    }

    open spec fn runs_on(&self, input: Seq<Sym>) -> bool {
        self.p.runs_on(input) && (self.p.spec_parse(input).len() == 0 ==> self.q.runs_on(input))
    }

    proof fn lemma_suffix(&self, input: Seq<Sym>) {
        self.p.lemma_suffix(input);
        self.q.lemma_suffix(input);
    }

    fn parse<'a>(&self, input: &'a [Sym]) -> (out: Vec<(P::Res, &'a [Sym])>) {
        let r = self.p.parse(input);
        if r.len() == 0 {
            let out = self.q.parse(input);
            proof {
                assert(outcomes(out@, |r: P::Res| P::model(r)) =~= outcomes(
                    out@,
                    |r: Q::Res| Q::model(r),
                ));
            }
            out
        } else {
            r
        }
    }
}

/// Where `p` has parses, `biased_choice(p, q)` has all of them, in order,
/// and nothing else; where `p` has none, it has exactly the parses of `q`.
pub proof fn lemma_biased_choice_parses<Sym, P: Combinator<Sym>, Q: Combinator<
    Sym,
    Res = P::Res,
    Model = P::Model,
>>(c: BiasedChoice<P, Q>, s: Seq<Sym>)
    ensures
        c.p.spec_parse(s).len() > 0 ==> c.spec_parse(s).len() == c.p.spec_parse(s).len(),
        c.p.spec_parse(s).len() > 0 ==> forall|i: int|
            0 <= i < c.p.spec_parse(s).len() ==> #[trigger] c.spec_parse(s)[i]
                == c.p.spec_parse(s)[i],
        c.p.spec_parse(s).len() == 0 ==> c.spec_parse(s).len() == c.q.spec_parse(s).len(),
        c.p.spec_parse(s).len() == 0 ==> forall|j: int|
            0 <= j < c.q.spec_parse(s).len() ==> #[trigger] c.spec_parse(s)[j]
                == c.q.spec_parse(s)[j],
{
}

/// The parses of `p`, or those of `q` only where `p` has none.
pub fn biased_choice<P, Q>(p: Parser<P>, q: Parser<Q>) -> (r: Parser<BiasedChoice<P, Q>>)
    ensures
        r.parser == (BiasedChoice { p: p.parser, q: q.parser }),
{
    Parser { parser: BiasedChoice { p: p.parser, q: q.parser } }
}

/// Only the first parse of `p`, if it has one.
pub struct First<P> {
    pub p: P,
}

impl<Sym, P: Combinator<Sym>> Combinator<Sym> for First<P> {
    type Res = P::Res;

    type Model = P::Model;

    open spec fn model(r: P::Res) -> P::Model {
        P::model(r)
    }

    open spec fn spec_parse(&self, input: Seq<Sym>) -> Seq<(P::Model, Seq<Sym>)> {
        self.p.spec_parse(input).take(
            if self.p.spec_parse(input).len() == 0 {
                0
            } else {
                1
            },
        )
    }

    open spec fn well_formed(&self) -> bool {
        self.p.well_formed()
    }

    open spec fn runs_on(&self, input: Seq<Sym>) -> bool {
        self.p.runs_on(input)
    }

    proof fn lemma_suffix(&self, input: Seq<Sym>) {
        self.p.lemma_suffix(input);
        assert forall|i: int| 0 <= i < self.spec_parse(input).len() implies is_suffix(
            #[trigger] self.spec_parse(input)[i].1,
            input,
        ) by {
            assert(self.spec_parse(input)[i] == self.p.spec_parse(input)[i]);
        }
    }

    fn parse<'a>(&self, input: &'a [Sym]) -> (out: Vec<(P::Res, &'a [Sym])>) {
        let mut r = self.p.parse(input);
        let mut out: Vec<(P::Res, &'a [Sym])> = Vec::new();
        if r.len() > 0 {
            let ghost all = r@;
            let fst = r.remove(0);
            out.push(fst);
            proof {
                assert(out@ =~= all.take(1));
            }
        }
        proof {
            assert(outcomes(out@, |r: P::Res| P::model(r)) =~= self.spec_parse(input@));
        }
        out
    }
}

/// Only the first parse of `p`, if it has one.
pub fn first<P>(p: Parser<P>) -> (r: Parser<First<P>>)
    ensures
        r.parser == (First { p: p.parser }),
{
    Parser { parser: First { p: p.parser } }
}

/// The parses of `p`, followed by one that consumes nothing and yields `d`.
pub fn option<R, P>(p: Parser<P>, d: R) -> (r: Parser<Choice<P, Succeed<R>>>)
    ensures
        r.parser == (Choice { p: p.parser, q: Succeed { value: d } }),
{
    choice(p, Parser { parser: Succeed { value: d } })
}

/// The parses of every parser in `ps`, in order.
pub struct GreedyChoice<P> {
    pub ps: Vec<P>,
}

impl<Sym, P: Combinator<Sym>> Combinator<Sym> for GreedyChoice<P> {
    type Res = P::Res;

    type Model = P::Model;

    open spec fn model(r: P::Res) -> P::Model {
        P::model(r)
    }

    open spec fn spec_parse(&self, input: Seq<Sym>) -> Seq<(P::Model, Seq<Sym>)> {
        concat_map(self.ps@, |p: P| p.spec_parse(input))
    }

    open spec fn well_formed(&self) -> bool {
        forall|i: int| 0 <= i < self.ps@.len() ==> (#[trigger] self.ps@[i]).well_formed()
    }

    open spec fn runs_on(&self, input: Seq<Sym>) -> bool {
        forall|i: int| 0 <= i < self.ps@.len() ==> (#[trigger] self.ps@[i]).runs_on(input)
    }

    proof fn lemma_suffix(&self, input: Seq<Sym>) {
        let f = |p: P| p.spec_parse(input);
        assert forall|k: int| 0 <= k < self.spec_parse(input).len() implies is_suffix(
            #[trigger] self.spec_parse(input)[k].1,
            input,
        ) by {
            lemma_concat_map_member(self.ps@, f, k);
            let (i, j) = choose|i: int, j: int|
                0 <= i < self.ps@.len() && 0 <= j < f(self.ps@[i]).len()
                    && concat_map(self.ps@, f)[k] == #[trigger] f(self.ps@[i])[j];
            self.ps@[i].lemma_suffix(input);
            assert(f(self.ps@[i])[j] == self.ps@[i].spec_parse(input)[j]);
        }
    }

    fn parse<'a>(&self, input: &'a [Sym]) -> (out: Vec<(P::Res, &'a [Sym])>) {
        let ghost f = |p: P| p.spec_parse(input@);
        let n = self.ps.len();
        let mut out: Vec<(P::Res, &'a [Sym])> = Vec::new();
        let mut i: usize = 0;
        while i < n
            invariant
                self.well_formed(),
                self.runs_on(input@),
                n == self.ps@.len(),
                i <= n,
                f == (|p: P| p.spec_parse(input@)),
                outcomes(out@, |r: P::Res| P::model(r)) == concat_map(self.ps@.take(i as int), f),
            decreases n - i,
        {
            let mut more = self.ps[i].parse(input);
            proof {
                lemma_outcomes_append(out@, more@, |r: P::Res| P::model(r));
                lemma_concat_map_take(self.ps@, f, i as int);
            }
            out.append(&mut more);
            i = i + 1;
        }
        proof {
            assert(self.ps@.take(n as int) =~= self.ps@);
        }
        out
    }
}

/// The parses of a parser on `s`, as a function of the parser.
pub open spec fn parses_on<Sym, P: Combinator<Sym>>(s: Seq<Sym>) -> spec_fn(P) -> Seq<
    (P::Model, Seq<Sym>),
> {
    |p: P| p.spec_parse(s)
}

/// `greedy_choice(ps)` has, for each parser in `ps` in order, all of its
/// parses in order, and no others: parse `j` of parser `k` stands right after
/// the parses of the parsers before `k`.
pub proof fn lemma_greedy_choice_parses<Sym, P: Combinator<Sym>>(c: GreedyChoice<P>, s: Seq<Sym>)
    ensures
        c.spec_parse(s).len() == sum_lens(c.ps@, parses_on::<Sym, P>(s), c.ps@.len() as int),
        forall|k: int|
            0 <= k < c.ps@.len() ==> #[trigger] sum_lens(c.ps@, parses_on::<Sym, P>(s), k)
                + c.ps@[k].spec_parse(s).len() <= c.spec_parse(s).len(),
        forall|k: int, j: int|
            0 <= k < c.ps@.len() && 0 <= j < c.ps@[k].spec_parse(s).len() ==> c.spec_parse(s)[sum_lens(
                c.ps@,
                parses_on::<Sym, P>(s),
                k,
            ) + j] == #[trigger] c.ps@[k].spec_parse(s)[j],
{
    let f = parses_on::<Sym, P>(s);
    assert(f =~= (|p: P| p.spec_parse(s)));
    lemma_concat_map_len(c.ps@, f);
    assert forall|k: int| 0 <= k < c.ps@.len() implies #[trigger] sum_lens(c.ps@, f, k)
        + c.ps@[k].spec_parse(s).len() <= c.spec_parse(s).len() by {
        assert(f(c.ps@[k]) == c.ps@[k].spec_parse(s));
        lemma_sum_lens_mono(c.ps@, f, k + 1, c.ps@.len() as int);
    }
    assert forall|k: int, j: int|
        0 <= k < c.ps@.len() && 0 <= j < c.ps@[k].spec_parse(s).len() implies c.spec_parse(s)[sum_lens(
            c.ps@,
            f,
            k,
        ) + j] == #[trigger] c.ps@[k].spec_parse(s)[j] by {
        lemma_concat_map_at(c.ps@, f, k, j);
        assert(f(c.ps@[k]) == c.ps@[k].spec_parse(s));
    }
}

/// Choosing among no parsers is the parser that never succeeds, and among
/// `ps` followed by `p` is the choice of the former and `p`.
pub proof fn lemma_greedy_choice_fold<Sym, P: Combinator<Sym>>(
    ps: Vec<P>,
    qs: Vec<P>,
    p: P,
    s: Seq<Sym>,
)
    requires
        qs@ == ps@.push(p),
    ensures
        ps@.len() == 0 ==> (GreedyChoice { ps: ps }).spec_parse(s).len() == 0,
        (GreedyChoice { ps: qs }).spec_parse(s) == (Choice {
            p: GreedyChoice { ps: ps },
            q: p,
        }).spec_parse(s),
{
    assert(qs@.drop_last() =~= ps@);
}

/// Option gives the parses of `p` and then the default, which consumes
/// nothing; where `p` fails the default is all there is.
pub proof fn lemma_option_default<Sym, R: Clone, P: Combinator<Sym, Res = R, Model = R>>(
    p: P,
    d: R,
    s: Seq<Sym>,
)
    ensures
        (Choice { p, q: Succeed { value: d } }).spec_parse(s).last() == (d, s),
        p.spec_parse(s).len() == 0 ==> (Choice { p, q: Succeed { value: d } }).spec_parse(s)
            == seq![(d, s)],
{
    assert(p.spec_parse(s).len() == 0 ==> (Choice { p, q: Succeed { value: d } }).spec_parse(s)
        =~= seq![(d, s)]);
}

/// `first(p)` gives at most one parse: the first of `p`, if any.
pub proof fn lemma_first_at_most_one<Sym, P: Combinator<Sym>>(p: P, s: Seq<Sym>)
    ensures
        (First { p }).spec_parse(s).len() <= 1,
        (First { p }).spec_parse(s).len() == 0 <==> p.spec_parse(s).len() == 0,
        p.spec_parse(s).len() > 0 ==> (First { p }).spec_parse(s)[0] == p.spec_parse(s)[0],
{
}

/// The parses of every parser in `ps`, in order.
pub fn greedy_choice<P>(ps: Vec<Parser<P>>) -> (r: Parser<GreedyChoice<P>>)
    ensures
        r.parser.ps@.len() == ps@.len(),
        forall|i: int| 0 <= i < ps@.len() ==> #[trigger] r.parser.ps@[i] == ps@[i].parser,
{
    let mut ps = ps;
    let ghost all = ps@;
    let n = ps.len();
    let mut inner: Vec<P> = Vec::new();
    let mut i: usize = 0;
    while i < n
        invariant
            n == all.len(),
            i <= n,
            ps@ == all.skip(i as int),
            inner@.len() == i,
            forall|j: int| 0 <= j < i ==> #[trigger] inner@[j] == all[j].parser,
        decreases n - i,
    {
        let p = ps.remove(0);
        proof {
            assert(p == all[i as int]);
        }
        inner.push(p.parser);
        i = i + 1;
        proof {
            assert(ps@ =~= all.skip(i as int));
        }
    }
    Parser { parser: GreedyChoice { ps: inner } }
}

/// A value that can be applied to a `B`: a function, or a constant.
pub trait Applicable<B> {
    type Output;

    /// Applying is defined on every argument and gives one answer for each.
    spec fn applicable(&self) -> bool;

    spec fn spec_apply(&self, b: B) -> Self::Output;

    fn apply(&self, b: B) -> (r: Self::Output)
        requires
            self.applicable(),
        ensures
            r == self.spec_apply(b),
    ;
}

impl<B, A, F: Fn(B) -> A> Applicable<B> for F {
    type Output = A;

    open spec fn applicable(&self) -> bool {
        is_function(*self)
    }

    open spec fn spec_apply(&self, b: B) -> A {
        choose|a: A| call_ensures(*self, (b,), a)
    }

    fn apply(&self, b: B) -> (r: A) {
        let r = self(b);
        r
    }
}

/// The function that ignores its argument and gives back its value.
#[derive(Clone)]
pub struct Constant<A>(pub A);

impl<B, A: Clone> Applicable<B> for Constant<A> {
    type Output = A;

    open spec fn applicable(&self) -> bool {
        clones_exactly::<A>()
    }

    open spec fn spec_apply(&self, b: B) -> A {
        self.0
    }

    fn apply(&self, b: B) -> (r: A) {
        copy_of(&self.0)
    }
}

/// What `g` gives on an argument whose model, as read by `Q`, is `m`.
pub open spec fn apply_to_model<Sym, B, G: Applicable<B>, Q: Combinator<Sym, Res = B>>(
    g: G,
    m: Q::Model,
) -> G::Output {
    g.spec_apply(choose|b: B| #[trigger] Q::model(b) == m)
}

/// `g` can be applied, and arguments read alike by `Q` give the same value.
pub open spec fn fits<Sym, B, G: Applicable<B>, Q: Combinator<Sym, Res = B>>(g: G) -> bool {
    &&& g.applicable()
    &&& forall|b1: B, b2: B|
        #[trigger] Q::model(b1) == #[trigger] Q::model(b2) ==> g.spec_apply(b1) == g.spec_apply(b2)
}

/// For every parse of `p`, which yields a function, every parse of `q` on
/// the rest, with the function applied to its value.
pub struct Applicative<P, Q> {
    pub p: P,
    pub q: Q,
}

/// The parses of `q` after one parse `x` of `p`, with `x`'s function applied.
pub open spec fn apply_after<Sym, B, G: Applicable<B>, Q: Combinator<Sym, Res = B>>(
    q: Q,
    x: (G, Seq<Sym>),
) -> Seq<(G::Output, Seq<Sym>)> {
    q.spec_parse(x.1).map_values(
        |y: (Q::Model, Seq<Sym>)| (apply_to_model::<Sym, B, G, Q>(x.0, y.0), y.1),
    )
}

impl<Sym, G: Applicable<Q::Res>, P: Combinator<Sym, Res = G, Model = G>, Q: Combinator<Sym>> Combinator<
    Sym,
> for Applicative<P, Q> {
    type Res = G::Output;

    type Model = G::Output;

    open spec fn model(r: G::Output) -> G::Output {
        r
    }

    open spec fn spec_parse(&self, input: Seq<Sym>) -> Seq<(G::Output, Seq<Sym>)> {
        concat_map(
            self.p.spec_parse(input),
            |x: (G, Seq<Sym>)| apply_after::<Sym, Q::Res, G, Q>(self.q, x),
        )
    }

    open spec fn well_formed(&self) -> bool {
        &&& self.p.well_formed()
        &&& self.q.well_formed()
        &&& forall|g: G| #[trigger] P::model(g) == g
        &&& forall|input: Seq<Sym>, i: int|
            0 <= i < self.p.spec_parse(input).len() ==> fits::<Sym, Q::Res, G, Q>(
                #[trigger] self.p.spec_parse(input)[i].0,
            )
    }

    open spec fn runs_on(&self, input: Seq<Sym>) -> bool {
        &&& self.p.runs_on(input)
        &&& forall|i: int|
            0 <= i < self.p.spec_parse(input).len() ==> self.q.runs_on(
                #[trigger] self.p.spec_parse(input)[i].1,
            )
    }

    proof fn lemma_suffix(&self, input: Seq<Sym>) {
        let f = |x: (G, Seq<Sym>)| apply_after::<Sym, Q::Res, G, Q>(self.q, x);
        let ps = self.p.spec_parse(input);
        self.p.lemma_suffix(input);
        assert forall|k: int| 0 <= k < self.spec_parse(input).len() implies is_suffix(
            #[trigger] self.spec_parse(input)[k].1,
            input,
        ) by {
            lemma_concat_map_member(ps, f, k);
            let (i, j) = choose|i: int, j: int|
                0 <= i < ps.len() && 0 <= j < f(ps[i]).len() && concat_map(ps, f)[k]
                    == #[trigger] f(ps[i])[j];
            self.q.lemma_suffix(ps[i].1);
            assert(f(ps[i])[j].1 == self.q.spec_parse(ps[i].1)[j].1);
            assert(is_suffix(ps[i].1, input));
            let r = self.q.spec_parse(ps[i].1)[j].1;
            assert(is_suffix(r, ps[i].1));
            assert(input.skip(input.len() - ps[i].1.len()).skip(ps[i].1.len() - r.len())
                =~= input.skip(input.len() - r.len()));
        }
    }

    fn parse<'a>(&self, input: &'a [Sym]) -> (out: Vec<(G::Output, &'a [Sym])>) {
        let ghost f = |x: (G, Seq<Sym>)| apply_after::<Sym, Q::Res, G, Q>(self.q, x);
        let gs = self.p.parse(input);
        let ghost ps = self.p.spec_parse(input@);
        let n = gs.len();
        let mut out: Vec<(G::Output, &'a [Sym])> = Vec::new();
        let mut i: usize = 0;
        while i < n
            invariant
                self.well_formed(),
                self.runs_on(input@),
                n == gs@.len(),
                i <= n,
                ps == self.p.spec_parse(input@),
                f == (|x: (G, Seq<Sym>)| apply_after::<Sym, Q::Res, G, Q>(self.q, x)),
                outcomes(gs@, |r: G| P::model(r)) == ps,
                outcomes(out@, |r: G::Output| r) == concat_map(ps.take(i as int), f),
            decreases n - i,
        {
            let g = &gs[i].0;
            let ys = gs[i].1;
            proof {
                assert(ps[i as int] == (P::model(*g), ys@));
                assert(ps[i as int] == (*g, ys@));
                assert(fits::<Sym, Q::Res, G, Q>(ps[i as int].0));
                lemma_concat_map_take(ps, f, i as int);
            }
            let mut bs = self.q.parse(ys);
            let ghost all = bs@;
            let ghost front = out@;
            let ghost want = f(ps[i as int]);
            let m = bs.len();
            let mut j: usize = 0;
            while j < m
                invariant
                    m == all.len(),
                    j <= m,
                    bs@ == all.skip(j as int),
                    fits::<Sym, Q::Res, G, Q>(*g),
                    want == apply_after::<Sym, Q::Res, G, Q>(self.q, (*g, ys@)),
                    outcomes(all, |r: Q::Res| Q::model(r)) == self.q.spec_parse(ys@),
                    out@.len() == front.len() + j,
                    out@.subrange(0, front.len() as int) == front,
                    outcomes(out@.skip(front.len() as int), |r: G::Output| r) == want.take(j as int),
                decreases m - j,
            {
                let (b, zs) = bs.remove(0);
                proof {
                    assert(all[j as int] == (b, zs));
                    let m0 = Q::model(b);
                    let b2 = choose|b2: Q::Res| #[trigger] Q::model(b2) == m0;
                    assert(Q::model(b2) == Q::model(b));
                    assert(want[j as int] == (apply_to_model::<Sym, Q::Res, G, Q>(*g, m0), zs@));
                }
                let a = g.apply(b);
                let ghost before = out@;
                out.push((a, zs));
                j = j + 1;
                proof {
                    assert(bs@ =~= all.skip(j as int));
                    assert(out@.subrange(0, front.len() as int) =~= front);
                    assert(out@.skip(front.len() as int) =~= before.skip(front.len() as int).push((a, zs)));
                    lemma_outcomes_push(before.skip(front.len() as int), |r: G::Output| r, (a, zs));
                    assert(want.take(j as int) =~= want.take(j - 1).push(want[j - 1]));
                }
            }
            proof {
                assert(want.take(m as int) =~= want);
                assert(out@ =~= front + out@.skip(front.len() as int));
                lemma_outcomes_append(front, out@.skip(front.len() as int), |r: G::Output| r);
            }
            i = i + 1;
        }
        proof {
            assert(ps.take(n as int) =~= ps);
            assert(outcomes(out@, |r: G::Output| r) =~= outcomes(
                out@,
                |r: Self::Res| <Self as Combinator<Sym>>::model(r),
            ));
        }
        out
    }
}

/// The parses of `applicative(p, q)` on `s`: for each parse `(g, rest)` of
/// `p`, in order, and each parse `(b, rest2)` of `q` on `rest`, in order,
/// the parse `(g(b), rest2)`. There are no others: their number is the sum,
/// over all parses of `p`, of the number of parses of `q` on what each leaves.
pub proof fn lemma_applicative_parses<
    Sym,
    G: Applicable<Q::Res>,
    P: Combinator<Sym, Res = G, Model = G>,
    Q: Combinator<Sym>,
>(a: Applicative<P, Q>, s: Seq<Sym>)
    requires
        a.well_formed(),
    ensures
        a.spec_parse(s).len() == sum_lens(
            a.p.spec_parse(s),
            |x: (G, Seq<Sym>)| a.q.spec_parse(x.1),
            a.p.spec_parse(s).len() as int,
        ),
        forall|i: int, j: int, b: Q::Res|
            #![trigger a.q.spec_parse(a.p.spec_parse(s)[i].1)[j], Q::model(b)]
            0 <= i < a.p.spec_parse(s).len() && 0 <= j < a.q.spec_parse(a.p.spec_parse(s)[i].1).len()
                && Q::model(b) == a.q.spec_parse(a.p.spec_parse(s)[i].1)[j].0 ==> {
                let k = sum_lens(
                    a.p.spec_parse(s),
                    |x: (G, Seq<Sym>)| a.q.spec_parse(x.1),
                    i,
                ) + j;
                &&& k < a.spec_parse(s).len()
                &&& a.spec_parse(s)[k] == (
                    a.p.spec_parse(s)[i].0.spec_apply(b),
                    a.q.spec_parse(a.p.spec_parse(s)[i].1)[j].1,
                )
            },
{
    let ps = a.p.spec_parse(s);
    let qs = |x: (G, Seq<Sym>)| a.q.spec_parse(x.1);
    let f = |x: (G, Seq<Sym>)| apply_after::<Sym, Q::Res, G, Q>(a.q, x);
    assert forall|k: int| 0 <= k < ps.len() implies (#[trigger] f(ps[k])).len() == qs(ps[k]).len() by {
    }
    lemma_concat_map_len(ps, f);
    lemma_sum_lens_same(ps, f, qs, ps.len() as int);
    assert forall|i: int, j: int, b: Q::Res|
        #![trigger a.q.spec_parse(a.p.spec_parse(s)[i].1)[j], Q::model(b)]
        0 <= i < ps.len() && 0 <= j < a.q.spec_parse(ps[i].1).len() && Q::model(b)
            == a.q.spec_parse(ps[i].1)[j].0 implies {
            let k = sum_lens(ps, qs, i) + j;
            &&& k < a.spec_parse(s).len()
            &&& a.spec_parse(s)[k] == (ps[i].0.spec_apply(b), a.q.spec_parse(ps[i].1)[j].1)
        } by {
        lemma_sum_lens_same(ps, f, qs, i);
        lemma_concat_map_at(ps, f, i, j);
        let g = ps[i].0;
        assert(fits::<Sym, Q::Res, G, Q>(a.p.spec_parse(s)[i].0));
        let m = a.q.spec_parse(ps[i].1)[j].0;
        let b2 = choose|b2: Q::Res| #[trigger] Q::model(b2) == m;
        assert(Q::model(b2) == Q::model(b));
        assert(f(ps[i])[j] == (apply_to_model::<Sym, Q::Res, G, Q>(g, m), a.q.spec_parse(ps[i].1)[j].1));
    }
}

/// For every parse of `p`, which yields a function, every parse of `q` on
/// the rest, with the function applied to its value.
pub fn applicative<P, Q>(p: Parser<P>, q: Parser<Q>) -> (r: Parser<Applicative<P, Q>>)
    ensures
        r.parser == (Applicative { p: p.parser, q: q.parser }),
{
    Parser { parser: Applicative { p: p.parser, q: q.parser } }
}

/// `applicative_l(p, q)` has one parse for each parse of `applicative(p, q)`,
/// in order, leaving the same input, with the constant function of its value.
pub proof fn lemma_applicative_l_parses<
    Sym,
    G: Applicable<Q::Res>,
    P: Combinator<Sym, Res = G, Model = G>,
    Q: Combinator<Sym>,
>(a: ApplicativeL<P, Q>, s: Seq<Sym>)
    ensures
        a.spec_parse(s).len() == a.inner.spec_parse(s).len(),
        forall|i: int|
            0 <= i < a.inner.spec_parse(s).len() ==> #[trigger] a.spec_parse(s)[i] == (
                Constant(a.inner.spec_parse(s)[i].0),
                a.inner.spec_parse(s)[i].1,
            ),
{
}

/// The parses of `applicative(p, q)`, each value turned into the constant
/// function that gives it back.
pub struct ApplicativeL<P, Q> {
    pub inner: Applicative<P, Q>,
}

impl<Sym, G: Applicable<Q::Res>, P: Combinator<Sym, Res = G, Model = G>, Q: Combinator<Sym>> Combinator<
    Sym,
> for ApplicativeL<P, Q> {
    type Res = Constant<G::Output>;

    type Model = Constant<G::Output>;

    open spec fn model(r: Constant<G::Output>) -> Constant<G::Output> {
        r
    }

    open spec fn spec_parse(&self, input: Seq<Sym>) -> Seq<(Constant<G::Output>, Seq<Sym>)> {
        self.inner.spec_parse(input).map_values(
            |x: (G::Output, Seq<Sym>)| (Constant(x.0), x.1),
        )
    }

    open spec fn well_formed(&self) -> bool {
        self.inner.well_formed()
    }

    open spec fn runs_on(&self, input: Seq<Sym>) -> bool {
        self.inner.runs_on(input)
    }

    proof fn lemma_suffix(&self, input: Seq<Sym>) {
        self.inner.lemma_suffix(input);
        assert forall|i: int| 0 <= i < self.spec_parse(input).len() implies is_suffix(
            #[trigger] self.spec_parse(input)[i].1,
            input,
        ) by {
            assert(self.spec_parse(input)[i].1 == self.inner.spec_parse(input)[i].1);
        }
    }

    fn parse<'a>(&self, input: &'a [Sym]) -> (out: Vec<(Constant<G::Output>, &'a [Sym])>) {
        let mut inner = self.inner.parse(input);
        let ghost all = inner@;
        let n = inner.len();
        let mut out: Vec<(Constant<G::Output>, &'a [Sym])> = Vec::new();
        let mut i: usize = 0;
        while i < n
            invariant
                n == all.len(),
                i <= n,
                inner@ == all.skip(i as int),
                outcomes(all, |r: G::Output| r) == self.inner.spec_parse(input@),
                outcomes(out@, |r: Constant<G::Output>| r) == self.spec_parse(input@).take(
                    i as int,
                ),
            decreases n - i,
        {
            let (a, rest) = inner.remove(0);
            proof {
                assert(all[i as int] == (a, rest));
                assert(self.spec_parse(input@)[i as int] == (Constant(a), rest@));
                lemma_outcomes_push(out@, |r: Constant<G::Output>| r, (Constant(a), rest));
                assert(self.spec_parse(input@).take(i + 1) =~= self.spec_parse(input@).take(
                    i as int,
                ).push(self.spec_parse(input@)[i as int]));
            }
            out.push((Constant(a), rest));
            i = i + 1;
            proof {
                assert(inner@ =~= all.skip(i as int));
            }
        }
        proof {
            assert(self.spec_parse(input@).take(n as int) =~= self.spec_parse(input@));
            assert(outcomes(out@, |r: Constant<G::Output>| r) =~= outcomes(
                out@,
                |r: Self::Res| <Self as Combinator<Sym>>::model(r),
            ));
        }
        out
    }
}

/// The parses of `applicative(p, q)`, each value turned into the constant
/// function that gives it back.
pub fn applicative_l<P, Q>(p: Parser<P>, q: Parser<Q>) -> (r: Parser<ApplicativeL<P, Q>>)
    ensures
        r.parser == (ApplicativeL { inner: Applicative { p: p.parser, q: q.parser } }),
{
    Parser { parser: ApplicativeL { inner: Applicative { p: p.parser, q: q.parser } } }
}

} // verus!
