use vstd::prelude::*;

use crate::combinators::{same_models, First};
use crate::parser::{
    clones_exactly, concat_map, copy_of, is_suffix, lemma_concat_map_at, lemma_concat_map_len,
    lemma_outcomes_append, lemma_outcomes_push, lemma_sum_lens_mono, lemma_sum_lens_same,
    outcomes, sum_lens, AnySymbol, Combinator, Parser, Symbol, SymbolEq,
};

verus! {

/// No parse of `p` leaves the input it was given untouched.
pub open spec fn consumes<Sym, P: Combinator<Sym>>(p: P) -> bool {
    forall|s: Seq<Sym>, i: int|
        0 <= i < p.spec_parse(s).len() ==> (#[trigger] p.spec_parse(s)[i]).1.len() < s.len()
}

/// Every parse of `symbol(a)` takes one symbol.
pub proof fn lemma_symbol_consumes<Sym: SymbolEq>(p: Symbol<Sym>)
    ensures
        consumes(p),
{
}

/// Every parse of `any_symbol()` takes one symbol.
pub proof fn lemma_any_symbol_consumes<Sym: Clone>()
    ensures
        consumes::<Sym, AnySymbol>(AnySymbol),
{
}

/// `many(p)` returns on `s`: `p` returns on `s`, and each parse of `p`
/// there consumes something and leaves an input on which `many(p)` returns.
pub open spec fn many_runs<Sym, P: Combinator<Sym>>(p: P, s: Seq<Sym>) -> bool
    decreases s.len(),
{
    &&& p.runs_on(s)
    &&& forall|i: int|
        0 <= i < p.spec_parse(s).len() ==> {
            &&& (#[trigger] p.spec_parse(s)[i]).1.len() < s.len()
            &&& many_runs(p, p.spec_parse(s)[i].1)
        }
}

/// A parser that consumes something with every parse and returns on every
/// input can be repeated on every input.
pub proof fn lemma_many_runs<Sym, P: Combinator<Sym>>(p: P, s: Seq<Sym>)
    requires
        consumes(p),
        forall|t: Seq<Sym>| #[trigger] p.runs_on(t),
    ensures
        many_runs(p, s),
    decreases s.len(),
{
    assert forall|i: int| 0 <= i < p.spec_parse(s).len() implies {
        &&& (#[trigger] p.spec_parse(s)[i]).1.len() < s.len()
        &&& many_runs(p, p.spec_parse(s)[i].1)
    } by {
        lemma_many_runs(p, p.spec_parse(s)[i].1);
    }
}

/// The models of a list of values.
pub open spec fn models_of<Sym, P: Combinator<Sym>>(v: Seq<P::Res>) -> Seq<P::Model> {
    v.map_values(|x: P::Res| P::model(x))
}

/// Parses of `many(p)` on `s`: where `p` has no parse, one parse of no
/// values; otherwise every parse of `p` followed by every parse of
/// `many(p)` on what it leaves.
pub open spec fn many_parse<Sym, P: Combinator<Sym>>(p: P, s: Seq<Sym>) -> Seq<
    (Seq<P::Model>, Seq<Sym>),
>
    decreases s.len(), 1int, 0int,
{
    let ps = p.spec_parse(s);
    if ps.len() == 0 {
        seq![(Seq::empty(), s)]
    } else {
        many_after(p, ps, s)
    }
}

/// For each parse `x` in `xs`, made on `s`, every parse of `many(p)` on
/// what `x` leaves, with `x`'s value in front. A parse that consumes
/// nothing, where running `many(p)` would not return, adds none.
pub open spec fn many_after<Sym, P: Combinator<Sym>>(
    p: P,
    xs: Seq<(P::Model, Seq<Sym>)>,
    s: Seq<Sym>,
) -> Seq<(Seq<P::Model>, Seq<Sym>)>
    decreases s.len(), 0int, xs.len(),
{
    if xs.len() == 0 {
        Seq::empty()
    } else {
        let x = xs.last();
        many_after(p, xs.drop_last(), s) + if x.1.len() < s.len() {
            many_parse(p, x.1).map_values(
                |y: (Seq<P::Model>, Seq<Sym>)| (seq![x.0] + y.0, y.1),
            )
        } else {
            Seq::empty()
        }
    }
}

proof fn lemma_many_after_take<Sym, P: Combinator<Sym>>(
    p: P,
    xs: Seq<(P::Model, Seq<Sym>)>,
    s: Seq<Sym>,
    i: int,
)
    requires
        0 <= i < xs.len(),
    ensures
        many_after(p, xs.take(i + 1), s) == many_after(p, xs.take(i), s) + if xs[i].1.len()
            < s.len() {
            many_parse(p, xs[i].1).map_values(
                |y: (Seq<P::Model>, Seq<Sym>)| (seq![xs[i].0] + y.0, y.1),
            )
        } else {
            Seq::empty()
        },
{
    assert(xs.take(i + 1).drop_last() =~= xs.take(i));
    assert(xs.take(i + 1).last() == xs[i]);
}

/// The results of `many`, each list of values read as the list of models.
pub open spec fn list_outcomes<'a, Sym, P: Combinator<Sym>>(
    out: Seq<(Vec<P::Res>, &'a [Sym])>,
) -> Seq<(Seq<P::Model>, Seq<Sym>)> {
    out.map_values(|x: (Vec<P::Res>, &'a [Sym])| (models_of::<Sym, P>(x.0@), x.1@))
}

/// Runs `many(p)` on `input`.
fn many_exec<'a, Sym, R: Clone, P: Combinator<Sym, Res = R>>(p: &P, input: &'a [Sym]) -> (out: Vec<
    (Vec<P::Res>, &'a [Sym]),
>)
    requires
        p.well_formed(),
        many_runs(*p, input@),
        clones_exactly::<R>(),
    ensures
        list_outcomes::<Sym, P>(out@) == many_parse(*p, input@),
    decreases input@.len(), 1int,
{
    let ps = p.parse(input);
    if ps.len() == 0 {
        let empty: Vec<R> = Vec::new();
        let out = vec![(empty, input)];
        proof {
            assert(p.spec_parse(input@).len() == 0);
            assert(models_of::<Sym, P>(empty@) =~= Seq::<P::Model>::empty());
            assert(list_outcomes::<Sym, P>(out@) =~= many_parse(*p, input@));
        }
        out
    } else {
        many_after_exec(p, ps, input)
    }
}

/// For each parse in `ps`, made on `input`, runs `many(p)` on what it leaves
/// and puts its value in front of each result.
fn many_after_exec<'a, Sym, R: Clone, P: Combinator<Sym, Res = R>>(
    p: &P,
    ps: Vec<(P::Res, &'a [Sym])>,
    input: &'a [Sym],
) -> (out: Vec<(Vec<P::Res>, &'a [Sym])>)
    requires
        p.well_formed(),
        many_runs(*p, input@),
        clones_exactly::<R>(),
        outcomes(ps@, |r: P::Res| P::model(r)) == p.spec_parse(input@),
    ensures
        list_outcomes::<Sym, P>(out@) == many_after(*p, p.spec_parse(input@), input@),
    decreases input@.len(), 0int,
{
    let ghost xs = p.spec_parse(input@);
    let n = ps.len();
    let mut out: Vec<(Vec<P::Res>, &'a [Sym])> = Vec::new();
    let mut i: usize = 0;
    while i < n
        invariant
            p.well_formed(),
            many_runs(*p, input@),
            clones_exactly::<R>(),
            n == ps@.len(),
            i <= n,
            xs == p.spec_parse(input@),
            outcomes(ps@, |r: P::Res| P::model(r)) == xs,
            list_outcomes::<Sym, P>(out@) == many_after(*p, xs.take(i as int), input@),
        decreases n - i,
    {
        let x = &ps[i].0;
        let rest = ps[i].1;
        proof {
            assert(xs[i as int] == (P::model(*x), rest@));
            assert(rest@.len() < input@.len());
            lemma_many_after_take(*p, xs, input@, i as int);
        }
        let mut subs = many_exec(p, rest);
        let ghost all = subs@;
        let ghost front = out@;
        let ghost want = many_parse(*p, rest@).map_values(
            |y: (Seq<P::Model>, Seq<Sym>)| (seq![P::model(*x)] + y.0, y.1),
        );
        let m = subs.len();
        let mut j: usize = 0;
        while j < m
            invariant
                clones_exactly::<R>(),
                m == all.len(),
                j <= m,
                subs@ == all.skip(j as int),
                list_outcomes::<Sym, P>(all) == many_parse(*p, rest@),
                want == many_parse(*p, rest@).map_values(
                    |y: (Seq<P::Model>, Seq<Sym>)| (seq![P::model(*x)] + y.0, y.1),
                ),
                out@.len() == front.len() + j,
                out@.subrange(0, front.len() as int) == front,
                list_outcomes::<Sym, P>(out@.skip(front.len() as int)) == want.take(j as int),
            decreases m - j,
        {
            let (mut ys, r2) = subs.remove(0);
            proof {
                assert(all[j as int].0@ == ys@ && all[j as int].1 == r2);
            }
            let mut v: Vec<P::Res> = Vec::new();
            v.push(copy_of(x));
            let ghost ys0 = ys@;
            v.append(&mut ys);
            proof {
                assert(v@ =~= seq![*x] + ys0);
                assert(models_of::<Sym, P>(v@) =~= seq![P::model(*x)] + models_of::<Sym, P>(ys0));
                assert(want[j as int] == (models_of::<Sym, P>(v@), r2@));
            }
            let ghost before = out@;
            out.push((v, r2));
            j = j + 1;
            proof {
                assert(subs@ =~= all.skip(j as int));
                assert(out@.subrange(0, front.len() as int) =~= front);
                assert(out@.skip(front.len() as int) =~= before.skip(front.len() as int).push(
                    (v, r2),
                ));
                assert(list_outcomes::<Sym, P>(out@.skip(front.len() as int)) =~= list_outcomes::<
                    Sym,
                    P,
                >(before.skip(front.len() as int)).push((models_of::<Sym, P>(v@), r2@)));
                assert(want.take(j as int) =~= want.take(j - 1).push(want[j - 1]));
            }
        }
        proof {
            assert(want.take(m as int) =~= want);
            assert(out@ =~= front + out@.skip(front.len() as int));
            assert(list_outcomes::<Sym, P>(out@) =~= list_outcomes::<Sym, P>(front)
                + list_outcomes::<Sym, P>(out@.skip(front.len() as int)));
        }
        i = i + 1;
    }
    proof {
        assert(xs.take(n as int) =~= xs);
    }
    out
}

/// Suffixes of suffixes are suffixes.
pub proof fn lemma_suffix_trans<Sym>(r: Seq<Sym>, t: Seq<Sym>, s: Seq<Sym>)
    requires
        is_suffix(r, t),
        is_suffix(t, s),
    ensures
        is_suffix(r, s),
{
    assert(s.skip(s.len() - t.len()).skip(t.len() - r.len()) =~= s.skip(s.len() - r.len()));
}

proof fn lemma_many_suffix<Sym, P: Combinator<Sym>>(p: P, s: Seq<Sym>)
    requires
        p.well_formed(),
    ensures
        forall|k: int|
            0 <= k < many_parse(p, s).len() ==> is_suffix(#[trigger] many_parse(p, s)[k].1, s),
    decreases s.len(), 1int, 0int,
{
    let ps = p.spec_parse(s);
    if ps.len() == 0 {
        assert(s.skip(0) =~= s);
        assert(many_parse(p, s)[0].1 == s);
    } else {
        p.lemma_suffix(s);
        lemma_many_after_suffix(p, ps, s);
        assert(many_parse(p, s) == many_after(p, ps, s));
    }
}

proof fn lemma_many_after_suffix<Sym, P: Combinator<Sym>>(
    p: P,
    xs: Seq<(P::Model, Seq<Sym>)>,
    s: Seq<Sym>,
)
    requires
        p.well_formed(),
        forall|i: int| 0 <= i < xs.len() ==> is_suffix(#[trigger] xs[i].1, s),
    ensures
        forall|k: int|
            0 <= k < many_after(p, xs, s).len() ==> is_suffix(
                #[trigger] many_after(p, xs, s)[k].1,
                s,
            ),
    decreases s.len(), 0int, xs.len(),
{
    if xs.len() > 0 {
        let x = xs.last();
        assert(is_suffix(x.1, s));
        lemma_many_after_suffix(p, xs.drop_last(), s);
        let front = many_after(p, xs.drop_last(), s);
        if x.1.len() < s.len() {
            lemma_many_suffix(p, x.1);
            let back = many_parse(p, x.1).map_values(
                |y: (Seq<P::Model>, Seq<Sym>)| (seq![x.0] + y.0, y.1),
            );
            assert forall|k: int| 0 <= k < many_after(p, xs, s).len() implies is_suffix(
                #[trigger] many_after(p, xs, s)[k].1,
                s,
            ) by {
                if k >= front.len() {
                    let r = many_parse(p, x.1)[k - front.len()].1;
                    assert(many_after(p, xs, s)[k].1 == r);
                    lemma_suffix_trans(r, x.1, s);
                } else {
                    assert(many_after(p, xs, s)[k] == front[k]);
                }
            }
        } else {
            assert(many_after(p, xs, s) =~= front);
        }
    }
}

/// `many(p)` goes as far as it can: `p` has no parse of the input left by
/// any parse of `many(p)`.
pub proof fn lemma_many_maximal<Sym, P: Combinator<Sym>>(p: P, s: Seq<Sym>)
    ensures
        forall|k: int|
            0 <= k < many_parse(p, s).len() ==> p.spec_parse(
                (#[trigger] many_parse(p, s)[k]).1,
            ).len() == 0,
    decreases s.len(), 1int, 0int,
{
    let ps = p.spec_parse(s);
    if ps.len() == 0 {
        assert(many_parse(p, s)[0].1 == s);
    } else {
        lemma_many_after_maximal(p, ps, s);
        assert(many_parse(p, s) == many_after(p, ps, s));
    }
}

proof fn lemma_many_after_maximal<Sym, P: Combinator<Sym>>(
    p: P,
    xs: Seq<(P::Model, Seq<Sym>)>,
    s: Seq<Sym>,
)
    ensures
        forall|k: int|
            0 <= k < many_after(p, xs, s).len() ==> p.spec_parse(
                (#[trigger] many_after(p, xs, s)[k]).1,
            ).len() == 0,
    decreases s.len(), 0int, xs.len(),
{
    if xs.len() > 0 {
        let x = xs.last();
        lemma_many_after_maximal(p, xs.drop_last(), s);
        let front = many_after(p, xs.drop_last(), s);
        if x.1.len() < s.len() {
            lemma_many_maximal(p, x.1);
            assert forall|k: int| 0 <= k < many_after(p, xs, s).len() implies p.spec_parse(
                (#[trigger] many_after(p, xs, s)[k]).1,
            ).len() == 0 by {
                if k >= front.len() {
                    assert(many_after(p, xs, s)[k].1 == many_parse(p, x.1)[k - front.len()].1);
                } else {
                    assert(many_after(p, xs, s)[k] == front[k]);
                }
            }
        } else {
            assert(many_after(p, xs, s) =~= front);
        }
    }
}

/// `many1(p)` has no parse where `p` has none, and otherwise parses as
/// `many(p)`.
pub proof fn lemma_many1_many<Sym, R: Clone, P: Combinator<Sym, Res = R>>(p: P, s: Seq<Sym>)
    ensures
        (Many1 { p }).spec_parse(s) == if p.spec_parse(s).len() == 0 {
            Seq::empty()
        } else {
            (Many { p }).spec_parse(s)
        },
{
}

/// The parses of `p` as often in a row as it goes: where `p` fails, one
/// parse of no values; otherwise each parse of `p` followed by `many(p)`.
pub struct Many<P> {
    pub p: P,
}

impl<Sym, R: Clone, P: Combinator<Sym, Res = R>> Combinator<Sym> for Many<P> {
    type Res = Vec<R>;

    type Model = Seq<P::Model>;

    open spec fn model(r: Vec<R>) -> Seq<P::Model> {
        models_of::<Sym, P>(r@)
    }

    open spec fn spec_parse(&self, input: Seq<Sym>) -> Seq<(Seq<P::Model>, Seq<Sym>)> {
        many_parse(self.p, input)
    }

    open spec fn well_formed(&self) -> bool {
        self.p.well_formed() && clones_exactly::<R>()
    }

    open spec fn runs_on(&self, input: Seq<Sym>) -> bool {
        many_runs(self.p, input)
    }

    proof fn lemma_suffix(&self, input: Seq<Sym>) {
        lemma_many_suffix(self.p, input);
    }

    fn parse<'a>(&self, input: &'a [Sym]) -> (out: Vec<(Vec<R>, &'a [Sym])>) {
        let out = many_exec(&self.p, input);
        proof {
            assert(outcomes(out@, |r: Self::Res| <Self as Combinator<Sym>>::model(r))
                =~= list_outcomes::<Sym, P>(out@));
        }
        out
    }
}

/// The parses of `p` as often in a row as it goes, at least once.
pub struct Many1<P> {
    pub p: P,
}

impl<Sym, R: Clone, P: Combinator<Sym, Res = R>> Combinator<Sym> for Many1<P> {
    type Res = Vec<R>;

    type Model = Seq<P::Model>;

    open spec fn model(r: Vec<R>) -> Seq<P::Model> {
        models_of::<Sym, P>(r@)
    }

    open spec fn spec_parse(&self, input: Seq<Sym>) -> Seq<(Seq<P::Model>, Seq<Sym>)> {
        many_after(self.p, self.p.spec_parse(input), input)
    }

    open spec fn well_formed(&self) -> bool {
        self.p.well_formed() && clones_exactly::<R>()
    }

    open spec fn runs_on(&self, input: Seq<Sym>) -> bool {
        many_runs(self.p, input)
    }

    proof fn lemma_suffix(&self, input: Seq<Sym>) {
        self.p.lemma_suffix(input);
        lemma_many_after_suffix(self.p, self.p.spec_parse(input), input);
    }

    fn parse<'a>(&self, input: &'a [Sym]) -> (out: Vec<(Vec<R>, &'a [Sym])>) {
        let ps = self.p.parse(input);
        let out = many_after_exec(&self.p, ps, input);
        proof {
            assert(outcomes(out@, |r: Self::Res| <Self as Combinator<Sym>>::model(r))
                =~= list_outcomes::<Sym, P>(out@));
        }
        out
    }
}

/// The parses of `many(p)` on what a parse leaves, as a function of the parse.
pub open spec fn many_on<Sym, R: Clone, P: Combinator<Sym, Res = R>>(p: P) -> spec_fn(
    (P::Model, Seq<Sym>),
) -> Seq<(Seq<P::Model>, Seq<Sym>)> {
    |x: (P::Model, Seq<Sym>)| (Many { p }).spec_parse(x.1)
}

/// The parses of `many(p)` after a parse `x` made on `s`, with `x`'s value
/// in front; none where `x` consumes nothing.
spec fn many_piece<Sym, P: Combinator<Sym>>(p: P, s: Seq<Sym>) -> spec_fn(
    (P::Model, Seq<Sym>),
) -> Seq<(Seq<P::Model>, Seq<Sym>)> {
    |x: (P::Model, Seq<Sym>)|
        if x.1.len() < s.len() {
            many_parse(p, x.1).map_values(|y: (Seq<P::Model>, Seq<Sym>)| (seq![x.0] + y.0, y.1))
        } else {
            Seq::empty()
        }
}

proof fn lemma_many_after_concat<Sym, P: Combinator<Sym>>(
    p: P,
    xs: Seq<(P::Model, Seq<Sym>)>,
    s: Seq<Sym>,
)
    ensures
        many_after(p, xs, s) == concat_map(xs, many_piece(p, s)),
    decreases xs.len(),
{
    if xs.len() > 0 {
        lemma_many_after_concat(p, xs.drop_last(), s);
    }
}

/// `many(p)` on `s`, where every parse of `p` consumes something: where `p`
/// has no parse, one parse of no values that consumes nothing; otherwise,
/// for each parse `(v, rest)` of `p` in order and each parse `(vs, rest2)`
/// of `many(p)` on `rest` in order, the parse `(v` then `vs, rest2)`, and no
/// others.
pub proof fn lemma_many_parses<Sym, R: Clone, P: Combinator<Sym, Res = R>>(p: P, s: Seq<Sym>)
    requires
        forall|i: int|
            0 <= i < p.spec_parse(s).len() ==> (#[trigger] p.spec_parse(s)[i]).1.len() < s.len(),
    ensures
        p.spec_parse(s).len() == 0 ==> (Many { p }).spec_parse(s) == seq![
            (Seq::<P::Model>::empty(), s),
        ],
        p.spec_parse(s).len() > 0 ==> (Many { p }).spec_parse(s).len() == sum_lens(
            p.spec_parse(s),
            many_on(p),
            p.spec_parse(s).len() as int,
        ),
        forall|i: int|
            0 <= i < p.spec_parse(s).len() ==> #[trigger] sum_lens(p.spec_parse(s), many_on(p), i)
                + (Many { p }).spec_parse(p.spec_parse(s)[i].1).len() <= (Many {
                p,
            }).spec_parse(s).len(),
        forall|i: int, j: int|
            0 <= i < p.spec_parse(s).len() && 0 <= j < (Many { p }).spec_parse(
                p.spec_parse(s)[i].1,
            ).len() ==> (Many { p }).spec_parse(s)[sum_lens(p.spec_parse(s), many_on(p), i) + j]
                == (
                seq![p.spec_parse(s)[i].0] + (#[trigger] (Many { p }).spec_parse(
                    p.spec_parse(s)[i].1,
                )[j]).0,
                (Many { p }).spec_parse(p.spec_parse(s)[i].1)[j].1,
            ),
{
    let ps = p.spec_parse(s);
    let g = many_piece(p, s);
    let h = many_on(p);
    if ps.len() > 0 {
        lemma_many_after_concat(p, ps, s);
        lemma_concat_map_len(ps, g);
        assert forall|k: int| 0 <= k < ps.len() implies (#[trigger] g(ps[k])).len() == h(
            ps[k],
        ).len() by {
        }
        assert forall|i: int| 0 <= i < ps.len() implies #[trigger] sum_lens(ps, h, i) + (Many {
            p,
        }).spec_parse(ps[i].1).len() <= (Many { p }).spec_parse(s).len() by {
            lemma_sum_lens_same(ps, g, h, i + 1);
            lemma_sum_lens_same(ps, g, h, ps.len() as int);
            lemma_sum_lens_mono(ps, g, i + 1, ps.len() as int);
        }
        lemma_sum_lens_same(ps, g, h, ps.len() as int);
        assert forall|i: int, j: int|
            0 <= i < ps.len() && 0 <= j < (Many { p }).spec_parse(ps[i].1).len() implies (Many {
                p,
            }).spec_parse(s)[sum_lens(ps, h, i) + j] == (
                seq![ps[i].0] + (#[trigger] (Many { p }).spec_parse(ps[i].1)[j]).0,
                (Many { p }).spec_parse(ps[i].1)[j].1,
            ) by {
            lemma_sum_lens_same(ps, g, h, i);
            lemma_concat_map_at(ps, g, i, j);
        }
    }
}

/// Applies `p` as often in a row as it goes.
pub fn many<P>(p: Parser<P>) -> (r: Parser<Many<P>>)
    ensures
        r.parser == (Many { p: p.parser }),
{
    Parser { parser: Many { p: p.parser } }
}

/// Applies `p` as often in a row as it goes, at least once.
pub fn many1<P>(p: Parser<P>) -> (r: Parser<Many1<P>>)
    ensures
        r.parser == (Many1 { p: p.parser }),
{
    Parser { parser: Many1 { p: p.parser } }
}

/// The first parse of `many(p)`.
pub fn greedy<P>(p: Parser<P>) -> (r: Parser<First<Many<P>>>)
    ensures
        r.parser == (First { p: Many { p: p.parser } }),
{
    Parser { parser: First { p: Many { p: p.parser } } }
}

/// The first parse of `many1(p)`.
pub fn greedy1<P>(p: Parser<P>) -> (r: Parser<First<Many1<P>>>)
    ensures
        r.parser == (First { p: Many1 { p: p.parser } }),
{
    Parser { parser: First { p: Many1 { p: p.parser } } }
}

/// Parses of `greedy_until(p, q)` on `s`: where `q` has parses, each of
/// them as a one-value list; otherwise every parse of `p` followed by every
/// parse of `greedy_until(p, q)` on what it leaves.
pub open spec fn until_parse<Sym, P: Combinator<Sym>, Q: Combinator<Sym, Model = P::Model>>(
    p: P,
    q: Q,
    s: Seq<Sym>,
) -> Seq<(Seq<P::Model>, Seq<Sym>)>
    decreases s.len(), 1int, 0int,
{
    let qs = q.spec_parse(s);
    if qs.len() > 0 {
        qs.map_values(|x: (P::Model, Seq<Sym>)| (seq![x.0], x.1))
    } else {
        until_after(p, q, p.spec_parse(s), s)
    }
}

/// For each parse `x` in `xs`, made on `s`, every parse of
/// `greedy_until(p, q)` on what `x` leaves, with `x`'s value in front. A
/// parse that consumes nothing, where running would not return, adds none.
pub open spec fn until_after<Sym, P: Combinator<Sym>, Q: Combinator<Sym, Model = P::Model>>(
    p: P,
    q: Q,
    xs: Seq<(P::Model, Seq<Sym>)>,
    s: Seq<Sym>,
) -> Seq<(Seq<P::Model>, Seq<Sym>)>
    decreases s.len(), 0int, xs.len(),
{
    if xs.len() == 0 {
        Seq::empty()
    } else {
        let x = xs.last();
        until_after(p, q, xs.drop_last(), s) + if x.1.len() < s.len() {
            until_parse(p, q, x.1).map_values(
                |y: (Seq<P::Model>, Seq<Sym>)| (seq![x.0] + y.0, y.1),
            )
        } else {
            Seq::empty()
        }
    }
}

proof fn lemma_until_after_take<Sym, P: Combinator<Sym>, Q: Combinator<Sym, Model = P::Model>>(
    p: P,
    q: Q,
    xs: Seq<(P::Model, Seq<Sym>)>,
    s: Seq<Sym>,
    i: int,
)
    requires
        0 <= i < xs.len(),
    ensures
        until_after(p, q, xs.take(i + 1), s) == until_after(p, q, xs.take(i), s) + if xs[i].1.len()
            < s.len() {
            until_parse(p, q, xs[i].1).map_values(
                |y: (Seq<P::Model>, Seq<Sym>)| (seq![xs[i].0] + y.0, y.1),
            )
        } else {
            Seq::empty()
        },
{
    assert(xs.take(i + 1).drop_last() =~= xs.take(i));
    assert(xs.take(i + 1).last() == xs[i]);
}

/// `greedy_until(p, q)` returns on `s`: `q` returns on `s`, and where it
/// has no parse, `p` returns on `s` and each parse of `p` there consumes
/// something and leaves an input on which `greedy_until(p, q)` returns.
pub open spec fn until_runs<Sym, P: Combinator<Sym>, Q: Combinator<Sym>>(p: P, q: Q, s: Seq<Sym>) -> bool
    decreases s.len(),
{
    &&& q.runs_on(s)
    &&& q.spec_parse(s).len() == 0 ==> {
        &&& p.runs_on(s)
        &&& forall|i: int|
            0 <= i < p.spec_parse(s).len() ==> {
                &&& (#[trigger] p.spec_parse(s)[i]).1.len() < s.len()
                &&& until_runs(p, q, p.spec_parse(s)[i].1)
            }
    }
}

/// Where `p` consumes something with every parse and both parsers return on
/// every input, `greedy_until(p, q)` returns on every input.
pub proof fn lemma_until_runs<Sym, P: Combinator<Sym>, Q: Combinator<Sym>>(p: P, q: Q, s: Seq<Sym>)
    requires
        consumes(p),
        forall|t: Seq<Sym>| #[trigger] p.runs_on(t),
        forall|t: Seq<Sym>| #[trigger] q.runs_on(t),
    ensures
        until_runs(p, q, s),
    decreases s.len(),
{
    assert(q.runs_on(s));
    assert(p.runs_on(s));
    assert forall|i: int| 0 <= i < p.spec_parse(s).len() implies {
        &&& (#[trigger] p.spec_parse(s)[i]).1.len() < s.len()
        &&& until_runs(p, q, p.spec_parse(s)[i].1)
    } by {
        lemma_until_runs(p, q, p.spec_parse(s)[i].1);
    }
}

/// Runs `greedy_until(p, q)` on `input`.
fn until_exec<'a, Sym, R: Clone, P: Combinator<Sym, Res = R>, Q: Combinator<Sym, Res = R, Model = P::Model>>(
    p: &P,
    q: &Q,
    input: &'a [Sym],
) -> (out: Vec<(Vec<R>, &'a [Sym])>)
    requires
        p.well_formed(),
        q.well_formed(),
        same_models(*p, *q),
        until_runs(*p, *q, input@),
        clones_exactly::<R>(),
    ensures
        list_outcomes::<Sym, P>(out@) == until_parse(*p, *q, input@),
    decreases input@.len(), 1int,
{
    let mut qs = q.parse(input);
    if qs.len() > 0 {
        let ghost all = qs@;
        let ghost want = until_parse(*p, *q, input@);
        let n = qs.len();
        let mut out: Vec<(Vec<R>, &'a [Sym])> = Vec::new();
        let mut i: usize = 0;
        while i < n
            invariant
                same_models(*p, *q),
                n == all.len(),
                i <= n,
                qs@ == all.skip(i as int),
                outcomes(all, |r: R| Q::model(r)) == q.spec_parse(input@),
                q.spec_parse(input@).len() > 0,
                want == until_parse(*p, *q, input@),
                list_outcomes::<Sym, P>(out@) == want.take(i as int),
            decreases n - i,
        {
            let (e, rest) = qs.remove(0);
            let v = vec![e];
            proof {
                assert(all[i as int] == (e, rest));
                assert(Q::model(e) == P::model(e));
                assert(models_of::<Sym, P>(v@) =~= seq![P::model(e)]);
                assert(want[i as int] == (models_of::<Sym, P>(v@), rest@));
            }
            let ghost before = out@;
            out.push((v, rest));
            i = i + 1;
            proof {
                assert(qs@ =~= all.skip(i as int));
                assert(list_outcomes::<Sym, P>(out@) =~= list_outcomes::<Sym, P>(before).push(
                    (models_of::<Sym, P>(v@), rest@),
                ));
                assert(want.take(i as int) =~= want.take(i - 1).push(want[i - 1]));
            }
        }
        proof {
            assert(want.take(n as int) =~= want);
        }
        out
    } else {
        let ps = p.parse(input);
        until_after_exec(p, q, ps, input)
    }
}

/// For each parse in `ps`, made on `input`, runs `greedy_until(p, q)` on
/// what it leaves and puts its value in front of each result.
fn until_after_exec<'a, Sym, R: Clone, P: Combinator<Sym, Res = R>, Q: Combinator<Sym, Res = R, Model = P::Model>>(
    p: &P,
    q: &Q,
    ps: Vec<(R, &'a [Sym])>,
    input: &'a [Sym],
) -> (out: Vec<(Vec<R>, &'a [Sym])>)
    requires
        p.well_formed(),
        q.well_formed(),
        same_models(*p, *q),
        until_runs(*p, *q, input@),
        q.spec_parse(input@).len() == 0,
        clones_exactly::<R>(),
        outcomes(ps@, |r: R| P::model(r)) == p.spec_parse(input@),
    ensures
        list_outcomes::<Sym, P>(out@) == until_after(*p, *q, p.spec_parse(input@), input@),
    decreases input@.len(), 0int,
{
    let ghost xs = p.spec_parse(input@);
    let n = ps.len();
    let mut out: Vec<(Vec<R>, &'a [Sym])> = Vec::new();
    let mut i: usize = 0;
    while i < n
        invariant
            p.well_formed(),
            q.well_formed(),
            same_models(*p, *q),
            until_runs(*p, *q, input@),
            q.spec_parse(input@).len() == 0,
            clones_exactly::<R>(),
            n == ps@.len(),
            i <= n,
            xs == p.spec_parse(input@),
            outcomes(ps@, |r: R| P::model(r)) == xs,
            list_outcomes::<Sym, P>(out@) == until_after(*p, *q, xs.take(i as int), input@),
        decreases n - i,
    {
        let x = &ps[i].0;
        let rest = ps[i].1;
        proof {
            assert(xs[i as int] == (P::model(*x), rest@));
            assert(rest@.len() < input@.len());
            lemma_until_after_take(*p, *q, xs, input@, i as int);
        }
        let mut subs = until_exec(p, q, rest);
        let ghost all = subs@;
        let ghost front = out@;
        let ghost want = until_parse(*p, *q, rest@).map_values(
            |y: (Seq<P::Model>, Seq<Sym>)| (seq![P::model(*x)] + y.0, y.1),
        );
        let m = subs.len();
        let mut j: usize = 0;
        while j < m
            invariant
                clones_exactly::<R>(),
                m == all.len(),
                j <= m,
                subs@ == all.skip(j as int),
                list_outcomes::<Sym, P>(all) == until_parse(*p, *q, rest@),
                want == until_parse(*p, *q, rest@).map_values(
                    |y: (Seq<P::Model>, Seq<Sym>)| (seq![P::model(*x)] + y.0, y.1),
                ),
                out@.len() == front.len() + j,
                out@.subrange(0, front.len() as int) == front,
                list_outcomes::<Sym, P>(out@.skip(front.len() as int)) == want.take(j as int),
            decreases m - j,
        {
            let (mut ys, r2) = subs.remove(0);
            proof {
                assert(all[j as int].0@ == ys@ && all[j as int].1 == r2);
            }
            let mut v: Vec<R> = Vec::new();
            v.push(copy_of(x));
            let ghost ys0 = ys@;
            v.append(&mut ys);
            proof {
                assert(v@ =~= seq![*x] + ys0);
                assert(models_of::<Sym, P>(v@) =~= seq![P::model(*x)] + models_of::<Sym, P>(ys0));
                assert(want[j as int] == (models_of::<Sym, P>(v@), r2@));
            }
            let ghost before = out@;
            out.push((v, r2));
            j = j + 1;
            proof {
                assert(subs@ =~= all.skip(j as int));
                assert(out@.subrange(0, front.len() as int) =~= front);
                assert(out@.skip(front.len() as int) =~= before.skip(front.len() as int).push(
                    (v, r2),
                ));
                assert(list_outcomes::<Sym, P>(out@.skip(front.len() as int)) =~= list_outcomes::<
                    Sym,
                    P,
                >(before.skip(front.len() as int)).push((models_of::<Sym, P>(v@), r2@)));
                assert(want.take(j as int) =~= want.take(j - 1).push(want[j - 1]));
            }
        }
        proof {
            assert(want.take(m as int) =~= want);
            assert(out@ =~= front + out@.skip(front.len() as int));
            assert(list_outcomes::<Sym, P>(out@) =~= list_outcomes::<Sym, P>(front)
                + list_outcomes::<Sym, P>(out@.skip(front.len() as int)));
        }
        i = i + 1;
    }
    proof {
        assert(xs.take(n as int) =~= xs);
    }
    out
}

proof fn lemma_until_suffix<Sym, P: Combinator<Sym>, Q: Combinator<Sym, Model = P::Model>>(
    p: P,
    q: Q,
    s: Seq<Sym>,
)
    requires
        p.well_formed(),
        q.well_formed(),
    ensures
        forall|k: int|
            0 <= k < until_parse(p, q, s).len() ==> is_suffix(
                #[trigger] until_parse(p, q, s)[k].1,
                s,
            ),
    decreases s.len(), 1int, 0int,
{
    let qs = q.spec_parse(s);
    if qs.len() > 0 {
        q.lemma_suffix(s);
        assert forall|k: int| 0 <= k < until_parse(p, q, s).len() implies is_suffix(
            #[trigger] until_parse(p, q, s)[k].1,
            s,
        ) by {
            assert(until_parse(p, q, s)[k].1 == qs[k].1);
        }
    } else {
        p.lemma_suffix(s);
        lemma_until_after_suffix(p, q, p.spec_parse(s), s);
        assert(until_parse(p, q, s) == until_after(p, q, p.spec_parse(s), s));
    }
}

proof fn lemma_until_after_suffix<Sym, P: Combinator<Sym>, Q: Combinator<Sym, Model = P::Model>>(
    p: P,
    q: Q,
    xs: Seq<(P::Model, Seq<Sym>)>,
    s: Seq<Sym>,
)
    requires
        p.well_formed(),
        q.well_formed(),
        forall|i: int| 0 <= i < xs.len() ==> is_suffix(#[trigger] xs[i].1, s),
    ensures
        forall|k: int|
            0 <= k < until_after(p, q, xs, s).len() ==> is_suffix(
                #[trigger] until_after(p, q, xs, s)[k].1,
                s,
            ),
    decreases s.len(), 0int, xs.len(),
{
    if xs.len() > 0 {
        let x = xs.last();
        assert(is_suffix(x.1, s));
        lemma_until_after_suffix(p, q, xs.drop_last(), s);
        let front = until_after(p, q, xs.drop_last(), s);
        if x.1.len() < s.len() {
            lemma_until_suffix(p, q, x.1);
            assert forall|k: int| 0 <= k < until_after(p, q, xs, s).len() implies is_suffix(
                #[trigger] until_after(p, q, xs, s)[k].1,
                s,
            ) by {
                if k >= front.len() {
                    let r = until_parse(p, q, x.1)[k - front.len()].1;
                    assert(until_after(p, q, xs, s)[k].1 == r);
                    lemma_suffix_trans(r, x.1, s);
                } else {
                    assert(until_after(p, q, xs, s)[k] == front[k]);
                }
            }
        } else {
            assert(until_after(p, q, xs, s) =~= front);
        }
    }
}

/// Every parse of `greedy_until(p, q)` yields at least one value: that of
/// the parse of `q` it ends with.
pub proof fn lemma_until_nonempty<Sym, P: Combinator<Sym>, Q: Combinator<Sym, Model = P::Model>>(
    p: P,
    q: Q,
    s: Seq<Sym>,
)
    ensures
        forall|k: int|
            0 <= k < until_parse(p, q, s).len() ==> (#[trigger] until_parse(p, q, s)[k]).0.len()
                >= 1,
    decreases s.len(), 1int, 0int,
{
    let qs = q.spec_parse(s);
    if qs.len() > 0 {
        assert forall|k: int| 0 <= k < until_parse(p, q, s).len() implies (
        #[trigger] until_parse(p, q, s)[k]).0.len() >= 1 by {
            assert(until_parse(p, q, s)[k].0 == seq![qs[k].0]);
        }
    } else {
        lemma_until_after_nonempty(p, q, p.spec_parse(s), s);
        assert(until_parse(p, q, s) == until_after(p, q, p.spec_parse(s), s));
    }
}

proof fn lemma_until_after_nonempty<Sym, P: Combinator<Sym>, Q: Combinator<Sym, Model = P::Model>>(
    p: P,
    q: Q,
    xs: Seq<(P::Model, Seq<Sym>)>,
    s: Seq<Sym>,
)
    ensures
        forall|k: int|
            0 <= k < until_after(p, q, xs, s).len() ==> (#[trigger] until_after(
                p,
                q,
                xs,
                s,
            )[k]).0.len() >= 1,
    decreases s.len(), 0int, xs.len(),
{
    if xs.len() > 0 {
        let x = xs.last();
        lemma_until_after_nonempty(p, q, xs.drop_last(), s);
        let front = until_after(p, q, xs.drop_last(), s);
        if x.1.len() < s.len() {
            assert forall|k: int| 0 <= k < until_after(p, q, xs, s).len() implies (
            #[trigger] until_after(p, q, xs, s)[k]).0.len() >= 1 by {
                if k >= front.len() {
                    let y = until_parse(p, q, x.1)[k - front.len()];
                    assert(until_after(p, q, xs, s)[k].0 == seq![x.0] + y.0);
                } else {
                    assert(until_after(p, q, xs, s)[k] == front[k]);
                }
            }
        } else {
            assert(until_after(p, q, xs, s) =~= front);
        }
    }
}

/// Parses `p` again and again until `q` parses, and yields the values of
/// every `p` with that of `q` last.
pub struct GreedyUntil<P, Q> {
    pub p: P,
    pub q: Q,
}

impl<Sym, R: Clone, P: Combinator<Sym, Res = R>, Q: Combinator<Sym, Res = R, Model = P::Model>> Combinator<
    Sym,
> for GreedyUntil<P, Q> {
    type Res = Vec<R>;

    type Model = Seq<P::Model>;

    open spec fn model(r: Vec<R>) -> Seq<P::Model> {
        models_of::<Sym, P>(r@)
    }

    open spec fn spec_parse(&self, input: Seq<Sym>) -> Seq<(Seq<P::Model>, Seq<Sym>)> {
        until_parse(self.p, self.q, input)
    }

    open spec fn well_formed(&self) -> bool {
        &&& self.p.well_formed()
        &&& self.q.well_formed()
        &&& same_models(self.p, self.q)
        &&& clones_exactly::<R>()
    }

    open spec fn runs_on(&self, input: Seq<Sym>) -> bool {
        until_runs(self.p, self.q, input)
    }

    proof fn lemma_suffix(&self, input: Seq<Sym>) {
        lemma_until_suffix(self.p, self.q, input);
    }

    fn parse<'a>(&self, input: &'a [Sym]) -> (out: Vec<(Vec<R>, &'a [Sym])>) {
        let out = until_exec(&self.p, &self.q, input);
        proof {
            assert(outcomes(out@, |r: Self::Res| <Self as Combinator<Sym>>::model(r))
                =~= list_outcomes::<Sym, P>(out@));
        }
        out
    }
}

/// The parses of `greedy_until(p, q)` on what a parse leaves, as a function
/// of the parse.
pub open spec fn until_on<
    Sym,
    R: Clone,
    P: Combinator<Sym, Res = R>,
    Q: Combinator<Sym, Res = R, Model = P::Model>,
>(p: P, q: Q) -> spec_fn((P::Model, Seq<Sym>)) -> Seq<(Seq<P::Model>, Seq<Sym>)> {
    |x: (P::Model, Seq<Sym>)| (GreedyUntil { p, q }).spec_parse(x.1)
}

/// The parses of `greedy_until(p, q)` after a parse `x` of `p` made on `s`,
/// with `x`'s value in front; none where `x` consumes nothing.
spec fn until_piece<Sym, P: Combinator<Sym>, Q: Combinator<Sym, Model = P::Model>>(
    p: P,
    q: Q,
    s: Seq<Sym>,
) -> spec_fn((P::Model, Seq<Sym>)) -> Seq<(Seq<P::Model>, Seq<Sym>)> {
    |x: (P::Model, Seq<Sym>)|
        if x.1.len() < s.len() {
            until_parse(p, q, x.1).map_values(
                |y: (Seq<P::Model>, Seq<Sym>)| (seq![x.0] + y.0, y.1),
            )
        } else {
            Seq::empty()
        }
}

proof fn lemma_until_after_concat<Sym, P: Combinator<Sym>, Q: Combinator<Sym, Model = P::Model>>(
    p: P,
    q: Q,
    xs: Seq<(P::Model, Seq<Sym>)>,
    s: Seq<Sym>,
)
    ensures
        until_after(p, q, xs, s) == concat_map(xs, until_piece(p, q, s)),
    decreases xs.len(),
{
    if xs.len() > 0 {
        lemma_until_after_concat(p, q, xs.drop_last(), s);
    }
}

/// `greedy_until(p, q)` on `s`: where `q` has parses, each of them, in
/// order, as a list of its one value, and nothing else. Otherwise, where
/// every parse of `p` consumes something, for each parse `(v, rest)` of `p`
/// in order and each parse `(vs, rest2)` of `greedy_until(p, q)` on `rest`
/// in order, the parse `(v` then `vs, rest2)`, and no others.
pub proof fn lemma_greedy_until_parses<
    Sym,
    R: Clone,
    P: Combinator<Sym, Res = R>,
    Q: Combinator<Sym, Res = R, Model = P::Model>,
>(p: P, q: Q, s: Seq<Sym>)
    requires
        forall|i: int|
            0 <= i < p.spec_parse(s).len() ==> (#[trigger] p.spec_parse(s)[i]).1.len() < s.len(),
    ensures
        q.spec_parse(s).len() > 0 ==> (GreedyUntil { p, q }).spec_parse(s).len() == q.spec_parse(
            s,
        ).len(),
        q.spec_parse(s).len() > 0 ==> forall|i: int|
            0 <= i < q.spec_parse(s).len() ==> #[trigger] (GreedyUntil { p, q }).spec_parse(s)[i]
                == (seq![q.spec_parse(s)[i].0], q.spec_parse(s)[i].1),
        q.spec_parse(s).len() == 0 ==> (GreedyUntil { p, q }).spec_parse(s).len() == sum_lens(
            p.spec_parse(s),
            until_on(p, q),
            p.spec_parse(s).len() as int,
        ),
        q.spec_parse(s).len() == 0 ==> forall|i: int|
            0 <= i < p.spec_parse(s).len() ==> #[trigger] sum_lens(
                p.spec_parse(s),
                until_on(p, q),
                i,
            ) + (GreedyUntil { p, q }).spec_parse(p.spec_parse(s)[i].1).len() <= (GreedyUntil {
                p,
                q,
            }).spec_parse(s).len(),
        q.spec_parse(s).len() == 0 ==> forall|i: int, j: int|
            0 <= i < p.spec_parse(s).len() && 0 <= j < (GreedyUntil { p, q }).spec_parse(
                p.spec_parse(s)[i].1,
            ).len() ==> (GreedyUntil { p, q }).spec_parse(s)[sum_lens(
                p.spec_parse(s),
                until_on(p, q),
                i,
            ) + j] == (
                seq![p.spec_parse(s)[i].0] + (#[trigger] (GreedyUntil { p, q }).spec_parse(
                    p.spec_parse(s)[i].1,
                )[j]).0,
                (GreedyUntil { p, q }).spec_parse(p.spec_parse(s)[i].1)[j].1,
            ),
{
    let u = GreedyUntil { p, q };
    let ps = p.spec_parse(s);
    let g = until_piece(p, q, s);
    let h = until_on(p, q);
    if q.spec_parse(s).len() == 0 {
        lemma_until_after_concat(p, q, ps, s);
        lemma_concat_map_len(ps, g);
        assert forall|k: int| 0 <= k < ps.len() implies (#[trigger] g(ps[k])).len() == h(
            ps[k],
        ).len() by {
        }
        assert forall|i: int| 0 <= i < ps.len() implies #[trigger] sum_lens(ps, h, i)
            + u.spec_parse(ps[i].1).len() <= u.spec_parse(s).len() by {
            lemma_sum_lens_same(ps, g, h, i + 1);
            lemma_sum_lens_same(ps, g, h, ps.len() as int);
            lemma_sum_lens_mono(ps, g, i + 1, ps.len() as int);
        }
        lemma_sum_lens_same(ps, g, h, ps.len() as int);
        assert forall|i: int, j: int|
            0 <= i < ps.len() && 0 <= j < u.spec_parse(ps[i].1).len() implies u.spec_parse(
                s,
            )[sum_lens(ps, h, i) + j] == (
                seq![ps[i].0] + (#[trigger] u.spec_parse(ps[i].1)[j]).0,
                u.spec_parse(ps[i].1)[j].1,
            ) by {
            lemma_sum_lens_same(ps, g, h, i);
            lemma_concat_map_at(ps, g, i, j);
        }
    }
}

/// Parses `p` again and again until `q` parses.
pub fn greedy_until<P, Q>(p: Parser<P>, q: Parser<Q>) -> (r: Parser<GreedyUntil<P, Q>>)
    ensures
        r.parser == (GreedyUntil { p: p.parser, q: q.parser }),
{
    Parser { parser: GreedyUntil { p: p.parser, q: q.parser } }
}

} // verus!
