use std::marker::PhantomData;
use vstd::prelude::*;
use vstd::slice::slice_subrange;

verus! {

/// `b` can come out of cloning `a` only if it equals `a`.
pub open spec fn clones_exactly<T: Clone>() -> bool {
    forall|a: T, b: T| #[trigger] vstd::pervasive::strictly_cloned(a, b) ==> a == b
}

fn call_clone<T, F: Fn(&T) -> T>(f: F, a: &T) -> (r: T)
    requires
        call_requires(f, (a,)),
    ensures
        call_ensures(f, (a,), r),
{
    f(a)
}

/// A clone of `a`, which for a type that clones exactly is `a` itself.
pub fn copy_of<T: Clone>(a: &T) -> (r: T)
    requires
        clones_exactly::<T>(),
    ensures
        r == *a,
{
    let r = call_clone(T::clone, a);
    assert(vstd::pervasive::strictly_cloned(*a, r));
    r
}

/// Symbols that running code can compare, with what a comparison means.
pub trait SymbolEq: Sized + Clone {
    /// Whether `a` and `b` count as the same symbol.
    spec fn same(a: Self, b: Self) -> bool;

    /// A clone of a symbol is the symbol itself.
    proof fn lemma_clones_exactly()
        ensures
            clones_exactly::<Self>(),
    ;

    /// Compares `self` with `other`.
    fn same_as(&self, other: &Self) -> (r: bool)
        ensures
            r == Self::same(*self, *other),
    ;
}

impl SymbolEq for char {
    open spec fn same(a: char, b: char) -> bool {
        a == b
    }

    proof fn lemma_clones_exactly() {
    }

    fn same_as(&self, other: &char) -> (r: bool) {
        *self == *other
    }
}

impl SymbolEq for u8 {
    open spec fn same(a: u8, b: u8) -> bool {
        a == b
    }

    proof fn lemma_clones_exactly() {
    }

    fn same_as(&self, other: &u8) -> (r: bool) {
        *self == *other
    }
}

impl SymbolEq for u32 {
    open spec fn same(a: u32, b: u32) -> bool {
        a == b
    }

    proof fn lemma_clones_exactly() {
    }

    fn same_as(&self, other: &u32) -> (r: bool) {
        *self == *other
    }
}

impl SymbolEq for u64 {
    open spec fn same(a: u64, b: u64) -> bool {
        a == b
    }

    proof fn lemma_clones_exactly() {
    }

    fn same_as(&self, other: &u64) -> (r: bool) {
        *self == *other
    }
}

impl SymbolEq for usize {
    open spec fn same(a: usize, b: usize) -> bool {
        a == b
    }

    proof fn lemma_clones_exactly() {
    }

    fn same_as(&self, other: &usize) -> (r: bool) {
        *self == *other
    }
}

impl SymbolEq for i64 {
    open spec fn same(a: i64, b: i64) -> bool {
        a == b
    }

    proof fn lemma_clones_exactly() {
    }

    fn same_as(&self, other: &i64) -> (r: bool) {
        *self == *other
    }
}

/// std's `PartialEq::eq` for `str`, believed without proof: it returns
/// whether the two slices hold the same characters. std compares the bytes
/// of the two slices, and UTF-8 gives distinct character sequences distinct
/// bytes.
pub assume_specification[ <str as PartialEq>::eq ](a: &str, b: &str) -> (r: bool)
    ensures
        r == (a@ == b@),
;

impl<'s> SymbolEq for &'s str {
    open spec fn same(a: &'s str, b: &'s str) -> bool {
        a@ == b@
    }

    proof fn lemma_clones_exactly() {
    }

    fn same_as(&self, other: &&'s str) -> (r: bool) {
        **self == **other
    }
}

impl SymbolEq for String {
    open spec fn same(a: String, b: String) -> bool {
        a@ == b@
    }

    proof fn lemma_clones_exactly() {
    }

    fn same_as(&self, other: &String) -> (r: bool) {
        *self == *other
    }
}

/// Characters and numbers are the same symbol exactly when they are equal;
/// string slices and strings exactly when they hold the same characters.
pub proof fn lemma_same_symbol_meaning()
    ensures
        forall|a: char, b: char| #[trigger] <char as SymbolEq>::same(a, b) <==> a == b,
        forall|a: u8, b: u8| #[trigger] <u8 as SymbolEq>::same(a, b) <==> a == b,
        forall|a: u32, b: u32| #[trigger] <u32 as SymbolEq>::same(a, b) <==> a == b,
        forall|a: u64, b: u64| #[trigger] <u64 as SymbolEq>::same(a, b) <==> a == b,
        forall|a: usize, b: usize| #[trigger] <usize as SymbolEq>::same(a, b) <==> a == b,
        forall|a: i64, b: i64| #[trigger] <i64 as SymbolEq>::same(a, b) <==> a == b,
        forall|a: &str, b: &str| #[trigger] <&str as SymbolEq>::same(a, b) <==> a@ == b@,
        forall|a: String, b: String| #[trigger] <String as SymbolEq>::same(a, b) <==> a@ == b@,
{
}

/// `r` is what is left of `s` after a prefix of it has been consumed.
pub open spec fn is_suffix<Sym>(r: Seq<Sym>, s: Seq<Sym>) -> bool {
    r.len() <= s.len() && r == s.skip(s.len() - r.len())
}

/// The results of `f` on each element of `xs`, concatenated in order.
pub open spec fn concat_map<X, Y>(xs: Seq<X>, f: spec_fn(X) -> Seq<Y>) -> Seq<Y>
    decreases xs.len(),
{
    if xs.len() == 0 {
        Seq::empty()
    } else {
        concat_map(xs.drop_last(), f) + f(xs.last())
    }
}

pub proof fn lemma_concat_map_take<X, Y>(xs: Seq<X>, f: spec_fn(X) -> Seq<Y>, i: int)
    requires
        0 <= i < xs.len(),
    ensures
        concat_map(xs.take(i + 1), f) == concat_map(xs.take(i), f) + f(xs[i]),
{
    assert(xs.take(i + 1).drop_last() =~= xs.take(i));
}

/// How many results `f` gives on the first `i` elements of `xs`, together.
pub open spec fn sum_lens<X, Y>(xs: Seq<X>, f: spec_fn(X) -> Seq<Y>, i: int) -> nat
    decreases i,
{
    if i <= 0 {
        0
    } else {
        sum_lens(xs, f, i - 1) + f(xs[i - 1]).len()
    }
}

/// Two functions that give as many results on each element give as many
/// results on every prefix.
pub proof fn lemma_sum_lens_same<X, Y, Z>(
    xs: Seq<X>,
    f: spec_fn(X) -> Seq<Y>,
    g: spec_fn(X) -> Seq<Z>,
    i: int,
)
    requires
        0 <= i <= xs.len(),
        forall|k: int| 0 <= k < xs.len() ==> (#[trigger] f(xs[k])).len() == g(xs[k]).len(),
    ensures
        sum_lens(xs, f, i) == sum_lens(xs, g, i),
    decreases i,
{
    if i > 0 {
        lemma_sum_lens_same(xs, f, g, i - 1);
        assert(f(xs[i - 1]).len() == g(xs[i - 1]).len());
    }
}

/// All the results of `f` on the elements of `xs`, counted.
pub proof fn lemma_concat_map_len<X, Y>(xs: Seq<X>, f: spec_fn(X) -> Seq<Y>)
    ensures
        concat_map(xs, f).len() == sum_lens(xs, f, xs.len() as int),
    decreases xs.len(),
{
    if xs.len() > 0 {
        let front = xs.drop_last();
        lemma_concat_map_len(front, f);
        lemma_sum_lens_prefix(front, xs, f, front.len() as int);
    }
}

/// Result `j` of `f` on element `i` of `xs` stands in `concat_map(xs, f)`
/// right after the results on the elements before `i`.
pub proof fn lemma_concat_map_at<X, Y>(xs: Seq<X>, f: spec_fn(X) -> Seq<Y>, i: int, j: int)
    requires
        0 <= i < xs.len(),
        0 <= j < f(xs[i]).len(),
    ensures
        sum_lens(xs, f, i) + j < concat_map(xs, f).len(),
        concat_map(xs, f)[sum_lens(xs, f, i) + j] == f(xs[i])[j],
    decreases xs.len(),
{
    let front = xs.drop_last();
    let cf = concat_map(front, f);
    lemma_concat_map_len(front, f);
    lemma_concat_map_len(xs, f);
    assert(concat_map(xs, f) == cf + f(xs.last()));
    lemma_sum_lens_prefix(front, xs, f, i);
    if i < front.len() {
        lemma_concat_map_at(front, f, i, j);
        assert(front[i] == xs[i]);
    } else {
        assert(xs.last() == xs[i]);
    }
}

/// Counting the results on a longer prefix never gives fewer.
pub proof fn lemma_sum_lens_mono<X, Y>(xs: Seq<X>, f: spec_fn(X) -> Seq<Y>, i: int, k: int)
    requires
        0 <= i <= k,
    ensures
        sum_lens(xs, f, i) <= sum_lens(xs, f, k),
    decreases k - i,
{
    if i < k {
        lemma_sum_lens_mono(xs, f, i, k - 1);
    }
}

proof fn lemma_sum_lens_prefix<X, Y>(a: Seq<X>, b: Seq<X>, f: spec_fn(X) -> Seq<Y>, k: int)
    requires
        0 <= k <= a.len() <= b.len(),
        forall|i: int| 0 <= i < a.len() ==> a[i] == b[i],
    ensures
        sum_lens(a, f, k) == sum_lens(b, f, k),
    decreases k,
{
    if k > 0 {
        lemma_sum_lens_prefix(a, b, f, k - 1);
        assert(a[k - 1] == b[k - 1]);
    }
}

/// Every element of `concat_map(xs, f)` lies in `f` of some element of `xs`.
pub proof fn lemma_concat_map_member<X, Y>(xs: Seq<X>, f: spec_fn(X) -> Seq<Y>, k: int)
    requires
        0 <= k < concat_map(xs, f).len(),
    ensures
        exists|i: int, j: int|
            0 <= i < xs.len() && 0 <= j < f(xs[i]).len() && concat_map(xs, f)[k] == #[trigger] f(
                xs[i],
            )[j],
    decreases xs.len(),
{
    let front = concat_map(xs.drop_last(), f);
    if k < front.len() {
        lemma_concat_map_member(xs.drop_last(), f, k);
        let (i, j) = choose|i: int, j: int|
            0 <= i < xs.drop_last().len() && 0 <= j < f(xs.drop_last()[i]).len()
                && front[k] == #[trigger] f(xs.drop_last()[i])[j];
        assert(xs.drop_last()[i] == xs[i]);
        assert(concat_map(xs, f)[k] == f(xs[i])[j]);
    } else {
        let j = k - front.len();
        assert(concat_map(xs, f)[k] == f(xs[xs.len() - 1])[j]);
    }
}

/// A parser in the list-of-successes style: on an input it yields every
/// parse it finds, each a value together with the input that remains.
pub trait Combinator<Sym>: Sized {
    /// The values this parser yields.
    type Res;

    /// What a value stands for in specifications.
    type Model;

    spec fn model(r: Self::Res) -> Self::Model;

    /// The parses of `input`, in order: the model of each value, with the
    /// input it leaves.
    spec fn spec_parse(&self, input: Seq<Sym>) -> Seq<(Self::Model, Seq<Sym>)>;

    /// What running this parser needs of its parts.
    spec fn well_formed(&self) -> bool;

    /// The inputs on which running this parser returns: a repetition does
    /// not return where it reaches a parse that consumes nothing.
    spec fn runs_on(&self, input: Seq<Sym>) -> bool;

    /// Every parse leaves a suffix of the input.
    proof fn lemma_suffix(&self, input: Seq<Sym>)
        requires
            self.well_formed(),
        ensures
            forall|i: int|
                0 <= i < self.spec_parse(input).len() ==> is_suffix(
                    #[trigger] self.spec_parse(input)[i].1,
                    input,
                ),
    ;

    fn parse<'a>(&self, input: &'a [Sym]) -> (out: Vec<(Self::Res, &'a [Sym])>)
        requires
            self.well_formed(),
            self.runs_on(input@),
        ensures
            outcomes(out@, |r: Self::Res| Self::model(r)) == self.spec_parse(input@),
    ;
}

/// The models of the values in `out`, each with the input it leaves.
pub open spec fn outcomes<'a, Sym, R, M>(out: Seq<(R, &'a [Sym])>, model: spec_fn(R) -> M) -> Seq<
    (M, Seq<Sym>),
> {
    out.map_values(|x: (R, &'a [Sym])| (model(x.0), x.1@))
}

pub proof fn lemma_outcomes_push<'a, Sym, R, M>(
    out: Seq<(R, &'a [Sym])>,
    model: spec_fn(R) -> M,
    x: (R, &'a [Sym]),
)
    ensures
        outcomes(out.push(x), model) == outcomes(out, model).push((model(x.0), x.1@)),
{
    assert(outcomes(out.push(x), model) =~= outcomes(out, model).push((model(x.0), x.1@)));
}

pub proof fn lemma_outcomes_append<'a, Sym, R, M>(
    a: Seq<(R, &'a [Sym])>,
    b: Seq<(R, &'a [Sym])>,
    model: spec_fn(R) -> M,
)
    ensures
        outcomes(a + b, model) == outcomes(a, model) + outcomes(b, model),
{
    assert(outcomes(a + b, model) =~= outcomes(a, model) + outcomes(b, model));
}

/// A parser built from combinators.
#[derive(Clone)]
pub struct Parser<P> {
    pub parser: P,
}

impl<P> Parser<P> {
    /// Runs the parser on `input` and returns every parse it finds.
    pub fn run<'a, Sym>(&self, input: &'a [Sym]) -> (out: Vec<(P::Res, &'a [Sym])>) where
        P: Combinator<Sym>,
        requires
            self.parser.well_formed(),
            self.parser.runs_on(input@),
        ensures
            outcomes(out@, |r: P::Res| P::model(r)) == self.parser.spec_parse(input@),
            out@.len() == self.parser.spec_parse(input@).len(),
            forall|i: int|
                0 <= i < out@.len() ==> (P::model(#[trigger] out@[i].0), out@[i].1@)
                    == self.parser.spec_parse(input@)[i],
    {
        let out = self.parser.parse(input);
        proof {
            let f = |r: P::Res| P::model(r);
            assert forall|i: int| 0 <= i < out@.len() implies (P::model(#[trigger] out@[i].0), out@[i].1@)
                == self.parser.spec_parse(input@)[i] by {
                assert(outcomes(out@, f)[i] == (f(out@[i].0), out@[i].1@));
            }
        }
        out
    }
}

/// Parses nothing and yields `value`.
pub struct Succeed<R> {
    pub value: R,
}

impl<Sym, R: Clone> Combinator<Sym> for Succeed<R> {
    type Res = R;

    type Model = R;

    open spec fn model(r: R) -> R {
        r
    }

    open spec fn spec_parse(&self, input: Seq<Sym>) -> Seq<(R, Seq<Sym>)> {
        seq![(self.value, input)]
    }

    open spec fn well_formed(&self) -> bool {
        clones_exactly::<R>()
    }

    open spec fn runs_on(&self, input: Seq<Sym>) -> bool {
        true
    }

    proof fn lemma_suffix(&self, input: Seq<Sym>) {
        assert(input.skip(0) =~= input);
    }

    fn parse<'a>(&self, input: &'a [Sym]) -> (out: Vec<(R, &'a [Sym])>) {
        let out = vec![(copy_of(&self.value), input)];
        assert(outcomes(out@, |r: Self::Res| <Self as Combinator<Sym>>::model(r)) =~= self.spec_parse(input@));
        out
    }
}

/// Never yields a parse.
pub struct Empty<R> {
    pub marker: PhantomData<R>,
}

impl<Sym, R> Combinator<Sym> for Empty<R> {
    type Res = R;

    type Model = R;

    open spec fn model(r: R) -> R {
        r
    }

    open spec fn spec_parse(&self, input: Seq<Sym>) -> Seq<(R, Seq<Sym>)> {
        Seq::empty()
    }

    open spec fn well_formed(&self) -> bool {
        true
    }

    open spec fn runs_on(&self, input: Seq<Sym>) -> bool {
        true
    }

    proof fn lemma_suffix(&self, input: Seq<Sym>) {
    }

    fn parse<'a>(&self, input: &'a [Sym]) -> (out: Vec<(R, &'a [Sym])>) {
        let out: Vec<(R, &'a [Sym])> = Vec::new();
        assert(outcomes(out@, |r: Self::Res| <Self as Combinator<Sym>>::model(r)) =~= self.spec_parse(input@));
        out
    }
}

/// Succeeds, consuming nothing, only at the end of the input.
pub struct Eof;

impl<Sym> Combinator<Sym> for Eof {
    type Res = ();

    type Model = ();

    open spec fn model(r: ()) -> () {
        r
    }

    open spec fn spec_parse(&self, input: Seq<Sym>) -> Seq<((), Seq<Sym>)> {
        if input.len() == 0 {
            seq![((), input)]
        } else {
            Seq::empty()
        }
    }

    open spec fn well_formed(&self) -> bool {
        true
    }

    open spec fn runs_on(&self, input: Seq<Sym>) -> bool {
        true
    }

    proof fn lemma_suffix(&self, input: Seq<Sym>) {
        assert(input.skip(0) =~= input);
    }

    fn parse<'a>(&self, input: &'a [Sym]) -> (out: Vec<((), &'a [Sym])>) {
        let mut out: Vec<((), &'a [Sym])> = Vec::new();
        if input.len() == 0 {
            out.push(((), input));
        }
        assert(outcomes(out@, |r: Self::Res| <Self as Combinator<Sym>>::model(r)) =~= self.spec_parse(input@));
        out
    }
}

/// The parse of one symbol at the head of `input`, if there is one and
/// `accept` holds of it.
pub open spec fn one_symbol<Sym>(input: Seq<Sym>, accept: bool) -> Seq<(Sym, Seq<Sym>)> {
    if input.len() > 0 && accept {
        seq![(input[0], input.drop_first())]
    } else {
        Seq::empty()
    }
}

/// Consumes one symbol the same as `sym` and yields it.
pub struct Symbol<Sym> {
    pub sym: Sym,
}

impl<Sym: SymbolEq> Combinator<Sym> for Symbol<Sym> {
    type Res = Sym;

    type Model = Sym;

    open spec fn model(r: Sym) -> Sym {
        r
    }

    open spec fn spec_parse(&self, input: Seq<Sym>) -> Seq<(Sym, Seq<Sym>)> {
        one_symbol(input, input.len() > 0 && Sym::same(self.sym, input[0]))
    }

    open spec fn well_formed(&self) -> bool {
        true
    }

    open spec fn runs_on(&self, input: Seq<Sym>) -> bool {
        true
    }

    proof fn lemma_suffix(&self, input: Seq<Sym>) {
        if input.len() > 0 {
            assert(input.skip(1) =~= input.drop_first());
        }
    }

    fn parse<'a>(&self, input: &'a [Sym]) -> (out: Vec<(Sym, &'a [Sym])>) {
        proof {
            Sym::lemma_clones_exactly();
        }
        let mut out: Vec<(Sym, &'a [Sym])> = Vec::new();
        if input.len() > 0 && self.sym.same_as(&input[0]) {
            out.push((copy_of(&input[0]), slice_subrange(input, 1, input.len())));
            assert(input@.subrange(1, input@.len() as int) =~= input@.drop_first());
        }
        assert(outcomes(out@, |r: Self::Res| <Self as Combinator<Sym>>::model(r)) =~= self.spec_parse(input@));
        out
    }
}

/// `symbol(c)` has a parse exactly where the input starts with a symbol the
/// same as `c`; the parse yields that symbol and leaves the rest.
pub proof fn lemma_symbol_parses<Sym: SymbolEq>(p: Symbol<Sym>, s: Seq<Sym>)
    ensures
        p.spec_parse(s).len() <= 1,
        p.spec_parse(s).len() == 1 <==> (s.len() > 0 && Sym::same(p.sym, s[0])),
        p.spec_parse(s).len() == 1 ==> p.spec_parse(s)[0] == (s[0], s.subrange(1, s.len() as int)),
{
    if s.len() > 0 {
        assert(s.drop_first() =~= s.subrange(1, s.len() as int));
    }
}

/// Consumes any one symbol and yields it.
pub struct AnySymbol;

impl<Sym: Clone> Combinator<Sym> for AnySymbol {
    type Res = Sym;

    type Model = Sym;

    open spec fn model(r: Sym) -> Sym {
        r
    }

    open spec fn spec_parse(&self, input: Seq<Sym>) -> Seq<(Sym, Seq<Sym>)> {
        one_symbol(input, true)
    }

    open spec fn well_formed(&self) -> bool {
        clones_exactly::<Sym>()
    }

    open spec fn runs_on(&self, input: Seq<Sym>) -> bool {
        true
    }

    proof fn lemma_suffix(&self, input: Seq<Sym>) {
        if input.len() > 0 {
            assert(input.skip(1) =~= input.drop_first());
        }
    }

    fn parse<'a>(&self, input: &'a [Sym]) -> (out: Vec<(Sym, &'a [Sym])>) {
        let mut out: Vec<(Sym, &'a [Sym])> = Vec::new();
        if input.len() > 0 {
            out.push((copy_of(&input[0]), slice_subrange(input, 1, input.len())));
            assert(input@.subrange(1, input@.len() as int) =~= input@.drop_first());
        }
        assert(outcomes(out@, |r: Self::Res| <Self as Combinator<Sym>>::model(r)) =~= self.spec_parse(input@));
        out
    }
}

/// `any_symbol()` has a parse exactly where the input is not empty; the
/// parse yields its first symbol and leaves the rest.
pub proof fn lemma_any_symbol_parses<Sym: Clone>(s: Seq<Sym>)
    ensures
        <AnySymbol as Combinator<Sym>>::spec_parse(&AnySymbol, s).len() == if s.len() > 0 {
            1int
        } else {
            0int
        },
        s.len() > 0 ==> <AnySymbol as Combinator<Sym>>::spec_parse(&AnySymbol, s)[0] == (
            s[0],
            s.subrange(1, s.len() as int),
        ),
{
    if s.len() > 0 {
        assert(s.drop_first() =~= s.subrange(1, s.len() as int));
    }
}

/// `eof()` has one parse, which consumes nothing, exactly at the end of the
/// input; `succeed(v)` has one parse everywhere, which consumes nothing and
/// yields `v`.
pub proof fn lemma_eof_succeed_parses<Sym, R: Clone>(v: R, s: Seq<Sym>)
    ensures
        <Eof as Combinator<Sym>>::spec_parse(&Eof, s).len() == if s.len() == 0 {
            1int
        } else {
            0int
        },
        s.len() == 0 ==> <Eof as Combinator<Sym>>::spec_parse(&Eof, s)[0].1 == s,
        <Succeed<R> as Combinator<Sym>>::spec_parse(&Succeed { value: v }, s) == seq![(v, s)],
{
}

/// `f` can be called on every argument and gives one answer for each.
pub open spec fn is_function<A, B, F: Fn(A) -> B>(f: F) -> bool {
    &&& forall|a: A| #[trigger] call_requires(f, (a,))
    &&& forall|a: A, b1: B, b2: B|
        #[trigger] call_ensures(f, (a,), b1) && #[trigger] call_ensures(f, (a,), b2) ==> b1 == b2
}

/// `pred` can be called on every symbol and gives one answer for each.
pub open spec fn is_predicate<Sym, F: Fn(&Sym) -> bool>(pred: F) -> bool {
    &&& forall|s: Sym| #[trigger] call_requires(pred, (&s,))
    &&& forall|s: Sym|
        !(#[trigger] call_ensures(pred, (&s,), true) && call_ensures(pred, (&s,), false))
}

/// Consumes one symbol of which `pred` holds and yields it.
pub struct Satisfy<F> {
    pub pred: F,
}

impl<Sym: Clone, F: Fn(&Sym) -> bool> Combinator<Sym> for Satisfy<F> {
    type Res = Sym;

    type Model = Sym;

    open spec fn model(r: Sym) -> Sym {
        r
    }

    open spec fn spec_parse(&self, input: Seq<Sym>) -> Seq<(Sym, Seq<Sym>)> {
        one_symbol(input, input.len() > 0 && call_ensures(self.pred, (&input[0],), true))
    }

    open spec fn well_formed(&self) -> bool {
        clones_exactly::<Sym>() && is_predicate(self.pred)
    }

    open spec fn runs_on(&self, input: Seq<Sym>) -> bool {
        true
    }

    proof fn lemma_suffix(&self, input: Seq<Sym>) {
        if input.len() > 0 {
            assert(input.skip(1) =~= input.drop_first());
        }
    }

    fn parse<'a>(&self, input: &'a [Sym]) -> (out: Vec<(Sym, &'a [Sym])>) {
        let mut out: Vec<(Sym, &'a [Sym])> = Vec::new();
        if input.len() > 0 {
            let head = copy_of(&input[0]);
            let ok = (self.pred)(&head);
            if ok {
                out.push((copy_of(&input[0]), slice_subrange(input, 1, input.len())));
                assert(input@.subrange(1, input@.len() as int) =~= input@.drop_first());
            }
        }
        assert(outcomes(out@, |r: Self::Res| <Self as Combinator<Sym>>::model(r)) =~= self.spec_parse(input@));
        out
    }
}

/// `satisfy(pred)` has a parse exactly where the input is not empty and
/// `pred` answers `true` on its first symbol; the parse yields that symbol
/// and leaves the rest.
pub proof fn lemma_satisfy_parses<Sym: Clone, F: Fn(&Sym) -> bool>(p: Satisfy<F>, s: Seq<Sym>)
    requires
        is_predicate::<Sym, F>(p.pred),
    ensures
        p.spec_parse(s).len() <= 1,
        s.len() == 0 ==> p.spec_parse(s).len() == 0,
        forall|b: bool|
            s.len() > 0 && #[trigger] call_ensures(p.pred, (&s[0],), b) ==> (p.spec_parse(s).len()
                == 1 <==> b),
        p.spec_parse(s).len() == 1 ==> p.spec_parse(s)[0] == (s[0], s.subrange(1, s.len() as int)),
{
    if s.len() > 0 {
        assert(s.drop_first() =~= s.subrange(1, s.len() as int));
        assert(!(call_ensures(p.pred, (&s[0],), true) && call_ensures(p.pred, (&s[0],), false)));
    }
}

/// A `satisfy` parser can run once its symbols clone exactly and its
/// predicate answers every symbol one way.
pub proof fn lemma_satisfy_well_formed<Sym: Clone, F: Fn(&Sym) -> bool>(p: Satisfy<F>)
    requires
        clones_exactly::<Sym>(),
        is_predicate::<Sym, F>(p.pred),
    ensures
        <Satisfy<F> as Combinator<Sym>>::well_formed(&p),
{
}

/// Copies of `input[from..to]`, in order.
fn copy_range<Sym: Clone>(input: &[Sym], from: usize, to: usize) -> (r: Vec<Sym>)
    requires
        clones_exactly::<Sym>(),
        from <= to <= input@.len(),
    ensures
        r@ == input@.subrange(from as int, to as int),
{
    let mut r: Vec<Sym> = Vec::new();
    let mut i = from;
    while i < to
        invariant
            from <= i <= to <= input@.len(),
            clones_exactly::<Sym>(),
            r@ == input@.subrange(from as int, i as int),
        decreases to - i,
    {
        r.push(copy_of(&input[i]));
        i = i + 1;
        assert(r@ =~= input@.subrange(from as int, i as int));
    }
    r
}

/// `token(w)` has a parse exactly where the input begins with symbols the
/// same as those of `w`, one by one, also where they are the whole input:
/// the parse yields the first `|w|` symbols of the input and leaves the rest.
pub proof fn lemma_token_parses<Sym: SymbolEq>(t: Token<Sym>, s: Seq<Sym>)
    ensures
        t.spec_parse(s).len() <= 1,
        (t.word@.len() <= s.len() && forall|j: int|
            0 <= j < t.word@.len() ==> Sym::same(#[trigger] s[j], t.word@[j])) ==> t.spec_parse(s)
            == seq![
            (s.subrange(0, t.word@.len() as int), s.subrange(t.word@.len() as int, s.len() as int)),
        ],
        t.spec_parse(s).len() == 1 ==> t.word@.len() <= s.len() && forall|j: int|
            0 <= j < t.word@.len() ==> Sym::same(#[trigger] s[j], t.word@[j]),
{
    let k = t.word@.len() as int;
    if k <= s.len() {
        assert(s.take(k) =~= s.subrange(0, k));
        assert(s.skip(k) =~= s.subrange(k, s.len() as int));
    }
}

/// Whether `input` starts with `word`, comparing symbol by symbol.
pub open spec fn starts_with<Sym: SymbolEq>(input: Seq<Sym>, word: Seq<Sym>) -> bool {
    &&& word.len() <= input.len()
    &&& forall|j: int| 0 <= j < word.len() ==> Sym::same(#[trigger] input[j], word[j])
}

/// Consumes symbols the same as those of `word`, in order, and yields them.
pub struct Token<Sym> {
    pub word: Vec<Sym>,
}

impl<Sym: SymbolEq> Combinator<Sym> for Token<Sym> {
    type Res = Vec<Sym>;

    type Model = Seq<Sym>;

    open spec fn model(r: Vec<Sym>) -> Seq<Sym> {
        r@
    }

    open spec fn spec_parse(&self, input: Seq<Sym>) -> Seq<(Seq<Sym>, Seq<Sym>)> {
        let k = self.word@.len() as int;
        if starts_with(input, self.word@) {
            seq![(input.take(k), input.skip(k))]
        } else {
            Seq::empty()
        }
    }

    open spec fn well_formed(&self) -> bool {
        true
    }

    open spec fn runs_on(&self, input: Seq<Sym>) -> bool {
        true
    }

    proof fn lemma_suffix(&self, input: Seq<Sym>) {
    }

    fn parse<'a>(&self, input: &'a [Sym]) -> (out: Vec<(Vec<Sym>, &'a [Sym])>) {
        proof {
            Sym::lemma_clones_exactly();
        }
        let k = self.word.len();
        let mut out: Vec<(Vec<Sym>, &'a [Sym])> = Vec::new();
        if k <= input.len() {
            let mut same = true;
            let mut i: usize = 0;
            while i < k
                invariant
                    k == self.word@.len(),
                    k <= input@.len(),
                    i <= k,
                    same == (forall|j: int| 0 <= j < i ==> Sym::same(#[trigger] input@[j], self.word@[j])),
                decreases k - i,
            {
                if !input[i].same_as(&self.word[i]) {
                    same = false;
                }
                i = i + 1;
            }
            if same {
                out.push((copy_range(input, 0, k), slice_subrange(input, k, input.len())));
                assert(input@.subrange(0, k as int) =~= input@.take(k as int));
                assert(input@.subrange(k as int, input@.len() as int) =~= input@.skip(k as int));
            }
        }
        assert(outcomes(out@, |r: Self::Res| <Self as Combinator<Sym>>::model(r)) =~= self.spec_parse(input@));
        out
    }
}

/// The text that opens a pair closed by the text `t`: a closing brace for an
/// opening one and the other way round, and the empty text for anything else.
pub open spec fn opposite_text(t: Seq<char>) -> Seq<char> {
    if t == seq!['{'] {
        seq!['}']
    } else if t == seq!['}'] {
        seq!['{']
    } else {
        Seq::empty()
    }
}

/// Symbols that can stand for brackets. `opens(a, s)` holds where `s`
/// prints as the text that opens a pair closed by what `a` prints.
pub trait BracketSymbol: SymbolEq {
    spec fn opens(a: Self, s: Self) -> bool;

    fn opens_exec(a: &Self, s: &Self) -> (r: bool)
        ensures
            r == Self::opens(*a, *s),
    ;
}

impl BracketSymbol for char {
    /// A character prints as itself, so a brace opens the pair the other
    /// brace closes.
    open spec fn opens(a: char, s: char) -> bool {
        (a == '}' && s == '{') || (a == '{' && s == '}')
    }

    fn opens_exec(a: &char, s: &char) -> (r: bool) {
        (*a == '}' && *s == '{') || (*a == '{' && *s == '}')
    }
}

/// The text that opens a pair closed by `a`.
fn opposite_str(a: &str) -> (r: &'static str)
    ensures
        r@ == opposite_text(a@),
{
    proof {
        reveal_strlit("{");
        reveal_strlit("}");
        reveal_strlit("");
        assert("{"@ =~= seq!['{']);
        assert("}"@ =~= seq!['}']);
        assert(""@ =~= Seq::<char>::empty());
    }
    if *a == *"{" {
        "}"
    } else if *a == *"}" {
        "{"
    } else {
        ""
    }
}

impl<'s> BracketSymbol for &'s str {
    open spec fn opens(a: &'s str, s: &'s str) -> bool {
        s@ == opposite_text(a@)
    }

    fn opens_exec(a: &&'s str, s: &&'s str) -> (r: bool) {
        **s == *opposite_str(*a)
    }
}

impl BracketSymbol for String {
    open spec fn opens(a: String, s: String) -> bool {
        s@ == opposite_text(a@)
    }

    fn opens_exec(a: &String, s: &String) -> (r: bool) {
        *s.as_str() == *opposite_str(a.as_str())
    }
}

impl BracketSymbol for u8 {
    /// A number never prints as a brace, nor as the empty text.
    open spec fn opens(a: u8, s: u8) -> bool {
        false
    }

    fn opens_exec(a: &u8, s: &u8) -> (r: bool) {
        false
    }
}

impl BracketSymbol for u32 {
    /// A number never prints as a brace, nor as the empty text.
    open spec fn opens(a: u32, s: u32) -> bool {
        false
    }

    fn opens_exec(a: &u32, s: &u32) -> (r: bool) {
        false
    }
}

impl BracketSymbol for u64 {
    /// A number never prints as a brace, nor as the empty text.
    open spec fn opens(a: u64, s: u64) -> bool {
        false
    }

    fn opens_exec(a: &u64, s: &u64) -> (r: bool) {
        false
    }
}

impl BracketSymbol for usize {
    /// A number never prints as a brace, nor as the empty text.
    open spec fn opens(a: usize, s: usize) -> bool {
        false
    }

    fn opens_exec(a: &usize, s: &usize) -> (r: bool) {
        false
    }
}

impl BracketSymbol for i64 {
    /// A number never prints as a brace, nor as the empty text.
    open spec fn opens(a: i64, s: i64) -> bool {
        false
    }

    fn opens_exec(a: &i64, s: &i64) -> (r: bool) {
        false
    }
}

/// Which symbol opens a pair closed by another: for characters, a brace
/// opens the pair the other brace closes; for strings, judged by their text,
/// likewise, and where the closing text is no brace, the empty text opens;
/// a number opens nothing.
pub proof fn lemma_opens_meaning()
    ensures
        forall|a: char, s: char|
            #[trigger] <char as BracketSymbol>::opens(a, s) <==> ((a == '}' && s == '{') || (a
                == '{' && s == '}')),
        forall|a: &str, s: &str|
            #[trigger] <&str as BracketSymbol>::opens(a, s) <==> ((a@ == seq!['}'] && s@ == seq![
                '{',
            ]) || (a@ == seq!['{'] && s@ == seq!['}']) || (a@ != seq!['{'] && a@ != seq!['}']
                && s@.len() == 0)),
        forall|a: String, s: String|
            #[trigger] <String as BracketSymbol>::opens(a, s) <==> ((a@ == seq!['}'] && s@
                == seq!['{']) || (a@ == seq!['{'] && s@ == seq!['}']) || (a@ != seq!['{'] && a@
                != seq!['}'] && s@.len() == 0)),
        forall|a: u8, s: u8| !#[trigger] <u8 as BracketSymbol>::opens(a, s),
        forall|a: u32, s: u32| !#[trigger] <u32 as BracketSymbol>::opens(a, s),
        forall|a: u64, s: u64| !#[trigger] <u64 as BracketSymbol>::opens(a, s),
        forall|a: usize, s: usize| !#[trigger] <usize as BracketSymbol>::opens(a, s),
        forall|a: i64, s: i64| !#[trigger] <i64 as BracketSymbol>::opens(a, s),
{
    assert forall|a: &str, s: &str| #[trigger] <&str as BracketSymbol>::opens(a, s) <==> ((a@
        == seq!['}'] && s@ == seq!['{']) || (a@ == seq!['{'] && s@ == seq!['}']) || (a@ != seq![
        '{',
    ] && a@ != seq!['}'] && s@.len() == 0)) by {
        if s@.len() == 0 {
            assert(s@ =~= Seq::<char>::empty());
        }
    }
    assert forall|a: String, s: String| #[trigger] <String as BracketSymbol>::opens(a, s) <==> ((
    a@ == seq!['}'] && s@ == seq!['{']) || (a@ == seq!['{'] && s@ == seq!['}']) || (a@ != seq![
        '{',
    ] && a@ != seq!['}'] && s@.len() == 0)) by {
        if s@.len() == 0 {
            assert(s@ =~= Seq::<char>::empty());
        }
    }
}

/// The position, from `i` on, of the `a` that closes everything opened
/// since `i`, where `depth` pairs are already open.
pub open spec fn matching_close<Sym: BracketSymbol>(s: Seq<Sym>, a: Sym, i: int, depth: nat) -> Option<int>
    decreases s.len() - i,
{
    if i < 0 || i >= s.len() {
        None
    } else if Sym::same(s[i], a) {
        if depth == 0 {
            Some(i)
        } else {
            matching_close(s, a, i + 1, (depth - 1) as nat)
        }
    } else if Sym::opens(a, s[i]) {
        matching_close(s, a, i + 1, depth + 1)
    } else {
        matching_close(s, a, i + 1, depth)
    }
}

proof fn lemma_matching_close_bounds<Sym: BracketSymbol>(s: Seq<Sym>, a: Sym, i: int, depth: nat)
    ensures
        matching_close(s, a, i, depth) matches Some(j) ==> i <= j < s.len() && Sym::same(s[j], a),
    decreases s.len() - i,
{
    if 0 <= i < s.len() {
        if Sym::same(s[i], a) {
            if depth > 0 {
                lemma_matching_close_bounds(s, a, i + 1, (depth - 1) as nat);
            }
        } else if Sym::opens(a, s[i]) {
            lemma_matching_close_bounds(s, a, i + 1, depth + 1);
        } else {
            lemma_matching_close_bounds(s, a, i + 1, depth);
        }
    }
}

/// What `greedy_stack_symbol(a)` takes ends with a symbol the same as `a`,
/// and it leaves the rest of the input.
pub proof fn lemma_greedy_stack_ends_with<Sym: BracketSymbol>(a: Sym, s: Seq<Sym>)
    ensures
        forall|k: int|
            0 <= k < (GreedyStackSymbol { sym: a }).spec_parse(s).len() ==> {
                let x = #[trigger] (GreedyStackSymbol { sym: a }).spec_parse(s)[k];
                &&& x.0.len() >= 1
                &&& Sym::same(x.0.last(), a)
                &&& x.0 + x.1 == s
            },
{
    lemma_matching_close_bounds(s, a, 0, 0);
    if let Some(i) = matching_close(s, a, 0, 0) {
        assert(s.take(i + 1) + s.skip(i + 1) =~= s);
    }
}

/// How many pairs closed by `a` are still open after `t`: each symbol the
/// same as `a` closes one, and each other symbol that opens one opens one.
pub open spec fn open_pairs<Sym: BracketSymbol>(t: Seq<Sym>, a: Sym) -> int
    decreases t.len(),
{
    if t.len() == 0 {
        0
    } else {
        open_pairs(t.drop_last(), a) + if Sym::same(t.last(), a) {
            -1int
        } else if Sym::opens(a, t.last()) {
            1int
        } else {
            0int
        }
    }
}

/// Position `i` of `s` holds the `a` that closes everything opened before
/// it: before it as many pairs were closed as opened, and before every
/// earlier `a` more were opened than closed.
pub open spec fn closes_all<Sym: BracketSymbol>(s: Seq<Sym>, a: Sym, i: int) -> bool {
    &&& 0 <= i < s.len()
    &&& Sym::same(s[i], a)
    &&& open_pairs(s.take(i), a) == 0
    &&& forall|j: int| 0 <= j < i && Sym::same(s[j], a) ==> open_pairs(#[trigger] s.take(j), a) > 0
}

proof fn lemma_open_pairs_step<Sym: BracketSymbol>(s: Seq<Sym>, a: Sym, k: int)
    requires
        0 <= k < s.len(),
    ensures
        open_pairs(s.take(k + 1), a) == open_pairs(s.take(k), a) + if Sym::same(s[k], a) {
            -1int
        } else if Sym::opens(a, s[k]) {
            1int
        } else {
            0int
        },
{
    assert(s.take(k + 1).drop_last() =~= s.take(k));
    assert(s.take(k + 1).last() == s[k]);
}

/// Walking from `k` with the pairs open before `k` counted gives the
/// position that closes all, if there is one.
proof fn lemma_matching_close_walk<Sym: BracketSymbol>(s: Seq<Sym>, a: Sym, k: int, d: nat)
    requires
        0 <= k <= s.len(),
        d == open_pairs(s.take(k), a),
        forall|j: int| 0 <= j < k && Sym::same(s[j], a) ==> open_pairs(#[trigger] s.take(j), a) > 0,
    ensures
        match matching_close(s, a, k, d) {
            Some(i) => closes_all(s, a, i),
            None => forall|i: int| !#[trigger] closes_all(s, a, i),
        },
    decreases s.len() - k,
{
    if k == s.len() {
        assert forall|i: int| !#[trigger] closes_all(s, a, i) by {
        }
    } else {
        lemma_open_pairs_step(s, a, k);
        if Sym::same(s[k], a) {
            if d == 0 {
            } else {
                lemma_matching_close_walk(s, a, k + 1, (d - 1) as nat);
                if matching_close(s, a, k + 1, (d - 1) as nat) is None {
                    assert forall|i: int| !#[trigger] closes_all(s, a, i) by {
                        if closes_all(s, a, i) && i <= k {
                            if i < k {
                                assert(open_pairs(s.take(i), a) > 0);
                            }
                        }
                    }
                }
            }
        } else {
            let d2: nat = if Sym::opens(a, s[k]) { d + 1 } else { d };
            lemma_matching_close_walk(s, a, k + 1, d2);
            if matching_close(s, a, k + 1, d2) is None {
                assert forall|i: int| !#[trigger] closes_all(s, a, i) by {
                    if closes_all(s, a, i) && i < k {
                        assert(open_pairs(s.take(i), a) > 0);
                    }
                }
            }
        }
    }
}

/// A position that closes all is the only one.
proof fn lemma_closes_all_unique<Sym: BracketSymbol>(s: Seq<Sym>, a: Sym, i: int, k: int)
    requires
        closes_all(s, a, i),
        closes_all(s, a, k),
    ensures
        i == k,
{
    if i < k {
        assert(open_pairs(s.take(i), a) > 0);
    } else if k < i {
        assert(open_pairs(s.take(k), a) > 0);
    }
}

/// `greedy_stack_symbol(a)` takes exactly up to the `a` that closes
/// everything opened before it, at any depth of nesting, and leaves the
/// rest; where there is no such `a` it has no parse.
pub proof fn lemma_greedy_stack_closes_all<Sym: BracketSymbol>(a: Sym, s: Seq<Sym>)
    ensures
        forall|i: int|
            #[trigger] closes_all(s, a, i) ==> (GreedyStackSymbol { sym: a }).spec_parse(s) == seq![
                (s.take(i + 1), s.skip(i + 1)),
            ],
        (GreedyStackSymbol { sym: a }).spec_parse(s).len() == 0 <==> forall|i: int|
            !#[trigger] closes_all(s, a, i),
{
    assert(open_pairs(s.take(0), a) == 0);
    lemma_matching_close_walk(s, a, 0, 0);
    assert forall|i: int| #[trigger] closes_all(s, a, i) implies (GreedyStackSymbol {
        sym: a,
    }).spec_parse(s) == seq![(s.take(i + 1), s.skip(i + 1))] by {
        if let Some(k) = matching_close(s, a, 0, 0) {
            lemma_closes_all_unique(s, a, i, k);
        }
    }
}

/// Consumes symbols up to and including the `sym` that closes every bracket
/// opened on the way, and yields them.
pub struct GreedyStackSymbol<Sym> {
    pub sym: Sym,
}

impl<Sym: BracketSymbol> Combinator<Sym> for GreedyStackSymbol<Sym> {
    type Res = Vec<Sym>;

    type Model = Seq<Sym>;

    open spec fn model(r: Vec<Sym>) -> Seq<Sym> {
        r@
    }

    open spec fn spec_parse(&self, input: Seq<Sym>) -> Seq<(Seq<Sym>, Seq<Sym>)> {
        match matching_close(input, self.sym, 0, 0) {
            Some(i) => seq![(input.take(i + 1), input.skip(i + 1))],
            None => Seq::empty(),
        }
    }

    open spec fn well_formed(&self) -> bool {
        true
    }

    open spec fn runs_on(&self, input: Seq<Sym>) -> bool {
        true
    }

    proof fn lemma_suffix(&self, input: Seq<Sym>) {
        lemma_matching_close_bounds(input, self.sym, 0, 0);
    }

    fn parse<'a>(&self, input: &'a [Sym]) -> (out: Vec<(Vec<Sym>, &'a [Sym])>) {
        proof {
            Sym::lemma_clones_exactly();
        }
        let a = &self.sym;
        let mut depth: usize = 0;
        let mut i: usize = 0;
        let n = input.len();
        while i < n
            invariant
                n == input@.len(),
                i <= n,
                depth <= i,
                *a == self.sym,
                clones_exactly::<Sym>(),
                matching_close(input@, *a, i as int, depth as nat) == matching_close(input@, *a, 0, 0),
            decreases n - i,
        {
            let s = &input[i];
            if s.same_as(a) {
                if depth == 0 {
                    let mut out: Vec<(Vec<Sym>, &'a [Sym])> = Vec::new();
                    out.push((copy_range(input, 0, i + 1), slice_subrange(input, i + 1, n)));
                    proof {
                        assert(matching_close(input@, *a, i as int, depth as nat) == Some(i as int));
                        assert(input@.subrange(0, i + 1) =~= input@.take(i + 1));
                        assert(input@.subrange(i + 1, n as int) =~= input@.skip(i + 1));
                        assert(outcomes(out@, |r: Self::Res| <Self as Combinator<Sym>>::model(r)) =~= self.spec_parse(input@));
                    }
                    return out;
                }
                depth = depth - 1;
            } else if Sym::opens_exec(a, s) {
                depth = depth + 1;
            }
            i = i + 1;
        }
        let out: Vec<(Vec<Sym>, &'a [Sym])> = Vec::new();
        assert(outcomes(out@, |r: Self::Res| <Self as Combinator<Sym>>::model(r)) =~= self.spec_parse(input@));
        out
    }
}

impl<R: Clone> Parser<Succeed<R>> {
    /// A parser that consumes nothing and yields `a`.
    pub fn succeed(a: R) -> (r: Self)
        ensures
            r.parser.value == a,
    {
        Parser { parser: Succeed { value: a } }
    }
}

impl<R> Parser<Empty<R>> {
    /// A parser that never succeeds.
    pub fn empty() -> (r: Self)
        ensures
            r.parser == (Empty::<R> { marker: PhantomData }),
    {
        Parser { parser: Empty { marker: PhantomData } }
    }
}

impl Parser<Eof> {
    /// A parser that succeeds only at the end of the input.
    pub fn eof() -> (r: Self)
        ensures
            r.parser == Eof,
    {
        Parser { parser: Eof }
    }
}

impl<Sym: SymbolEq> Parser<Symbol<Sym>> {
    /// A parser that consumes one symbol the same as `a`.
    pub fn symbol(a: Sym) -> (r: Self)
        ensures
            r.parser.sym == a,
    {
        Parser { parser: Symbol { sym: a } }
    }
}

impl Parser<AnySymbol> {
    /// A parser that consumes any one symbol.
    pub fn any_symbol() -> (r: Self)
        ensures
            r.parser == AnySymbol,
    {
        Parser { parser: AnySymbol }
    }
}

impl<F> Parser<Satisfy<F>> {
    /// A parser that consumes one symbol of which `c` holds.
    pub fn satisfy(c: F) -> (r: Self)
        ensures
            r.parser.pred == c,
    {
        Parser { parser: Satisfy { pred: c } }
    }
}

impl<Sym: SymbolEq> Parser<Token<Sym>> {
    /// A parser that consumes the symbols of `word`, in order.
    pub fn token(word: Vec<Sym>) -> (r: Self)
        ensures
            r.parser.word == word,
    {
        Parser { parser: Token { word } }
    }
}

impl<Sym: BracketSymbol> Parser<GreedyStackSymbol<Sym>> {
    /// A parser that takes symbols up to the occurrence of `a` that closes
    /// every bracket opened on the way.
    pub fn greedy_stack_symbol(a: Sym) -> (r: Self)
        ensures
            r.parser.sym == a,
    {
        Parser { parser: GreedyStackSymbol { sym: a } }
    }
}

} // verus!
