//! Ordered colour stops and the piecewise-linear blend between them.
//!
//! Positions are exact rationals in `[0, 1]`, so a blend is computed without
//! rounding until the very end, where each channel goes to the nearest 8-bit
//! value and a tie goes to the lower one.
//!
//! A position below the first stop takes the first stop's colour, and a
//! position above the last stop takes the last stop's colour.

use vstd::prelude::*;

verus! {

/// `a < b` for two fractions with positive denominators.
pub open spec fn ratio_lt(a: (int, int), b: (int, int)) -> bool {
    a.0 * b.1 < b.0 * a.1
}

/// `a <= b` for two fractions with positive denominators.
pub open spec fn ratio_le(a: (int, int), b: (int, int)) -> bool {
    a.0 * b.1 <= b.0 * a.1
}

/// `a == b` as rationals.
pub open spec fn ratio_eq(a: (int, int), b: (int, int)) -> bool {
    a.0 * b.1 == b.0 * a.1
}

/// A fraction in `[0, 1]` whose parts fit in 32 bits.
pub open spec fn is_position(p: (int, int)) -> bool {
    0 <= p.0 <= p.1 && 0 < p.1 <= u32::MAX
}

/// A place on the colour ramp: a rational in `[0, 1]`.
#[derive(Clone, Copy, Debug)]
pub struct Position {
    numer: u32,
    denom: u32,
}

impl View for Position {
    type V = (int, int);

    /// Numerator and denominator.
    closed spec fn view(&self) -> (int, int) {
        (self.numer as int, self.denom as int)
    }
}

/// The product of two 32-bit factors fits in 64 bits.
proof fn lemma_cross_fits(a: u32, b: u32)
    ensures
        0 <= a * b <= 0xffff_fffe_0000_0001,
{
    assert(0 <= a * b <= 0xffff_ffff * 0xffff_ffff) by (nonlinear_arith)
        requires
            0 <= a <= 0xffff_ffff,
            0 <= b <= 0xffff_ffff,
    ;
}

impl Position {
    #[verifier::type_invariant]
    closed spec fn inv(self) -> bool {
        is_position(self@)
    }

    /// The position `numer / denom`; `None` unless it lies in `[0, 1]`.
    pub fn new(numer: u32, denom: u32) -> (r: Option<Position>)
        ensures
            r.is_some() <==> denom > 0 && numer <= denom,
            r matches Some(p) ==> p@ == (numer as int, denom as int) && is_position(p@),
    {
        if denom == 0 || numer > denom {
            None
        } else {
            Some(Position { numer, denom })
        }
    }

    /// The numerator, as given.
    pub fn numer(&self) -> (n: u32)
        ensures
            n == self@.0,
    {
        self.numer
    }

    /// The denominator, as given.
    pub fn denom(&self) -> (d: u32)
        ensures
            d == self@.1,
    {
        self.denom
    }

    /// Whether this position lies strictly before `other`.
    pub fn is_before(&self, other: &Position) -> (b: bool)
        ensures
            b == ratio_lt(self@, other@),
    {
        proof {
            lemma_cross_fits(self.numer, other.denom);
            lemma_cross_fits(other.numer, self.denom);
        }
        (self.numer as u64) * (other.denom as u64) < (other.numer as u64) * (self.denom as u64)
    }

    /// Whether this position and `other` are the same rational.
    pub fn coincides(&self, other: &Position) -> (b: bool)
        ensures
            b == ratio_eq(self@, other@),
    {
        proof {
            lemma_cross_fits(self.numer, other.denom);
            lemma_cross_fits(other.numer, self.denom);
        }
        (self.numer as u64) * (other.denom as u64) == (other.numer as u64) * (self.denom as u64)
    }
}

/// An RGB colour with 8 bits per channel.
#[derive(Clone, Copy, Debug, PartialEq, Eq, Structural)]
pub struct Color {
    pub r: u8,
    pub g: u8,
    pub b: u8,
}

/// Why a palette has no colour to give.
#[derive(Clone, Copy, Debug, PartialEq, Eq, Structural)]
pub enum PaletteError {
    /// The palette has no stop.
    Empty,
    /// The velocity is above the cap, or the cap is zero.
    NotNormalized,
}

/// A colour stop as the contracts see it.
pub struct StopView {
    pub position: (int, int),
    pub color: Color,
}

/// A colour anchored at a position.
#[derive(Clone, Copy, Debug)]
struct Stop {
    position: Position,
    color: Color,
}

impl View for Stop {
    type V = StopView;

    closed spec fn view(&self) -> StopView {
        StopView { position: self.position@, color: self.color }
    }
}

/// Stops at positions in `[0, 1]`, in strictly ascending order.
pub open spec fn is_palette(stops: Seq<StopView>) -> bool {
    &&& forall|i: int| 0 <= i < stops.len() ==> is_position((#[trigger] stops[i]).position)
    &&& forall|i: int, j: int|
        0 <= i < j < stops.len() ==> ratio_lt(
            (#[trigger] stops[i]).position,
            (#[trigger] stops[j]).position,
        )
}

/// The number of stops that lie strictly before `k`.
pub open spec fn rank(stops: Seq<StopView>, k: (int, int)) -> int
    decreases stops.len(),
{
    if stops.len() == 0 {
        0
    } else {
        rank(stops.drop_last(), k) + if ratio_lt(stops.last().position, k) {
            1int
        } else {
            0int
        }
    }
}

/// Numerator of the blend factor `(k - p) / (q - p)`.
pub open spec fn blend_numer(p: (int, int), q: (int, int), k: (int, int)) -> int {
    (k.0 * p.1 - p.0 * k.1) * q.1
}

/// Denominator of the blend factor `(k - p) / (q - p)`.
pub open spec fn blend_denom(p: (int, int), q: (int, int), k: (int, int)) -> int {
    (q.0 * p.1 - p.0 * q.1) * k.1
}

/// The integer nearest to `x / d`; of two that are equally near, the lower.
pub open spec fn round_nearest(x: int, d: int) -> int {
    (2 * x + d - 1) / (2 * d)
}

/// One channel of the blend `a * (1 - t) + b * t` for `t = n / d`, rounded.
pub open spec fn mix(a: u8, b: u8, n: int, d: int) -> int {
    round_nearest(a * (d - n) + b * n, d)
}

/// The colour at `k` between the stops `prev` and `cur`.
pub open spec fn blend(prev: StopView, cur: StopView, k: (int, int)) -> Color {
    let n = blend_numer(prev.position, cur.position, k);
    let d = blend_denom(prev.position, cur.position, k);
    Color {
        r: mix(prev.color.r, cur.color.r, n, d) as u8,
        g: mix(prev.color.g, cur.color.g, n, d) as u8,
        b: mix(prev.color.b, cur.color.b, n, d) as u8,
    }
}

/// The colour of a palette with at least one stop at position `k`.
pub open spec fn color_on(stops: Seq<StopView>, k: (int, int)) -> Color
    recommends
        stops.len() > 0,
{
    let i = rank(stops, k);
    if i == 0 {
        stops[0].color
    } else if i == stops.len() {
        stops[stops.len() - 1].color
    } else {
        blend(stops[i - 1], stops[i], k)
    }
}

/// The stops after `s` has been added: `s` replaces the stop at its position
/// if there is one, and otherwise goes in where the order wants it.
pub open spec fn with_stop(stops: Seq<StopView>, s: StopView) -> Seq<StopView> {
    let i = rank(stops, s.position);
    if i < stops.len() && ratio_eq(stops[i].position, s.position) {
        stops.update(i, s)
    } else {
        stops.insert(i, s)
    }
}

/// `a <= b` and `b < c` give `a < c`.
pub proof fn lemma_le_lt(a: (int, int), b: (int, int), c: (int, int))
    requires
        a.1 > 0,
        b.1 > 0,
        c.1 > 0,
        ratio_le(a, b),
        ratio_lt(b, c),
    ensures
        ratio_lt(a, c),
{
    assert((a.0 * b.1) * c.1 <= (b.0 * a.1) * c.1) by (nonlinear_arith)
        requires
            a.0 * b.1 <= b.0 * a.1,
            c.1 > 0,
    ;
    assert((b.0 * c.1) * a.1 < (c.0 * b.1) * a.1) by (nonlinear_arith)
        requires
            b.0 * c.1 < c.0 * b.1,
            a.1 > 0,
    ;
    assert((b.0 * a.1) * c.1 == (b.0 * c.1) * a.1) by (nonlinear_arith);
    assert((a.0 * b.1) * c.1 == (a.0 * c.1) * b.1) by (nonlinear_arith);
    assert((c.0 * b.1) * a.1 == (c.0 * a.1) * b.1) by (nonlinear_arith);
    assert(a.0 * c.1 < c.0 * a.1) by (nonlinear_arith)
        requires
            (a.0 * c.1) * b.1 < (c.0 * a.1) * b.1,
            b.1 > 0,
    ;
}

/// `a < b` and `b <= c` give `a < c`.
pub proof fn lemma_lt_le(a: (int, int), b: (int, int), c: (int, int))
    requires
        a.1 > 0,
        b.1 > 0,
        c.1 > 0,
        ratio_lt(a, b),
        ratio_le(b, c),
    ensures
        ratio_lt(a, c),
{
    assert((a.0 * b.1) * c.1 < (b.0 * a.1) * c.1) by (nonlinear_arith)
        requires
            a.0 * b.1 < b.0 * a.1,
            c.1 > 0,
    ;
    assert((b.0 * c.1) * a.1 <= (c.0 * b.1) * a.1) by (nonlinear_arith)
        requires
            b.0 * c.1 <= c.0 * b.1,
            a.1 > 0,
    ;
    assert((b.0 * a.1) * c.1 == (b.0 * c.1) * a.1) by (nonlinear_arith);
    assert((a.0 * b.1) * c.1 == (a.0 * c.1) * b.1) by (nonlinear_arith);
    assert((c.0 * b.1) * a.1 == (c.0 * a.1) * b.1) by (nonlinear_arith);
    assert(a.0 * c.1 < c.0 * a.1) by (nonlinear_arith)
        requires
            (a.0 * c.1) * b.1 < (c.0 * a.1) * b.1,
            b.1 > 0,
    ;
}

/// Where the stops before index `i` lie before `k` and the others do not,
/// `i` is the rank of `k`.
pub proof fn lemma_rank_is(stops: Seq<StopView>, k: (int, int), i: int)
    requires
        0 <= i <= stops.len(),
        forall|j: int| 0 <= j < i ==> ratio_lt((#[trigger] stops[j]).position, k),
        forall|j: int| i <= j < stops.len() ==> !ratio_lt((#[trigger] stops[j]).position, k),
    ensures
        rank(stops, k) == i,
    decreases stops.len(),
{
    if stops.len() > 0 {
        let front = stops.drop_last();
        let last = stops.len() - 1;
        assert(stops.last() == stops[last]);
        assert forall|j: int| 0 <= j < front.len() implies front[j] == stops[j] by {}
        if i == stops.len() {
            lemma_rank_is(front, k, i - 1);
        } else {
            lemma_rank_is(front, k, i);
        }
    }
}

/// In a palette the rank of `k` splits the stops: those before it lie before
/// `k`, the others do not.
pub proof fn lemma_rank_splits(stops: Seq<StopView>, k: (int, int))
    requires
        is_palette(stops),
        k.1 > 0,
    ensures
        0 <= rank(stops, k) <= stops.len(),
        forall|j: int| 0 <= j < rank(stops, k) ==> ratio_lt((#[trigger] stops[j]).position, k),
        forall|j: int|
            rank(stops, k) <= j < stops.len() ==> !ratio_lt((#[trigger] stops[j]).position, k),
    decreases stops.len(),
{
    if stops.len() > 0 {
        let front = stops.drop_last();
        let last = stops.len() - 1;
        assert(stops.last() == stops[last]);
        assert forall|j: int| 0 <= j < front.len() implies front[j] == stops[j] by {}
        lemma_rank_splits(front, k);
        if ratio_lt(stops[last].position, k) {
            assert forall|j: int| 0 <= j < last implies ratio_lt(
                (#[trigger] stops[j]).position,
                k,
            ) by {
                lemma_lt_le(stops[j].position, stops[last].position, k);
            }
            lemma_rank_is(front, k, last);
        }
    }
}

/// The blend factor of a position `k` with `p < k <= q` lies in `(0, 1]`.
pub proof fn lemma_blend_factor(p: (int, int), q: (int, int), k: (int, int))
    requires
        is_position(p),
        is_position(q),
        is_position(k),
        ratio_lt(p, k),
        ratio_le(k, q),
    ensures
        0 < blend_numer(p, q, k) <= blend_denom(p, q, k),
        blend_denom(p, q, k) <= 0xffff_ffff * 0xffff_ffff * 0xffff_ffff,
        ratio_eq(k, q) ==> blend_numer(p, q, k) == blend_denom(p, q, k),
{
    let n = blend_numer(p, q, k);
    let d = blend_denom(p, q, k);
    lemma_lt_le(p, k, q);
    assert(n > 0) by (nonlinear_arith)
        requires
            n == (k.0 * p.1 - p.0 * k.1) * q.1,
            k.0 * p.1 - p.0 * k.1 > 0,
            q.1 > 0,
    ;
    assert(d - n == p.1 * (q.0 * k.1 - k.0 * q.1)) by (nonlinear_arith)
        requires
            n == (k.0 * p.1 - p.0 * k.1) * q.1,
            d == (q.0 * p.1 - p.0 * q.1) * k.1,
    ;
    assert(p.1 * (q.0 * k.1 - k.0 * q.1) >= 0) by (nonlinear_arith)
        requires
            p.1 > 0,
            q.0 * k.1 - k.0 * q.1 >= 0,
    ;
    assert(q.0 * p.1 <= 0xffff_ffff * 0xffff_ffff) by (nonlinear_arith)
        requires
            0 <= q.0 <= 0xffff_ffff,
            0 <= p.1 <= 0xffff_ffff,
    ;
    assert(p.0 * q.1 >= 0) by (nonlinear_arith)
        requires
            0 <= p.0,
            0 <= q.1,
    ;
    assert(d <= 0xffff_ffff * 0xffff_ffff * 0xffff_ffff) by (nonlinear_arith)
        requires
            d == (q.0 * p.1 - p.0 * q.1) * k.1,
            0 <= q.0 * p.1 - p.0 * q.1 <= 0xffff_ffff * 0xffff_ffff,
            0 <= k.1 <= 0xffff_ffff,
    ;
    if ratio_eq(k, q) {
        assert(p.1 * (q.0 * k.1 - k.0 * q.1) == 0) by (nonlinear_arith)
            requires
                q.0 * k.1 - k.0 * q.1 == 0,
        ;
    }
}

/// `round_nearest(x, d)` is within one half of `x / d`, and where two
/// integers are that near it is the lower one.
pub proof fn lemma_round_nearest(x: int, d: int)
    requires
        d > 0,
    ensures
        2 * d * round_nearest(x, d) - d < 2 * x <= 2 * d * round_nearest(x, d) + d,
{
    let r = round_nearest(x, d);
    let y = 2 * x + d - 1;
    let m = 2 * d;
    assert(m * (y / m) <= y < m * (y / m) + m) by (nonlinear_arith)
        requires
            m > 0,
    ;
    assert(2 * d * r == m * r) by (nonlinear_arith)
        requires
            m == 2 * d,
    ;
}

/// One integer only is that near to `x / d`.
pub proof fn lemma_round_nearest_unique(x: int, d: int, r: int)
    requires
        d > 0,
        2 * d * r - d < 2 * x <= 2 * d * r + d,
    ensures
        r == round_nearest(x, d),
{
    lemma_round_nearest(x, d);
    let s = round_nearest(x, d);
    assert(r == s) by (nonlinear_arith)
        requires
            d > 0,
            2 * d * r - d < 2 * x <= 2 * d * r + d,
            2 * d * s - d < 2 * x <= 2 * d * s + d,
    ;
}

/// A blended channel lies between the two channels it blends, and at the
/// ends of the interval it is the channel of that end.
pub proof fn lemma_mix_between(a: u8, b: u8, n: int, d: int)
    requires
        0 <= n <= d,
        0 < d,
    ensures
        a <= b ==> a <= mix(a, b, n, d) <= b,
        b <= a ==> b <= mix(a, b, n, d) <= a,
        n == d ==> mix(a, b, n, d) == b,
        n == 0 ==> mix(a, b, n, d) == a,
{
    let x = a * (d - n) + b * n;
    lemma_round_nearest(x, d);
    let r = round_nearest(x, d);
    if a <= b {
        assert(a * d <= x <= b * d) by (nonlinear_arith)
            requires
                x == a * (d - n) + b * n,
                0 <= n <= d,
                0 <= a <= b,
        ;
    }
    if b <= a {
        assert(b * d <= x <= a * d) by (nonlinear_arith)
            requires
                x == a * (d - n) + b * n,
                0 <= n <= d,
                0 <= b <= a,
        ;
    }
    if n == d {
        assert(x == b * d && 2 * d * b == 2 * x) by (nonlinear_arith)
            requires
                x == a * (d - n) + b * n,
                n == d,
        ;
        lemma_round_nearest_unique(x, d, b as int);
    }
    if n == 0 {
        assert(x == a * d && 2 * d * a == 2 * x) by (nonlinear_arith)
            requires
                x == a * (d - n) + b * n,
                n == 0,
        ;
        lemma_round_nearest_unique(x, d, a as int);
    }
    let lo: int = if a <= b { a as int } else { b as int };
    let hi: int = if a <= b { b as int } else { a as int };
    assert(lo <= r <= hi) by (nonlinear_arith)
        requires
            d > 0,
            lo * d <= x <= hi * d,
            2 * d * r - d < 2 * x <= 2 * d * r + d,
    ;
}

/// One channel of a blend, computed in 128 bits.
fn mix_channel(a: u8, b: u8, n: u128, d: u128) -> (c: u8)
    requires
        0 < d <= 0xffff_ffff * 0xffff_ffff * 0xffff_ffff,
        n <= d,
    ensures
        c == mix(a, b, n as int, d as int),
{
    proof {
        lemma_mix_between(a, b, n as int, d as int);
        assert(a * (d - n) + b * n <= 255 * d) by (nonlinear_arith)
            requires
                0 <= n <= d,
                0 <= a <= 255,
                0 <= b <= 255,
        ;
        assert(0 <= a * (d - n) && 0 <= b * n) by (nonlinear_arith)
            requires
                0 <= n <= d,
                0 <= a,
                0 <= b,
        ;
    }
    let x: u128 = (a as u128) * (d - n) + (b as u128) * n;
    let r: u128 = (2 * x + d - 1) / (2 * d);
    r as u8
}

/// An ordered colour ramp: stops at distinct positions, kept in ascending
/// order.
#[derive(Debug)]
pub struct Palette {
    stops: Vec<Stop>,
}

impl View for Palette {
    type V = Seq<StopView>;

    /// The stops in ascending order.
    closed spec fn view(&self) -> Seq<StopView> {
        Seq::new(self.stops@.len(), |i: int| self.stops@[i]@)
    }
}

impl Palette {
    #[verifier::type_invariant]
    closed spec fn inv(self) -> bool {
        is_palette(self@)
    }

    /// A palette without stops.
    pub fn new() -> (p: Palette)
        ensures
            p@ == Seq::<StopView>::empty(),
            is_palette(p@),
    {
        let p = Palette { stops: Vec::new() };
        assert(p@ =~= Seq::<StopView>::empty());
        p
    }

    /// The number of stops.
    pub fn len(&self) -> (n: usize)
        ensures
            n == self@.len(),
    {
        self.stops.len()
    }

    /// Whether the palette has no stop.
    pub fn is_empty(&self) -> (b: bool)
        ensures
            b == (self@.len() == 0),
    {
        self.stops.len() == 0
    }

    /// The stop at `index` in ascending order, if there is one.
    pub fn stop(&self, index: usize) -> (r: Option<(Position, Color)>)
        ensures
            r.is_some() <==> index < self@.len(),
            r matches Some(s) ==> s.0@ == self@[index as int].position && s.1
                == self@[index as int].color,
    {
        if index < self.stops.len() {
            let s = self.stops[index];
            Some((s.position, s.color))
        } else {
            None
        }
    }

    /// The number of stops that lie strictly before `k`.
    fn rank_of(&self, k: &Position) -> (i: usize)
        ensures
            i == rank(self@, k@),
            i <= self@.len(),
    {
        proof {
            use_type_invariant(self);
            use_type_invariant(k);
        }
        let mut i: usize = 0;
        while i < self.stops.len() && self.stops[i].position.is_before(k)
            invariant
                i <= self.stops.len(),
                self@.len() == self.stops.len(),
                forall|j: int| 0 <= j < i ==> ratio_lt((#[trigger] self@[j]).position, k@),
            decreases self.stops.len() - i,
        {
            i = i + 1;
        }
        proof {
            lemma_rank_splits(self@, k@);
            let r = rank(self@, k@);
            if r < i {
                assert(ratio_lt(self@[r].position, k@));
            }
            if i < r {
                assert(ratio_lt(self@[i as int].position, k@));
            }
        }
        i
    }

    /// Puts `color` at `position`: a stop that is already there gets the new
    /// colour, and the order of the stops is kept.
    pub fn add_stop(&mut self, position: Position, color: Color)
        ensures
            final(self)@ == with_stop(old(self)@, StopView { position: position@, color }),
            is_palette(final(self)@),
    {
        proof {
            use_type_invariant(&*self);
            use_type_invariant(&position);
        }
        let ghost before = self@;
        let ghost added = StopView { position: position@, color };
        let i: usize = self.rank_of(&position);
        proof {
            lemma_with_stop_is_palette(before, added);
        }
        let mut stops: Vec<Stop> = Vec::new();
        core::mem::swap(&mut self.stops, &mut stops);
        assert(before =~= Seq::new(stops@.len(), |j: int| stops@[j]@));
        if i < stops.len() && stops[i].position.coincides(&position) {
            stops.set(i, Stop { position, color });
            assert(before.update(i as int, added) =~= Seq::new(stops@.len(), |j: int| stops@[j]@));
        } else {
            stops.insert(i, Stop { position, color });
            assert(before.insert(i as int, added) =~= Seq::new(stops@.len(), |j: int| stops@[j]@));
        }
        self.stops = stops;
    }

    /// The colour at `k`: the first stop's colour up to the first stop, the
    /// last stop's colour beyond the last stop, and between two stops their
    /// blend. An empty palette has no colour.
    pub fn color_at(&self, k: Position) -> (r: Result<Color, PaletteError>)
        ensures
            self@.len() == 0 ==> r == Err::<Color, PaletteError>(PaletteError::Empty),
            self@.len() > 0 ==> r == Ok::<Color, PaletteError>(color_on(self@, k@)),
    {
        proof {
            use_type_invariant(self);
            use_type_invariant(&k);
        }
        let len: usize = self.stops.len();
        if len == 0 {
            return Err(PaletteError::Empty);
        }
        let i: usize = self.rank_of(&k);
        if i == 0 {
            return Ok(self.stops[0].color);
        }
        if i == len {
            return Ok(self.stops[len - 1].color);
        }
        let prev = self.stops[i - 1];
        let cur = self.stops[i];
        let p = prev.position;
        let q = cur.position;
        proof {
            lemma_rank_splits(self@, k@);
            assert(self@[i - 1] == prev@);
            assert(self@[i as int] == cur@);
            assert(ratio_lt(p@, k@));
            assert(ratio_le(k@, q@));
            lemma_blend_factor(p@, q@, k@);
            lemma_cross_fits(k.numer, p.denom);
            lemma_cross_fits(p.numer, k.denom);
            lemma_cross_fits(q.numer, p.denom);
            lemma_cross_fits(p.numer, q.denom);
            assert((k@.0 * p@.1 - p@.0 * k@.1) * q@.1 <= 0xffff_ffff * 0xffff_ffff * 0xffff_ffff)
                by (nonlinear_arith)
                requires
                    0 <= k@.0 * p@.1 - p@.0 * k@.1 <= 0xffff_ffff * 0xffff_ffff,
                    0 <= q@.1 <= 0xffff_ffff,
            ;
        }
        let (kn, kd): (u128, u128) = (k.numer as u128, k.denom as u128);
        let (pn, pd): (u128, u128) = (p.numer as u128, p.denom as u128);
        let (qn, qd): (u128, u128) = (q.numer as u128, q.denom as u128);
        let n: u128 = (kn * pd - pn * kd) * qd;
        let d: u128 = (qn * pd - pn * qd) * kd;
        Ok(
            Color {
                r: mix_channel(prev.color.r, cur.color.r, n, d),
                g: mix_channel(prev.color.g, cur.color.g, n, d),
                b: mix_channel(prev.color.b, cur.color.b, n, d),
            },
        )
    }
}

/// Adding a stop to a palette gives a palette.
pub proof fn lemma_with_stop_is_palette(stops: Seq<StopView>, s: StopView)
    requires
        is_palette(stops),
        is_position(s.position),
    ensures
        is_palette(with_stop(stops, s)),
{
    let i = rank(stops, s.position);
    let after = with_stop(stops, s);
    lemma_rank_splits(stops, s.position);
    if i < stops.len() && ratio_eq(stops[i].position, s.position) {
        assert forall|a: int, b: int| 0 <= a < b < after.len() implies ratio_lt(
            (#[trigger] after[a]).position,
            (#[trigger] after[b]).position,
        ) by {
            assert(ratio_lt(stops[a].position, stops[b].position));
            if a == i {
                lemma_le_lt(s.position, stops[i].position, stops[b].position);
            } else if b == i {
                lemma_lt_le(stops[a].position, stops[i].position, s.position);
            }
        }
    } else {
        assert forall|a: int, b: int| 0 <= a < b < after.len() implies ratio_lt(
            (#[trigger] after[a]).position,
            (#[trigger] after[b]).position,
        ) by {
            if a == i {
                // the stop at b - 1 is not before s and differs from it
                let c = stops[b - 1];
                assert(!ratio_lt(c.position, s.position));
                if b - 1 > i {
                    assert(ratio_lt(stops[i].position, c.position));
                    assert(!ratio_lt(stops[i].position, s.position));
                    lemma_le_lt(s.position, stops[i].position, c.position);
                }
            } else if b == i {
                assert(ratio_lt(stops[a].position, s.position));
            } else {
                let a0 = if a < i { a } else { a - 1 };
                let b0 = if b < i { b } else { b - 1 };
                assert(after[a] == stops[a0]);
                assert(after[b] == stops[b0]);
                assert(ratio_lt(stops[a0].position, stops[b0].position));
            }
        }
        assert forall|a: int| 0 <= a < after.len() implies is_position(
            (#[trigger] after[a]).position,
        ) by {
            if a != i {
                let a0 = if a < i { a } else { a - 1 };
                assert(after[a] == stops[a0]);
            }
        }
    }
}

impl Clone for Palette {
    /// A palette with the same stops.
    fn clone(&self) -> (r: Self)
        ensures
            r@ == self@,
    {
        proof {
            use_type_invariant(self);
        }
        let mut stops: Vec<Stop> = Vec::new();
        let mut i: usize = 0;
        while i < self.stops.len()
            invariant
                i <= self.stops.len(),
                stops@ == self.stops@.take(i as int),
            decreases self.stops.len() - i,
        {
            stops.push(self.stops[i]);
            assert(stops@ =~= self.stops@.take(i + 1));
            i = i + 1;
        }
        assert(stops@ =~= self.stops@);
        Palette { stops }
    }
}

/// The colour of an escape velocity: the palette's colour at
/// `velocity / cap`.
pub fn gradient(velocity: u32, cap: u32, palette: &Palette) -> (r: Result<Color, PaletteError>)
    ensures
        cap == 0 || velocity > cap ==> r == Err::<Color, PaletteError>(
            PaletteError::NotNormalized,
        ),
        0 < cap && velocity <= cap && palette@.len() == 0 ==> r == Err::<Color, PaletteError>(
            PaletteError::Empty,
        ),
        0 < cap && velocity <= cap && palette@.len() > 0 ==> r == Ok::<Color, PaletteError>(
            color_on(palette@, (velocity as int, cap as int)),
        ),
{
    match Position::new(velocity, cap) {
        Some(k) => palette.color_at(k),
        None => Err(PaletteError::NotNormalized),
    }
}

/// Up to the first stop the colour is flat: a position at or before it takes
/// the first stop's colour unchanged.
pub proof fn lemma_flat_below(stops: Seq<StopView>, k: (int, int))
    requires
        is_palette(stops),
        stops.len() > 0,
        k.1 > 0,
        ratio_le(k, stops[0].position),
    ensures
        color_on(stops, k) == stops[0].color,
{
    assert forall|j: int| 0 <= j < stops.len() implies !ratio_lt(
        (#[trigger] stops[j]).position,
        k,
    ) by {
        if j > 0 {
            lemma_le_lt(k, stops[0].position, stops[j].position);
        }
    }
    lemma_rank_is(stops, k, 0);
}

/// Beyond the last stop the colour is flat: a position after it takes the
/// last stop's colour unchanged.
pub proof fn lemma_flat_above(stops: Seq<StopView>, k: (int, int))
    requires
        is_palette(stops),
        stops.len() > 0,
        k.1 > 0,
        ratio_lt(stops[stops.len() - 1].position, k),
    ensures
        color_on(stops, k) == stops[stops.len() - 1].color,
{
    let last = stops.len() - 1;
    assert forall|j: int| 0 <= j < stops.len() implies ratio_lt(
        (#[trigger] stops[j]).position,
        k,
    ) by {
        if j < last {
            lemma_lt_le(stops[j].position, stops[last].position, k);
        }
    }
    lemma_rank_is(stops, k, stops.len() as int);
}

/// At the position of a stop the colour is that stop's colour.
pub proof fn lemma_color_at_stop(stops: Seq<StopView>, i: int)
    requires
        is_palette(stops),
        0 <= i < stops.len(),
    ensures
        color_on(stops, stops[i].position) == stops[i].color,
{
    let k = stops[i].position;
    assert forall|j: int| i <= j < stops.len() implies !ratio_lt(
        (#[trigger] stops[j]).position,
        k,
    ) by {
        if j > i {
            assert(ratio_lt(stops[i].position, stops[j].position));
        }
    }
    lemma_rank_is(stops, k, i);
    if i > 0 {
        let prev = stops[i - 1];
        let cur = stops[i];
        lemma_blend_factor(prev.position, cur.position, k);
        let d = blend_denom(prev.position, cur.position, k);
        lemma_mix_between(prev.color.r, cur.color.r, d, d);
        lemma_mix_between(prev.color.g, cur.color.g, d, d);
        lemma_mix_between(prev.color.b, cur.color.b, d, d);
    }
}

/// A stop that has just been added is found again: the colour at its
/// position is its colour.
pub proof fn lemma_added_stop_is_found(stops: Seq<StopView>, s: StopView)
    requires
        is_palette(stops),
        is_position(s.position),
    ensures
        color_on(with_stop(stops, s), s.position) == s.color,
{
    let i = rank(stops, s.position);
    lemma_rank_splits(stops, s.position);
    lemma_with_stop_is_palette(stops, s);
    let after = with_stop(stops, s);
    assert(after[i] == s);
    lemma_color_at_stop(after, i);
}

/// Between two stops every channel of the colour lies between the channels
/// of the two stops.
pub proof fn lemma_color_between(stops: Seq<StopView>, k: (int, int))
    requires
        is_palette(stops),
        is_position(k),
        0 < rank(stops, k) < stops.len(),
    ensures
        ({
            let p = stops[rank(stops, k) - 1].color;
            let q = stops[rank(stops, k)].color;
            let c = color_on(stops, k);
            &&& (p.r <= c.r <= q.r || q.r <= c.r <= p.r)
            &&& (p.g <= c.g <= q.g || q.g <= c.g <= p.g)
            &&& (p.b <= c.b <= q.b || q.b <= c.b <= p.b)
        }),
{
    let i = rank(stops, k);
    lemma_rank_splits(stops, k);
    let prev = stops[i - 1];
    let cur = stops[i];
    assert(ratio_lt(prev.position, k));
    assert(!ratio_lt(cur.position, k));
    lemma_blend_factor(prev.position, cur.position, k);
    let n = blend_numer(prev.position, cur.position, k);
    let d = blend_denom(prev.position, cur.position, k);
    lemma_mix_between(prev.color.r, cur.color.r, n, d);
    lemma_mix_between(prev.color.g, cur.color.g, n, d);
    lemma_mix_between(prev.color.b, cur.color.b, n, d);
}

/// The ramp from `a` at 0 to `b` at 1.
pub open spec fn ramp(a: Color, b: Color) -> Seq<StopView> {
    seq![
        StopView { position: (0, 1), color: a },
        StopView { position: (1, 1), color: b },
    ]
}

/// On the ramp from `a` to `b` the colour at 0 is `a`, the colour at 1 is
/// `b`, and the colour at one half is their midpoint, channel by channel,
/// with a half rounded down.
pub proof fn lemma_ramp(a: Color, b: Color)
    ensures
        is_palette(ramp(a, b)),
        color_on(ramp(a, b), (0, 1)) == a,
        color_on(ramp(a, b), (1, 1)) == b,
        color_on(ramp(a, b), (1, 2)) == (Color {
            r: ((a.r + b.r) / 2) as u8,
            g: ((a.g + b.g) / 2) as u8,
            b: ((a.b + b.b) / 2) as u8,
        }),
{
    let stops = ramp(a, b);
    assert(stops.len() == 2);
    assert(stops[0] == StopView { position: (0, 1), color: a });
    assert(stops[1] == StopView { position: (1, 1), color: b });
    assert forall|i: int| 0 <= i < stops.len() implies is_position(
        (#[trigger] stops[i]).position,
    ) by {
        assert(i == 0 || i == 1);
    }
    assert forall|i: int, j: int| 0 <= i < j < stops.len() implies ratio_lt(
        (#[trigger] stops[i]).position,
        (#[trigger] stops[j]).position,
    ) by {
        assert(i == 0 && j == 1);
    }
    lemma_color_at_stop(stops, 0);
    lemma_color_at_stop(stops, 1);
    assert forall|j: int| 1 <= j < stops.len() implies !ratio_lt(
        (#[trigger] stops[j]).position,
        (1, 2),
    ) by {
        assert(j == 1);
    }
    assert(ratio_lt(stops[0].position, (1, 2)));
    lemma_rank_is(stops, (1, 2), 1);
    assert(blend_numer((0, 1), (1, 1), (1, 2)) == 1);
    assert(blend_denom((0, 1), (1, 1), (1, 2)) == 2);
    lemma_midpoint(a.r, b.r);
    lemma_midpoint(a.g, b.g);
    lemma_midpoint(a.b, b.b);
}

/// Half way between two channels lies their mean, a half rounded down.
pub proof fn lemma_midpoint(a: u8, b: u8)
    ensures
        mix(a, b, 1, 2) == (a + b) / 2,
{
}

} // verus!
