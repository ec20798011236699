use vstd::prelude::*;

use crate::geometry::lemma_product_bound;

verus! {

/// A closed interval from `start` to `end`; `start` may exceed `end`, which reverses a
/// mapping.
#[derive(Clone, Copy, Debug, PartialEq, Eq, Structural)]
pub struct Interval {
    pub start: i32,
    pub end: i32,
}

impl Interval {
    pub fn new(start: i32, end: i32) -> (r: Interval)
        ensures
            r.start == start,
            r.end == end,
    {
        Interval { start, end }
    }
}

/// How should we handle out of bounds values? Clamp them, or allow them to overflow the range?
#[derive(Clone, Copy, Debug, PartialEq, Eq, Structural)]
pub enum Overflow {
    Extend,
    Saturate,
}

/// A values vector combined with a transformation to display it.
#[derive(Clone, Debug)]
pub struct Feature {
    pub content: Vec<i32>,
    pub pipe: Pipe,
}

/// A linear transformation from an input space (the domain) to the display space (the
/// range), e.g. longitudes to the width of a map in scene units.
#[derive(Clone, Copy, Debug, PartialEq, Eq, Structural)]
pub struct Pipe {
    pub domain: Interval,
    pub range: Interval,
    pub overflow: Overflow,
}

pub open spec fn abs_int(a: int) -> int {
    if a < 0 {
        -a
    } else {
        a
    }
}

/// `a / b` rounded toward zero.
pub open spec fn quot(a: int, b: int) -> int {
    if (a >= 0) == (b >= 0) {
        abs_int(a) / abs_int(b)
    } else {
        -(abs_int(a) / abs_int(b))
    }
}

pub open spec fn clamp(v: int, lo: int, hi: int) -> int {
    if v < lo {
        lo
    } else if v > hi {
        hi
    } else {
        v
    }
}

pub open spec fn fits_i32(v: int) -> bool {
    i32::MIN <= v <= i32::MAX
}

/// A degenerate domain (`start == end`) widened by one unit at its end, so that a pipe
/// never divides by zero; any other interval as it is.
pub open spec fn widened(d: Interval) -> Interval {
    if d.start != d.end {
        d
    } else if d.end < i32::MAX {
        Interval { start: d.start, end: (d.end + 1) as i32 }
    } else {
        Interval { start: d.start, end: (d.end - 1) as i32 }
    }
}

/// The least value of a non-empty sequence.
pub open spec fn seq_min(s: Seq<i32>) -> int
    decreases s.len(),
{
    if s.len() <= 1 {
        s[0] as int
    } else {
        let m = seq_min(s.drop_last());
        if s.last() < m {
            s.last() as int
        } else {
            m
        }
    }
}

/// The greatest value of a non-empty sequence.
pub open spec fn seq_max(s: Seq<i32>) -> int
    decreases s.len(),
{
    if s.len() <= 1 {
        s[0] as int
    } else {
        let m = seq_max(s.drop_last());
        if s.last() > m {
            s.last() as int
        } else {
            m
        }
    }
}

impl Pipe {
    /// The domain is not a single point.
    pub open spec fn wf(&self) -> bool {
        self.domain.start != self.domain.end
    }

    /// The linear image of `v`, before any clamping, rounded toward zero.
    pub open spec fn linear(&self, v: int) -> int {
        self.range.start + quot(
            (v - self.domain.start) * (self.range.end - self.range.start),
            self.domain.end - self.domain.start,
        )
    }

    /// The lower and upper bound of the range.
    pub open spec fn range_lo(&self) -> int {
        if self.range.start <= self.range.end {
            self.range.start as int
        } else {
            self.range.end as int
        }
    }

    pub open spec fn range_hi(&self) -> int {
        if self.range.start <= self.range.end {
            self.range.end as int
        } else {
            self.range.start as int
        }
    }

    /// What `apply` computes for `v`.
    pub open spec fn spec_apply(&self, v: int) -> int {
        match self.overflow {
            Overflow::Extend => self.linear(v),
            Overflow::Saturate => clamp(self.linear(v), self.range_lo(), self.range_hi()),
        }
    }

    /// The pipe inferred from a sample: domain and range both span the sample's values.
    pub open spec fn inferred(content: Seq<i32>) -> Pipe {
        let d = if content.len() == 0 {
            Interval { start: i32::MIN, end: i32::MAX }
        } else {
            widened(Interval { start: seq_min(content) as i32, end: seq_max(content) as i32 })
        };
        Pipe { domain: d, range: d, overflow: Overflow::Extend }
    }

    pub fn new(domain: Interval, range: Interval) -> (r: Pipe)
        ensures
            r == (Pipe { domain: widened(domain), range, overflow: Overflow::Extend }),
            r.wf(),
    {
        Pipe { domain: widen(domain), range, overflow: Overflow::Extend }
    }

    pub fn overflow(self, overflow: Overflow) -> (r: Pipe)
        ensures
            r == (Pipe { overflow, ..self }),
    {
        Pipe { overflow, ..self }
    }

    pub fn infer_domain(self, content: &[i32]) -> (r: Pipe)
        ensures
            r == Pipe::inferred(content@),
            r.wf(),
    {
        if content.len() == 0 {
            let d = Interval { start: i32::MIN, end: i32::MAX };
            return Pipe { domain: d, range: d, overflow: Overflow::Extend };
        }
        let mut min: i32 = content[0];
        let mut max: i32 = content[0];
        let mut i: usize = 1;
        proof {
            assert(content@.subrange(0, 1).drop_last().len() == 0);
        }
        while i < content.len()
            invariant
                1 <= i <= content.len(),
                min == seq_min(content@.subrange(0, i as int)),
                max == seq_max(content@.subrange(0, i as int)),
            decreases content.len() - i,
        {
            proof {
                assert(content@.subrange(0, i as int + 1).drop_last() =~= content@.subrange(
                    0,
                    i as int,
                ));
            }
            if content[i] < min {
                min = content[i];
            }
            if content[i] > max {
                max = content[i];
            }
            i = i + 1;
        }
        proof {
            assert(content@.subrange(0, content@.len() as int) =~= content@);
        }
        let d = widen(Interval { start: min, end: max });
        Pipe { domain: d, range: d, overflow: Overflow::Extend }
    }

    pub fn set_domain(self, domain: &Interval) -> (r: Pipe)
        ensures
            r == (Pipe { domain: widened(*domain), ..self }),
    {
        Pipe { domain: widen(*domain), ..self }
    }

    pub fn fit_to(self, range: &Interval) -> (r: Pipe)
        ensures
            r == (Pipe { range: *range, ..self }),
    {
        Pipe { range: *range, ..self }
    }

    /// The exact result of `spec_apply(v)`, which always fits in an `i128`.
    pub fn apply_wide(&self, v: i32) -> (r: i128)
        requires
            self.wf(),
        ensures
            r == self.spec_apply(v as int),
    {
        let dv = v as i128 - self.domain.start as i128;
        let span = self.range.end as i128 - self.range.start as i128;
        proof {
            lemma_product_bound(dv as int, span as int);
        }
        let num = dv * span;
        let den = self.domain.end as i128 - self.domain.start as i128;
        let q = quotient(num, den);
        let val = self.range.start as i128 + q;
        match self.overflow {
            Overflow::Extend => val,
            Overflow::Saturate => {
                let (lo, hi) = if self.range.start <= self.range.end {
                    (self.range.start as i128, self.range.end as i128)
                } else {
                    (self.range.end as i128, self.range.start as i128)
                };
                if val < lo {
                    lo
                } else if val > hi {
                    hi
                } else {
                    val
                }
            },
        }
    }

    /// Apply this transformation to a value.
    pub fn apply(&self, v: i32) -> (r: i32)
        requires
            self.wf(),
            fits_i32(self.spec_apply(v as int)),
        ensures
            r == self.spec_apply(v as int),
    {
        self.apply_wide(v) as i32
    }

    /// Apply this transformation to a value, or `None` where the result leaves `i32`.
    pub fn checked_apply(&self, v: i32) -> (r: Option<i32>)
        requires
            self.wf(),
        ensures
            r == (if fits_i32(self.spec_apply(v as int)) {
                Some(self.spec_apply(v as int) as i32)
            } else {
                None
            }),
    {
        let w = self.apply_wide(v);
        if i32::MIN as i128 <= w && w <= i32::MAX as i128 {
            Some(w as i32)
        } else {
            None
        }
    }

    /// Bundle this pipe with a vector.
    pub fn bundle(self, content: Vec<i32>) -> (r: Feature)
        ensures
            r.content == content,
            r.pipe == self,
    {
        Feature { content, pipe: self }
    }
}

/// Create a pipe from a set of values as the domain.
impl<'a> From<&'a [i32]> for Pipe {
    fn from(content: &'a [i32]) -> (r: Pipe) {
        Pipe::new(Interval { start: 0, end: 1 }, Interval { start: 0, end: 1 }).infer_domain(content)
    }
}

impl<'a> vstd::std_specs::convert::FromSpecImpl<&'a [i32]> for Pipe {
    open spec fn obeys_from_spec() -> bool {
        true
    }

    open spec fn from_spec(v: &'a [i32]) -> Pipe {
        Pipe::inferred(v@)
    }
}

impl Feature {
    /// The content transformed by the pipe.
    pub fn convert(&self) -> (r: Vec<i32>)
        requires
            self.pipe.wf(),
            forall|i: int|
                0 <= i < self.content@.len() ==> fits_i32(
                    #[trigger] self.pipe.spec_apply(self.content@[i] as int),
                ),
        ensures
            r@.len() == self.content@.len(),
            forall|i: int|
                0 <= i < r@.len() ==> r@[i] == self.pipe.spec_apply(self.content@[i] as int),
    {
        let mut out: Vec<i32> = Vec::new();
        let mut i: usize = 0;
        while i < self.content.len()
            invariant
                self.pipe.wf(),
                i <= self.content@.len(),
                out@.len() == i,
                forall|j: int|
                    0 <= j < self.content@.len() ==> fits_i32(
                        #[trigger] self.pipe.spec_apply(self.content@[j] as int),
                    ),
                forall|j: int|
                    0 <= j < i ==> out@[j] == self.pipe.spec_apply(self.content@[j] as int),
            decreases self.content@.len() - i,
        {
            out.push(self.pipe.apply(self.content[i]));
            i = i + 1;
        }
        out
    }
}

fn widen(d: Interval) -> (r: Interval)
    ensures
        r == widened(d),
{
    if d.start != d.end {
        d
    } else if d.end < i32::MAX {
        Interval { start: d.start, end: d.end + 1 }
    } else {
        Interval { start: d.start, end: d.end - 1 }
    }
}

/// `a / b` rounded toward zero.
pub(crate) fn quotient(a: i128, b: i128) -> (r: i128)
    requires
        b != 0,
        -0x4000_0000_0000_0000_0000_0000_0000_0000 < a < 0x4000_0000_0000_0000_0000_0000_0000_0000,
        -0x4000_0000_0000_0000_0000_0000_0000_0000 < b < 0x4000_0000_0000_0000_0000_0000_0000_0000,
    ensures
        r == quot(a as int, b as int),
        abs_int(r as int) <= abs_int(a as int),
{
    let ua: u128 = if a < 0 {
        (-a) as u128
    } else {
        a as u128
    };
    let ub: u128 = if b < 0 {
        (-b) as u128
    } else {
        b as u128
    };
    let q: u128 = ua / ub;
    proof {
        assert(q <= ua) by (nonlinear_arith)
            requires
                q == ua / ub,
                ub >= 1,
        ;
    }
    if (a >= 0) == (b >= 0) {
        q as i128
    } else {
        -(q as i128)
    }
}

proof fn lemma_quot_of_multiple(k: int, d: int)
    requires
        d != 0,
    ensures
        quot(k * d, d) == k,
{
    assert(abs_int(k * d) == abs_int(k) * abs_int(d)) by (nonlinear_arith);
    vstd::arithmetic::div_mod::lemma_div_by_multiple(abs_int(k), abs_int(d));
    if k != 0 {
        assert((k * d >= 0) == ((k >= 0) == (d >= 0))) by (nonlinear_arith)
            requires
                k != 0,
                d != 0,
        ;
    }
}

/// A pipe maps the start of its domain exactly to the start of its range, and the end of
/// its domain exactly to the end of its range, whatever its overflow policy.
pub proof fn lemma_pipe_round_trip(p: Pipe)
    requires
        p.wf(),
    ensures
        p.spec_apply(p.domain.start as int) == p.range.start,
        p.spec_apply(p.domain.end as int) == p.range.end,
{
    let den = p.domain.end - p.domain.start;
    let span = p.range.end - p.range.start;
    lemma_quot_of_multiple(0, den);
    assert((p.domain.start - p.domain.start) * span == 0 * den) by (nonlinear_arith);
    lemma_quot_of_multiple(span, den);
    assert((p.domain.end - p.domain.start) * span == span * den) by (nonlinear_arith)
        requires
            den == p.domain.end - p.domain.start,
    ;
}

} // verus!
