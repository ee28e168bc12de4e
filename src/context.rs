//! The decoding context of a path: how many bases it has emitted (capped at
//! the overflow bucket) and the base-4 state of its latest bases.
use vstd::prelude::*;
use vstd::arithmetic::div_mod::{
    lemma_add_mod_noop,
    lemma_mod_bound,
    lemma_mod_multiples_vanish,
    lemma_mod_twice,
    lemma_mul_mod_noop_left,
    lemma_small_mod,
};
use crate::config::{OVERFLOW_BUCKET, STATE_COUNT};

verus! {

/// A symbol index names a base when it lies in `1..=4` (0 is the blank).
pub open spec fn is_base(s: u8) -> bool {
    1 <= s && s <= 4
}

/// A sequence of emitted bases.
pub open spec fn is_base_path(p: Seq<u8>) -> bool {
    forall|i: int| 0 <= i < p.len() ==> is_base(#[trigger] p[i])
}

/// `4` to the power `n`.
pub open spec fn pow4(n: nat) -> nat
    decreases n,
{
    if n == 0 {
        1
    } else {
        4 * pow4((n - 1) as nat)
    }
}

/// The context state after emitting the bases of `p` from state 0: each base
/// `s` maps the state `x` to `(4 * x + (s - 1)) mod 1024`.
pub open spec fn state_of(p: Seq<u8>) -> int
    decreases p.len(),
{
    if p.len() == 0 {
        0
    } else {
        (state_of(p.drop_last()) * 4 + (p.last() - 1)) % (STATE_COUNT as int)
    }
}

/// The emitted-base count of `p`, where every count beyond the last
/// dedicated bucket is held as the overflow bucket.
pub open spec fn observed_of(p: Seq<u8>) -> int {
    if p.len() > OVERFLOW_BUCKET {
        OVERFLOW_BUCKET as int
    } else {
        p.len() as int
    }
}

/// Number of table rows that bucket `b` needs: one per context state
/// reachable with that many bases, i.e. `4^min(b, 5)`.
pub open spec fn rows_needed(b: int) -> int {
    if b >= 5 {
        pow4(5) as int
    } else {
        pow4(b as nat) as int
    }
}

/// Decoding context: the bucket of emitted bases and the context state.
#[derive(Clone, Copy, Debug, PartialEq, Eq, Structural)]
pub struct Context {
    pub observed: usize,
    pub state: usize,
}

/// The context reached by emitting the bases of `p`.
pub open spec fn context_of(p: Seq<u8>) -> Context {
    Context { observed: observed_of(p) as usize, state: state_of(p) as usize }
}

impl Context {
    /// A context that some sequence of bases can reach.
    pub open spec fn wf(&self) -> bool {
        self.observed <= OVERFLOW_BUCKET && self.state < rows_needed(self.observed as int)
    }

    /// The context after emitting base `s`.
    pub open spec fn advance_spec(self, s: u8) -> Context {
        Context {
            observed: if self.observed >= OVERFLOW_BUCKET {
                OVERFLOW_BUCKET
            } else {
                (self.observed + 1) as usize
            },
            state: ((self.state * 4 + (s - 1)) % (STATE_COUNT as int)) as usize,
        }
    }

    /// The context before any base is emitted.
    pub fn initial() -> (r: Context)
        ensures
            r == context_of(Seq::empty()),
            r.wf(),
    {
        Context { observed: 0, state: 0 }
    }

    /// The context after emitting base `s`.
    pub fn advance(&self, s: u8) -> (r: Context)
        requires
            self.wf(),
            is_base(s),
        ensures
            r == self.advance_spec(s),
            r.wf(),
    {
        proof {
            lemma_advance_wf(*self, s);
        }
        let observed = if self.observed >= OVERFLOW_BUCKET {
            OVERFLOW_BUCKET
        } else {
            self.observed + 1
        };
        let state = (self.state * 4 + (s as usize - 1)) % STATE_COUNT;
        Context { observed, state }
    }

    /// Index of the weight table that serves this context.
    pub fn bucket(&self) -> (r: usize)
        requires
            self.wf(),
        ensures
            r == self.observed,
            r <= OVERFLOW_BUCKET,
    {
        self.observed
    }
}

proof fn lemma_pow4_facts()
    ensures
        pow4(0) == 1,
        pow4(1) == 4,
        pow4(2) == 16,
        pow4(3) == 64,
        pow4(4) == 256,
        pow4(5) == 1024,
{
    reveal_with_fuel(pow4, 6);
}

/// Advancing a reachable context by a base gives a reachable context.
proof fn lemma_advance_wf(c: Context, s: u8)
    requires
        c.wf(),
        is_base(s),
    ensures
        c.advance_spec(s).wf(),
        c.state < STATE_COUNT,
{
    lemma_pow4_facts();
    let x = c.state * 4 + (s - 1);
    if c.observed < 5 {
        assert(x < rows_needed(c.observed + 1));
        lemma_small_mod(x as nat, 1024);
    }
    lemma_mod_bound(x, 1024);
}

/// Emitting one more base moves the context of a path as
/// [`Context::advance`] does.
pub proof fn lemma_context_of_push(p: Seq<u8>, s: u8)
    ensures
        context_of(p.push(s)) == context_of(p).advance_spec(s),
{
    assert(p.push(s).drop_last() =~= p);
    lemma_state_in_range(p);
}

/// The context of a path of bases is reachable.
pub proof fn lemma_context_of_wf(p: Seq<u8>)
    requires
        is_base_path(p),
    ensures
        context_of(p).wf(),
    decreases p.len(),
{
    if p.len() == 0 {
        lemma_pow4_facts();
    } else {
        let q = p.drop_last();
        assert(p =~= q.push(p.last()));
        lemma_context_of_wf(q);
        lemma_context_of_push(q, p.last());
        lemma_advance_wf(context_of(q), p.last());
    }
}

/// Every context state lies in `[0, 1024)`.
pub proof fn lemma_state_in_range(p: Seq<u8>)
    ensures
        0 <= state_of(p) < STATE_COUNT,
{
    if p.len() > 0 {
        lemma_mod_bound(state_of(p.drop_last()) * 4 + (p.last() - 1), 1024);
    }
}

/// The state after `pre` followed by `suf` combines the two states:
/// `state_of(pre) * 4^|suf| + state_of(suf)`, taken mod 1024.
proof fn lemma_state_split(pre: Seq<u8>, suf: Seq<u8>)
    ensures
        state_of(pre + suf) == (state_of(pre) * pow4(suf.len()) + state_of(suf)) % (
        STATE_COUNT as int),
    decreases suf.len(),
{
    let m = STATE_COUNT as int;
    lemma_state_in_range(pre);
    if suf.len() == 0 {
        assert(pre + suf =~= pre);
        assert(pow4(suf.len()) == 1);
        assert(state_of(suf) == 0);
        let x = state_of(pre);
        let p = pow4(suf.len()) as int;
        assert(x * p == x) by (nonlinear_arith)
            requires
                p == 1,
        ;
        lemma_small_mod(state_of(pre) as nat, 1024);
    } else {
        let sp = suf.drop_last();
        let g = suf.last() - 1;
        assert((pre + suf).drop_last() =~= pre + sp);
        assert((pre + suf).last() == suf.last());
        lemma_state_split(pre, sp);
        let x = state_of(pre);
        let pp = pow4(sp.len()) as int;
        let a = x * pp + state_of(sp);
        // left side: ((a % m) * 4 + g) % m == (a * 4 + g) % m
        lemma_mul_mod_noop_left(a, 4, m);
        lemma_add_mod_noop((a % m) * 4, g, m);
        lemma_add_mod_noop(a * 4, g, m);
        // right side
        let p = pow4(suf.len()) as int;
        assert(p == pp * 4);
        let s = state_of(sp) * 4 + g;
        lemma_add_mod_noop(x * p, s % m, m);
        lemma_mod_twice(s, m);
        lemma_add_mod_noop(x * p, s, m);
        assert(a * 4 + g == x * p + s) by (nonlinear_arith)
            requires
                a == x * pp + state_of(sp),
                p == pp * 4,
                s == state_of(sp) * 4 + g,
        ;
        lemma_mod_twice(g, m);
        assert(state_of(pre + suf) == ((a % m) * 4 + g) % m);
        assert(((a % m) * 4 + g) % m == (((a % m) * 4) % m + g % m) % m);
        assert((a * 4 + g) % m == ((a * 4) % m + g % m) % m);
        assert(state_of(pre + suf) == (a * 4 + g) % m);
        assert(state_of(suf) == s % m);
        assert((x * p + s % m) % m == ((x * p) % m + (s % m) % m) % m);
        assert((x * p + s) % m == ((x * p) % m + s % m) % m);
        assert((x * p + s % m) % m == (x * p + s) % m);
        assert(state_of(pre + suf) == (x * p + state_of(suf)) % m);
    }
}

/// The context state of a path depends on its last five bases alone: two
/// histories that agree on those reach the same state, whatever precedes.
pub proof fn lemma_state_depends_on_last_five(h1: Seq<u8>, h2: Seq<u8>)
    requires
        h1.len() >= 5,
        h2.len() >= 5,
        h1.subrange(h1.len() - 5, h1.len() as int) == h2.subrange(
            h2.len() - 5,
            h2.len() as int,
        ),
    ensures
        state_of(h1) == state_of(h2),
{
    let s = h1.subrange(h1.len() - 5, h1.len() as int);
    let p1 = h1.subrange(0, h1.len() - 5);
    let p2 = h2.subrange(0, h2.len() - 5);
    assert(h1 =~= p1 + s);
    assert(h2 =~= p2 + s);
    lemma_state_split(p1, s);
    lemma_state_split(p2, s);
    lemma_pow4_facts();
    lemma_state_in_range(s);
    lemma_mod_multiples_vanish(state_of(p1), state_of(s), 1024);
    lemma_mod_multiples_vanish(state_of(p2), state_of(s), 1024);
    lemma_small_mod(state_of(s) as nat, 1024);
}

} // verus!
