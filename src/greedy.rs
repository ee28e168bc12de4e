//! Greedy decoding: one symbol per timestep, the best-scoring one.
use vstd::prelude::*;
use crate::context::{context_of, is_base_path, lemma_context_of_push, lemma_context_of_wf, Context};
use crate::order::{first_max, is_first_max};
use crate::text::{symbols_text, symbols_to_string};

verus! {

/// The bases among a sequence of symbols, blanks left out.
pub open spec fn bases_of(s: Seq<u8>) -> Seq<u8>
    decreases s.len(),
{
    if s.len() == 0 {
        Seq::empty()
    } else if s.last() == 0 {
        bases_of(s.drop_last())
    } else {
        bases_of(s.drop_last()).push(s.last())
    }
}

/// Symbols in `0..=4`.
pub open spec fn valid_symbols(s: Seq<u8>) -> bool {
    forall|i: int| 0 <= i < s.len() ==> #[trigger] s[i] <= 4
}

/// The bases of valid symbols form a path of bases.
pub proof fn lemma_bases_of_path(s: Seq<u8>)
    requires
        valid_symbols(s),
    ensures
        is_base_path(bases_of(s)),
        bases_of(s).len() <= s.len(),
    decreases s.len(),
{
    if s.len() > 0 {
        assert(valid_symbols(s.drop_last()));
        lemma_bases_of_path(s.drop_last());
        assert(s.last() == s[s.len() - 1]);
    }
}

/// State of a greedy decode: the symbols chosen so far and the context of
/// the bases among them.
pub struct GreedyDecoder {
    ctx: Context,
    symbols: Vec<u8>,
}

impl GreedyDecoder {
    /// The symbols chosen so far, one per timestep.
    pub closed spec fn symbols_view(&self) -> Seq<u8> {
        self.symbols@
    }

    /// The context that selects the next timestep's table row.
    pub closed spec fn context_view(&self) -> Context {
        self.ctx
    }

    /// The context is that of the bases chosen so far.
    pub open spec fn wf(&self) -> bool {
        &&& valid_symbols(self.symbols_view())
        &&& self.context_view() == context_of(bases_of(self.symbols_view()))
        &&& self.context_view().wf()
    }

    /// A decode that has seen no timestep.
    pub fn new() -> (r: GreedyDecoder)
        ensures
            r.wf(),
            r.symbols_view() == Seq::<u8>::empty(),
    {
        let ctx = Context::initial();
        let symbols: Vec<u8> = Vec::new();
        let r = GreedyDecoder { ctx, symbols };
        assert(bases_of(r.symbols@) =~= Seq::<u8>::empty());
        r
    }

    /// The context under which the next timestep is scored.
    pub fn context(&self) -> (r: Context)
        requires
            self.wf(),
        ensures
            r == self.context_view(),
            r == context_of(bases_of(self.symbols_view())),
            r.wf(),
    {
        self.ctx
    }

    /// Takes the scores of one timestep, as order keys in symbol order, and
    /// chooses the best symbol (the lowest on a tie). A base moves the
    /// context; the blank leaves it.
    pub fn step(&mut self, scores: &[u32; 5]) -> (r: u8)
        requires
            old(self).wf(),
            old(self).symbols_view().len() < usize::MAX,
        ensures
            final(self).wf(),
            is_first_max(scores@, r as int),
            final(self).symbols_view() == old(self).symbols_view().push(r),
    {
        let top = first_max(scores);
        let s = top as u8;
        proof {
            let old_s = self.symbols@;
            let new_s = old_s.push(s);
            assert(new_s.drop_last() =~= old_s);
            lemma_bases_of_path(old_s);
            lemma_context_of_wf(bases_of(old_s));
            if s != 0 {
                lemma_context_of_push(bases_of(old_s), s);
            }
            assert(valid_symbols(new_s));
            lemma_bases_of_path(new_s);
            lemma_context_of_wf(bases_of(new_s));
        }
        if s != 0 {
            self.ctx = self.ctx.advance(s);
        }
        self.symbols.push(s);
        s
    }

    /// The symbols chosen so far.
    pub fn symbols(&self) -> (r: &Vec<u8>)
        ensures
            r@ == self.symbols_view(),
    {
        &self.symbols
    }

    /// The labelling so far: one character per timestep, `N` for a blank.
    pub fn labels(&self) -> (r: String)
        requires
            self.wf(),
        ensures
            r@ == symbols_text(self.symbols_view()),
            r@.len() == self.symbols_view().len(),
    {
        symbols_to_string(&self.symbols)
    }
}

} // verus!
