//! A first-order Markov chain over HTML-tagged post text.
//!
//! Posts are tokenised into tags, words and entities; adjacent token pairs
//! are counted in a transition table; the table is compiled into alias
//! sampling tables (Vose's method, in exact integer arithmetic); and a
//! weighted random walk over the compiled model synthesises new,
//! tag-balanced text.

pub mod alias;
pub mod builder;
pub mod error;
pub mod intern;
pub mod markov;
pub mod parse;
pub mod table;
pub mod tokens;

use vstd::prelude::*;
use crate::alias::{Model, compile_model, slot_mass, state_for};
use crate::builder::Builder;
use crate::error::Error;
use crate::intern::{Interner, interner_strings, INTERNER_CAPACITY};
use crate::markov::TokenType;
use crate::parse::{JsonEvent, SpecEvent, event_views, initial_scan_state, scan_fold, process_posts, fold_posts, posts_tokenised, lemma_posts_tokenised_concat, scans_len, lemma_scans_len_nonneg};
use crate::table::{TransitionTable, pair_total, source_total, source_degree, compilable};

verus! {

/// Whether a page's events leave the scanner where it began: no object ever
/// started, so the corpus is exhausted there.
pub open spec fn page_exhausted(evs: Seq<SpecEvent>) -> bool {
    scan_fold(initial_scan_state(), evs).mode is Start
}

/// How many pages a build consumes: every page up to and including the
/// first exhausted one, or all of them.
pub open spec fn pages_consumed(pages: Seq<Seq<SpecEvent>>) -> int
    decreases pages.len(),
{
    if pages.len() == 0 {
        0
    } else if page_exhausted(pages[0]) {
        1
    } else {
        1 + pages_consumed(pages.drop_first())
    }
}

/// The pages of a corpus, seen abstractly.
pub open spec fn page_views(pages: Seq<Vec<JsonEvent>>) -> Seq<Seq<SpecEvent>> {
    Seq::new(pages.len(), |k: int| event_views(pages[k]@))
}

/// Every post of the first `n` pages, in page order then document order.
pub open spec fn corpus_posts(pages: Seq<Seq<SpecEvent>>, n: int) -> Seq<Seq<char>>
    decreases n,
{
    if n <= 0 {
        Seq::empty()
    } else {
        corpus_posts(pages, n - 1) + fold_posts(initial_scan_state(), pages[n - 1])
    }
}

/// The total scanned-token count of the first `n` pages' posts.
pub open spec fn corpus_scans(pages: Seq<Seq<SpecEvent>>, n: int) -> int
    decreases n,
{
    if n <= 0 {
        0
    } else {
        corpus_scans(pages, n - 1) + scans_len(fold_posts(initial_scan_state(), pages[n - 1]))
    }
}

/// Corpus scan totals grow with the page count.
proof fn lemma_corpus_scans_mono(pages: Seq<Seq<SpecEvent>>, a: int, b: int)
    requires
        0 <= a <= b,
    ensures
        corpus_scans(pages, a) <= corpus_scans(pages, b),
    decreases b,
{
    if a < b {
        lemma_corpus_scans_mono(pages, a, b - 1);
        lemma_scans_len_nonneg(fold_posts(initial_scan_state(), pages[b - 1]));
    }
}

/// What a finished build guarantees: a well-formed chain holding exactly
/// the merged pair counts of the first `n` pages' posts (each walked from
/// `Start` to a final `End`), under the interner state `iv`, with `n` the
/// number of pages up to and including the first exhausted one.
pub open spec fn built_corpus(
    pages: Seq<Vec<JsonEvent>>,
    m: Markov,
    iv: Seq<Seq<char>>,
    n: int,
) -> bool {
    &&& m.wf()
    &&& n == pages_consumed(page_views(pages))
    &&& exists|tss: Seq<Seq<TokenType>>|
        posts_tokenised(corpus_posts(page_views(pages), n), tss, Seq::empty(), m@, iv)
}

/// The finished transition table of one corpus.
pub struct Markov {
    table: TransitionTable,
}

impl View for Markov {
    type V = Seq<(TokenType, TokenType, u64)>;

    closed spec fn view(&self) -> Seq<(TokenType, TokenType, u64)> {
        self.table@
    }
}

impl Markov {
    /// The table's keys are unique and its counts positive.
    pub closed spec fn wf(&self) -> bool {
        self.table.wf()
    }

    /// A build of the given source.
    pub fn builder(url: &str) -> (r: Builder<'_>)
        ensures
            r.url@ == url@,
            r.outdir is None,
            r.private_key is None,
            !r.exclude_replies,
    {
        Builder::new(url)
    }

    /// Build the corpus from pages of parser events, in order, stopping
    /// after the first exhausted page. Returns the accumulated chain, the
    /// interner its tokens point into, and how many pages were consumed: the
    /// chain holds exactly the merged pair counts of the consumed pages'
    /// posts, each walked from `Start` to a final `End`. The build fails
    /// only when the interner fills up, which takes a corpus of at least a
    /// third of the interner's capacity in scanned tokens.
    pub fn new(pages: &Vec<Vec<JsonEvent>>) -> (r: Result<(Markov, Interner, usize), Error>)
        ensures
            match r {
                Ok(v) => built_corpus(pages@, v.0, interner_strings(v.1), v.2 as int),
                Err(e) => e == Error::InternerFull && INTERNER_CAPACITY as int <= 3 * corpus_scans(
                    page_views(pages@),
                    pages@.len() as int,
                ),
            },
    {
        let mut table = TransitionTable::new();
        let mut interner = Interner::new();
        let ghost views = page_views(pages@);
        let ghost mut acc_tss: Seq<Seq<TokenType>> = Seq::empty();
        let mut p: usize = 0;
        proof {
            assert(views.skip(0) =~= views);
            assert(corpus_posts(views, 0) =~= Seq::<Seq<char>>::empty());
            assert(table@ =~= Seq::<(TokenType, TokenType, u64)>::empty());
            assert(posts_tokenised(
                corpus_posts(views, 0),
                acc_tss,
                Seq::empty(),
                table@,
                interner_strings(interner),
            )) by {
                assert forall|s2: TokenType, d2: TokenType| #[trigger]
                    pair_total(table@, s2, d2) == crate::tokens::capped_add(
                    pair_total(Seq::empty(), s2, d2),
                    crate::tokens::chains_total(acc_tss, s2, d2),
                ) by {
                    assert(pair_total(table@, s2, d2) == 0);
                    assert(pair_total(Seq::<(TokenType, TokenType, u64)>::empty(), s2, d2) == 0);
                    assert(crate::tokens::chains_total(acc_tss, s2, d2) == 0);
                }
            }
        }
        while p < pages.len()
            invariant
                table.wf(),
                p <= pages@.len(),
                views == page_views(pages@),
                views.len() == pages@.len(),
                pages_consumed(views) == p + pages_consumed(views.skip(p as int)),
                posts_tokenised(
                    corpus_posts(views, p as int),
                    acc_tss,
                    Seq::empty(),
                    table@,
                    interner_strings(interner),
                ),
                interner_strings(interner).len() <= 3 * corpus_scans(views, p as int),
            decreases pages@.len() - p,
        {
            let ghost t_before = table@;
            let ghost iv_before = interner_strings(interner);
            let outcome = match process_posts(&pages[p], &mut table, &mut interner) {
                Ok(o) => o,
                Err(e) => {
                    proof {
                        assert(views[p as int] == event_views(pages@[p as int]@));
                        lemma_corpus_scans_mono(views, p as int + 1, pages@.len() as int);
                    }
                    return Err(e);
                },
            };
            proof {
                assert(views[p as int] == event_views(pages@[p as int]@));
                assert(views.skip(p as int)[0] == views[p as int]);
                assert(views.skip(p as int).drop_first() =~= views.skip(p as int + 1));
                let page_posts = fold_posts(initial_scan_state(), views[p as int]);
                let tp = choose|tss: Seq<Seq<TokenType>>|
                    posts_tokenised(
                        page_posts,
                        tss,
                        t_before,
                        table@,
                        interner_strings(interner),
                    );
                lemma_posts_tokenised_concat(
                    corpus_posts(views, p as int),
                    acc_tss,
                    page_posts,
                    tp,
                    Seq::empty(),
                    t_before,
                    table@,
                    iv_before,
                    interner_strings(interner),
                );
                acc_tss = acc_tss + tp;
                assert(corpus_posts(views, p as int + 1) == corpus_posts(views, p as int)
                    + page_posts);
                assert(corpus_scans(views, p as int + 1) == corpus_scans(views, p as int)
                    + scans_len(page_posts));
            }
            if outcome.exhausted {
                let m = Markov { table };
                let np = p + 1;
                proof {
                    assert(page_exhausted(views[p as int]));
                    assert(pages_consumed(views.skip(p as int)) == 1);
                    assert(np as int == pages_consumed(page_views(pages@)));
                    assert(posts_tokenised(
                        corpus_posts(page_views(pages@), np as int),
                        acc_tss,
                        Seq::empty(),
                        m@,
                        interner_strings(interner),
                    ));
                    assert(exists|tss: Seq<Seq<TokenType>>|
                        posts_tokenised(
                            corpus_posts(page_views(pages@), np as int),
                            tss,
                            Seq::empty(),
                            m@,
                            interner_strings(interner),
                        ));
                    assert(built_corpus(pages@, m, interner_strings(interner), np as int));
                }
                return Ok((m, interner, np));
            }
            p = p + 1;
        }
        let m = Markov { table };
        let n = pages.len();
        proof {
            assert(views.skip(pages@.len() as int) =~= Seq::<Seq<SpecEvent>>::empty());
            assert(pages_consumed(views.skip(pages@.len() as int)) == 0);
            assert(n as int == pages_consumed(page_views(pages@)));
            assert(posts_tokenised(
                corpus_posts(page_views(pages@), n as int),
                acc_tss,
                Seq::empty(),
                m@,
                interner_strings(interner),
            ));
            assert(exists|tss: Seq<Seq<TokenType>>|
                posts_tokenised(
                    corpus_posts(page_views(pages@), n as int),
                    tss,
                    Seq::empty(),
                    m@,
                    interner_strings(interner),
                ));
            assert(built_corpus(pages@, m, interner_strings(interner), n as int));
        }
        Ok((m, interner, n))
    }

    /// Compile the finished chain into its alias-sampling model: one state
    /// per distinct source token, each state's slot count its out-degree and
    /// its total the token's outgoing count, each state's slots carrying
    /// exactly its counts' proportions, and the `Start` state's index.
    /// Compilation succeeds if and only if every transition target has a
    /// state of its own and a `Start` state exists.
    pub fn compile(&self) -> (r: Result<Model, Error>)
        requires
            self.wf(),
        ensures
            match r {
                Ok(m) => {
                    &&& compilable(self@)
                    &&& m.wf()
                    &&& (forall|i: int, j: int|
                        0 <= i < j < m.states@.len() ==> (#[trigger] m.states@[i]).token != (
                        #[trigger] m.states@[j]).token)
                    &&& (forall|i: int|
                        0 <= i < m.states@.len() ==> (#[trigger] m.states@[i]).sum as int
                            == source_total(self@, m.states@[i].token))
                    &&& (forall|i: int|
                        0 <= i < m.states@.len() ==> (#[trigger] m.states@[i]).slots@.len()
                            == source_degree(self@, m.states@[i].token))
                    &&& (forall|x: int|
                        0 <= x < self@.len() ==> state_for(m.states@, (#[trigger] self@[x]).0))
                    &&& (forall|i: int, j: usize|
                        0 <= i < m.states@.len() && 0 <= j < m.states@.len() ==> slot_mass(
                            (#[trigger] m.states@[i]).slots@,
                            m.states@[i].sum as int,
                            j,
                        ) == pair_total(
                            self@,
                            m.states@[i].token,
                            (#[trigger] m.states@[j as int]).token,
                        ) * m.states@[i].slots@.len())
                },
                Err(e) => e == Error::InternerError && !compilable(self@),
            },
    {
        compile_model(&self.table)
    }

    /// A corpus from an already-accumulated table.
    pub fn from_table(table: TransitionTable) -> (r: Markov)
        requires
            table.wf(),
        ensures
            r.wf(),
            r@ == table@,
    {
        Markov { table }
    }

    /// The finished table, for callers that read it.
    pub fn table(&self) -> (r: &TransitionTable)
        ensures
            r@ == self@,
            r.wf() == self.wf(),
    {
        &self.table
    }
}

} // verus!
