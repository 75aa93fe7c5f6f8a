//! The incremental JSON page scanner.
//!
//! A page is a JSON array of post objects. Of the whole structure only two
//! fields at depth 1 inside each object matter: the page's first `id` string
//! value becomes the continuation cursor, and every `content` string value
//! is tokenised. Everything else is skipped. A page in which no object ever
//! starts is an exhausted corpus. The scanner is a pure state machine over
//! the events of an incremental JSON parser; the unverified edge feeds it
//! events one at a time as bytes arrive.

use vstd::prelude::*;
use crate::error::Error;
use crate::intern::{Interner, interner_strings, INTERNER_CAPACITY};
use crate::markov::TokenType;
use crate::table::{TransitionTable, pair_total};
use crate::tokens::{tokenise, tokens_match, lemma_tokens_match_extend, spec_scan, chain_count, chains_total, lemma_chains_total_nonneg, lemma_chain_count_nonneg, capped_add};

verus! {

/// One event of the incremental JSON parser, with any string payload
/// already decoded.
pub enum JsonEvent {
    /// An object begins.
    StartObject,
    /// An object ends.
    EndObject,
    /// A field name inside an object.
    FieldName(String),
    /// A string value.
    ValueString(String),
    /// Any other event: array boundaries, numbers, booleans, nulls.
    Other,
}

/// A parser event, seen abstractly.
pub enum SpecEvent {
    StartObject,
    EndObject,
    FieldName(Seq<char>),
    ValueString(Seq<char>),
    Other,
}

impl View for JsonEvent {
    type V = SpecEvent;

    open spec fn view(&self) -> SpecEvent {
        match self {
            JsonEvent::StartObject => SpecEvent::StartObject,
            JsonEvent::EndObject => SpecEvent::EndObject,
            JsonEvent::FieldName(s) => SpecEvent::FieldName(s@),
            JsonEvent::ValueString(s) => SpecEvent::ValueString(s@),
            JsonEvent::Other => SpecEvent::Other,
        }
    }
}

/// The events of a page, seen abstractly.
pub open spec fn event_views(evs: Seq<JsonEvent>) -> Seq<SpecEvent> {
    Seq::new(evs.len(), |k: int| evs[k]@)
}

/// Where in the page the scanner stands.
#[derive(Debug, Clone, Copy, PartialEq, Eq, Structural)]
pub enum ScanMode {
    /// No object has started yet.
    Start,
    /// Inside objects, at the given nesting depth.
    Depth(u32),
    /// The next string value is the page's cursor.
    Id,
    /// The next string value is a post's content.
    Content,
}

/// The scanner's state: its position and whether the page's cursor was
/// already captured (only the first `id` wins).
#[derive(Debug, Clone, Copy, PartialEq, Eq, Structural)]
pub struct ScanState {
    pub mode: ScanMode,
    pub id_found: bool,
}

/// What one step of the scanner asks for.
pub enum ScanSignal {
    /// Nothing to do.
    Nothing,
    /// The page's continuation cursor.
    Cursor(String),
    /// One post's content, to be tokenised.
    Post(String),
}

/// A step's request, seen abstractly.
pub enum SpecSignal {
    Nothing,
    Cursor(Seq<char>),
    Post(Seq<char>),
}

impl View for ScanSignal {
    type V = SpecSignal;

    open spec fn view(&self) -> SpecSignal {
        match self {
            ScanSignal::Nothing => SpecSignal::Nothing,
            ScanSignal::Cursor(s) => SpecSignal::Cursor(s@),
            ScanSignal::Post(s) => SpecSignal::Post(s@),
        }
    }
}

/// The scanner's initial state.
pub open spec fn initial_scan_state() -> ScanState {
    ScanState { mode: ScanMode::Start, id_found: false }
}

/// One step of the scanner: the state after the event, and what the event
/// asks for. Object depth is tracked saturating at its bounds; a field name
/// at depth 1 arms `id` (first wins per page) or `content`; the armed string
/// value is the cursor or a post.
pub open spec fn spec_step(st: ScanState, ev: SpecEvent) -> (ScanState, SpecSignal) {
    match ev {
        SpecEvent::StartObject => match st.mode {
            ScanMode::Start => (ScanState { mode: ScanMode::Depth(1), ..st }, SpecSignal::Nothing),
            ScanMode::Depth(d) => (
                ScanState {
                    mode: ScanMode::Depth(
                        if d < 0xFFFF_FFFFu32 {
                            (d + 1) as u32
                        } else {
                            d
                        },
                    ),
                    ..st
                },
                SpecSignal::Nothing,
            ),
            _ => (st, SpecSignal::Nothing),
        },
        SpecEvent::EndObject => match st.mode {
            ScanMode::Depth(d) => (
                ScanState {
                    mode: ScanMode::Depth(
                        if d > 0 {
                            (d - 1) as u32
                        } else {
                            d
                        },
                    ),
                    ..st
                },
                SpecSignal::Nothing,
            ),
            _ => (st, SpecSignal::Nothing),
        },
        SpecEvent::FieldName(name) => match st.mode {
            ScanMode::Depth(d) => {
                if d == 1 && name == "content"@ {
                    (ScanState { mode: ScanMode::Content, ..st }, SpecSignal::Nothing)
                } else if d == 1 && name == "id"@ && !st.id_found {
                    (ScanState { mode: ScanMode::Id, ..st }, SpecSignal::Nothing)
                } else {
                    (st, SpecSignal::Nothing)
                }
            },
            _ => (st, SpecSignal::Nothing),
        },
        SpecEvent::ValueString(v) => match st.mode {
            ScanMode::Id => (
                ScanState { mode: ScanMode::Depth(1), id_found: true },
                SpecSignal::Cursor(v),
            ),
            ScanMode::Content => (
                ScanState { mode: ScanMode::Depth(1), ..st },
                SpecSignal::Post(v),
            ),
            _ => (st, SpecSignal::Nothing),
        },
        SpecEvent::Other => (st, SpecSignal::Nothing),
    }
}

/// The scanner's state after a whole page of events.
pub open spec fn scan_fold(st: ScanState, evs: Seq<SpecEvent>) -> ScanState
    decreases evs.len(),
{
    if evs.len() == 0 {
        st
    } else {
        scan_fold(spec_step(st, evs[0]).0, evs.drop_first())
    }
}

/// The page's cursor: the value of the first step that asks for one.
pub open spec fn fold_cursor(st: ScanState, evs: Seq<SpecEvent>) -> Option<Seq<char>>
    decreases evs.len(),
{
    if evs.len() == 0 {
        None
    } else {
        match spec_step(st, evs[0]).1 {
            SpecSignal::Cursor(v) => Some(v),
            _ => fold_cursor(spec_step(st, evs[0]).0, evs.drop_first()),
        }
    }
}

/// The page's posts: every content value, in document order.
pub open spec fn fold_posts(st: ScanState, evs: Seq<SpecEvent>) -> Seq<Seq<char>>
    decreases evs.len(),
{
    if evs.len() == 0 {
        Seq::empty()
    } else {
        match spec_step(st, evs[0]).1 {
            SpecSignal::Post(v) => seq![v] + fold_posts(spec_step(st, evs[0]).0, evs.drop_first()),
            _ => fold_posts(spec_step(st, evs[0]).0, evs.drop_first()),
        }
    }
}

/// Whether two strings hold the same characters.
fn str_eq(a: &str, b: &str) -> (r: bool)
    ensures
        r == (a@ == b@),
{
    let n = a.unicode_len();
    let m = b.unicode_len();
    if n != m {
        proof {
            assert(a@ != b@);
        }
        return false;
    }
    let mut i: usize = 0;
    while i < n
        invariant
            n == a@.len(),
            n == b@.len(),
            i <= n,
            forall|j: int| 0 <= j < i ==> a@[j] == b@[j],
        decreases n - i,
    {
        if a.get_char(i) != b.get_char(i) {
            return false;
        }
        i = i + 1;
    }
    proof {
        assert(a@ =~= b@);
    }
    true
}

/// One step of the scanner over executable data.
pub fn scan_step(st: ScanState, ev: &JsonEvent) -> (r: (ScanState, ScanSignal))
    ensures
        r.0 == spec_step(st, ev@).0,
        r.1@ == spec_step(st, ev@).1,
{
    match ev {
        JsonEvent::StartObject => match st.mode {
            ScanMode::Start => (
                ScanState { mode: ScanMode::Depth(1), ..st },
                ScanSignal::Nothing,
            ),
            ScanMode::Depth(d) => {
                let d2 = if d < 0xFFFF_FFFFu32 {
                    d + 1
                } else {
                    d
                };
                (ScanState { mode: ScanMode::Depth(d2), ..st }, ScanSignal::Nothing)
            },
            _ => (st, ScanSignal::Nothing),
        },
        JsonEvent::EndObject => match st.mode {
            ScanMode::Depth(d) => {
                let d2 = if d > 0 {
                    d - 1
                } else {
                    d
                };
                (ScanState { mode: ScanMode::Depth(d2), ..st }, ScanSignal::Nothing)
            },
            _ => (st, ScanSignal::Nothing),
        },
        JsonEvent::FieldName(name) => match st.mode {
            ScanMode::Depth(d) => {
                if d == 1 && str_eq(name.as_str(), "content") {
                    (ScanState { mode: ScanMode::Content, ..st }, ScanSignal::Nothing)
                } else if d == 1 && str_eq(name.as_str(), "id") && !st.id_found {
                    (ScanState { mode: ScanMode::Id, ..st }, ScanSignal::Nothing)
                } else {
                    (st, ScanSignal::Nothing)
                }
            },
            _ => (st, ScanSignal::Nothing),
        },
        JsonEvent::ValueString(v) => match st.mode {
            ScanMode::Id => (
                ScanState { mode: ScanMode::Depth(1), id_found: true },
                ScanSignal::Cursor(clone_string(v)),
            ),
            ScanMode::Content => (
                ScanState { mode: ScanMode::Depth(1), ..st },
                ScanSignal::Post(clone_string(v)),
            ),
            _ => (st, ScanSignal::Nothing),
        },
        JsonEvent::Other => (st, ScanSignal::Nothing),
    }
}

/// A copy of a string with the same characters.
fn clone_string(s: &String) -> (r: String)
    ensures
        r@ == s@,
{
    String::from_str(s.as_str())
}

/// What one page leaves behind: its continuation cursor, if any, and
/// whether the page was empty (corpus exhausted).
pub struct PageOutcome {
    /// The first `id` value of the page.
    pub cursor: Option<String>,
    /// True when no object ever started: the corpus is exhausted.
    pub exhausted: bool,
}

/// The posts `posts` were tokenised in order: `tss` are their token
/// streams, each matching its post's scan under the final interner state
/// `iv`, and the table went from `t0` to `t1` by exactly the streams'
/// pair counts (saturating).
pub open spec fn posts_tokenised(
    posts: Seq<Seq<char>>,
    tss: Seq<Seq<TokenType>>,
    t0: Seq<(TokenType, TokenType, u64)>,
    t1: Seq<(TokenType, TokenType, u64)>,
    iv: Seq<Seq<char>>,
) -> bool {
    &&& tss.len() == posts.len()
    &&& (forall|k: int|
        0 <= k < posts.len() ==> #[trigger] tokens_match(spec_scan(posts[k], 0), tss[k], iv))
    &&& (forall|s: TokenType, d: TokenType|
        #[trigger] pair_total(t1, s, d) == capped_add(
            pair_total(t0, s, d),
            chains_total(tss, s, d),
        ))
}

/// The total scanned-token count of a list of posts.
pub open spec fn scans_len(posts: Seq<Seq<char>>) -> int
    decreases posts.len(),
{
    if posts.len() == 0 {
        0
    } else {
        scans_len(posts.drop_last()) + spec_scan(posts.last(), 0).len()
    }
}

/// A scan total is never negative.
pub proof fn lemma_scans_len_nonneg(posts: Seq<Seq<char>>)
    ensures
        scans_len(posts) >= 0,
    decreases posts.len(),
{
    if posts.len() > 0 {
        lemma_scans_len_nonneg(posts.drop_last());
    }
}

/// Scan totals add over concatenation.
pub proof fn lemma_scans_len_concat(a: Seq<Seq<char>>, b: Seq<Seq<char>>)
    ensures
        scans_len(a + b) == scans_len(a) + scans_len(b),
    decreases b.len(),
{
    if b.len() == 0 {
        assert(a + b =~= a);
    } else {
        assert((a + b).drop_last() =~= a + b.drop_last());
        assert((a + b).last() == b.last());
        lemma_scans_len_concat(a, b.drop_last());
    }
}

/// Chains totals add over concatenation.
pub proof fn lemma_chains_total_concat(
    a: Seq<Seq<TokenType>>,
    b: Seq<Seq<TokenType>>,
    s: TokenType,
    d: TokenType,
)
    ensures
        chains_total(a + b, s, d) == chains_total(a, s, d) + chains_total(b, s, d),
    decreases b.len(),
{
    if b.len() == 0 {
        assert(a + b =~= a);
    } else {
        assert((a + b).drop_last() =~= a + b.drop_last());
        assert((a + b).last() == b.last());
        lemma_chains_total_concat(a, b.drop_last(), s, d);
    }
}

/// Two tokenised batches compose: the second's table delta stacks on the
/// first's, and the first's matches survive the interner's growth.
pub proof fn lemma_posts_tokenised_concat(
    p1: Seq<Seq<char>>,
    ts1: Seq<Seq<TokenType>>,
    p2: Seq<Seq<char>>,
    ts2: Seq<Seq<TokenType>>,
    t0: Seq<(TokenType, TokenType, u64)>,
    t1: Seq<(TokenType, TokenType, u64)>,
    t2: Seq<(TokenType, TokenType, u64)>,
    iv1: Seq<Seq<char>>,
    iv2: Seq<Seq<char>>,
)
    requires
        posts_tokenised(p1, ts1, t0, t1, iv1),
        posts_tokenised(p2, ts2, t1, t2, iv2),
        iv1.is_prefix_of(iv2),
    ensures
        posts_tokenised(p1 + p2, ts1 + ts2, t0, t2, iv2),
{
    let pp = p1 + p2;
    let tt = ts1 + ts2;
    assert forall|k: int| 0 <= k < pp.len() implies #[trigger] tokens_match(
        spec_scan(pp[k], 0),
        tt[k],
        iv2,
    ) by {
        if k < p1.len() {
            assert(pp[k] == p1[k] && tt[k] == ts1[k]);
            lemma_tokens_match_extend(spec_scan(p1[k], 0), ts1[k], iv1, iv2);
        } else {
            assert(pp[k] == p2[k - p1.len()] && tt[k] == ts2[k - p1.len()]);
        }
    }
    assert forall|s: TokenType, d: TokenType| #[trigger] pair_total(t2, s, d) == capped_add(
        pair_total(t0, s, d),
        chains_total(tt, s, d),
    ) by {
        lemma_chains_total_concat(ts1, ts2, s, d);
        lemma_chains_total_nonneg(ts1, s, d);
        lemma_chains_total_nonneg(ts2, s, d);
    }
}

/// Prefix order on interner states is transitive.
pub proof fn lemma_prefix_trans(a: Seq<Seq<char>>, b: Seq<Seq<char>>, c: Seq<Seq<char>>)
    requires
        a.is_prefix_of(b),
        b.is_prefix_of(c),
    ensures
        a.is_prefix_of(c),
{
    assert(a =~= c.subrange(0, a.len() as int));
}

/// Scan one page of parser events: capture the page's first `id` value as
/// the cursor, tokenise every `content` value into the table in document
/// order, and report exhaustion when no object ever started. Fails only
/// when the interner fills up mid-page.
pub fn process_posts(
    events: &Vec<JsonEvent>,
    table: &mut TransitionTable,
    interner: &mut Interner,
) -> (r: Result<PageOutcome, Error>)
    requires
        old(table).wf(),
    ensures
        final(table).wf(),
        interner_strings(*old(interner)).is_prefix_of(interner_strings(*final(interner))),
        interner_strings(*final(interner)).len() <= interner_strings(*old(interner)).len() + 3
            * scans_len(fold_posts(initial_scan_state(), event_views(events@))),
        match r {
            Ok(out) => {
                &&& out.exhausted == (scan_fold(initial_scan_state(), event_views(events@)).mode
                    is Start)
                &&& match (out.cursor, fold_cursor(initial_scan_state(), event_views(events@))) {
                    (Some(c), Some(x)) => c@ == x,
                    (None, None) => true,
                    _ => false,
                }
                &&& exists|tss: Seq<Seq<TokenType>>|
                    posts_tokenised(
                        fold_posts(initial_scan_state(), event_views(events@)),
                        tss,
                        old(table)@,
                        final(table)@,
                        interner_strings(*final(interner)),
                    )
            },
            Err(e) => e == Error::InternerFull && interner_strings(*final(interner)).len()
                >= INTERNER_CAPACITY as int,
        },
{
    let ghost evs = event_views(events@);
    let ghost init = initial_scan_state();
    let ghost t0 = old(table)@;
    let ghost iv0 = interner_strings(*old(interner));
    let mut st = ScanState { mode: ScanMode::Start, id_found: false };
    let mut cursor: Option<String> = None;
    let ghost mut done_posts: Seq<Seq<char>> = Seq::empty();
    let ghost mut tss_done: Seq<Seq<TokenType>> = Seq::empty();
    let mut i: usize = 0;
    proof {
        assert(evs.skip(0) =~= evs);
        crate::table::lemma_wf_total_bounded(table);
        assert forall|s: TokenType, d: TokenType| #[trigger] pair_total(table@, s, d) == capped_add(
            pair_total(t0, s, d),
            chains_total(tss_done, s, d),
        ) by {
            assert(chains_total(tss_done, s, d) == 0);
        }
    }
    while i < events.len()
        invariant
            old(table).wf(),
            table.wf(),
            i <= events@.len(),
            evs == event_views(events@),
            init == initial_scan_state(),
            evs.len() == events@.len(),
            t0 == old(table)@,
            iv0 == interner_strings(*old(interner)),
            iv0.is_prefix_of(interner_strings(*interner)),
            scan_fold(init, evs) == scan_fold(st, evs.skip(i as int)),
            fold_cursor(init, evs) == match cursor {
                Some(c) => Some(c@),
                None => fold_cursor(st, evs.skip(i as int)),
            },
            fold_posts(init, evs) == done_posts + fold_posts(st, evs.skip(i as int)),
            interner_strings(*interner).len() <= iv0.len() + 3 * scans_len(done_posts),
            posts_tokenised(done_posts, tss_done, t0, table@, interner_strings(*interner)),
        decreases events@.len() - i,
    {
        let (st2, sig) = scan_step(st, &events[i]);
        proof {
            assert(evs.skip(i as int)[0] == events@[i as int]@);
            assert(evs.skip(i as int).drop_first() =~= evs.skip(i as int + 1));
        }
        match sig {
            ScanSignal::Nothing => {
                proof {
                    assert(fold_posts(st, evs.skip(i as int)) == fold_posts(
                        st2,
                        evs.skip(i as int + 1),
                    ));
                }
            },
            ScanSignal::Cursor(v) => {
                if cursor.is_none() {
                    cursor = Some(v);
                }
            },
            ScanSignal::Post(v) => {
                let ghost iv_before = interner_strings(*interner);
                let ghost t_before = table@;
                match tokenise(v.as_str(), table, interner) {
                    Ok(tts) => {
                        proof {
                            let iv_now = interner_strings(*interner);
                            lemma_prefix_trans(iv0, iv_before, iv_now);
                            assert forall|k: int| 0 <= k < done_posts.len() implies #[trigger]
                                tokens_match(spec_scan(done_posts[k], 0), tss_done[k], iv_now) by {
                                lemma_tokens_match_extend(
                                    spec_scan(done_posts[k], 0),
                                    tss_done[k],
                                    iv_before,
                                    iv_now,
                                );
                            }
                            let posts2 = done_posts.push(v@);
                            let tss2 = tss_done.push(tts@);
                            assert(tss2.drop_last() =~= tss_done);
                            assert(posts2.drop_last() =~= done_posts);
                            assert forall|s: TokenType, d: TokenType| #[trigger]
                                pair_total(table@, s, d) == capped_add(
                                pair_total(t0, s, d),
                                chains_total(tss2, s, d),
                            ) by {
                                lemma_chains_total_nonneg(tss_done, s, d);
                                lemma_chain_count_nonneg(
                                    TokenType::Start,
                                    tts@.push(TokenType::End),
                                    s,
                                    d,
                                );
                                assert(chains_total(tss2, s, d) == chains_total(tss_done, s, d)
                                    + chain_count(
                                    TokenType::Start,
                                    tts@.push(TokenType::End),
                                    s,
                                    d,
                                ));
                            }
                            assert forall|k: int| 0 <= k < posts2.len() implies #[trigger]
                                tokens_match(spec_scan(posts2[k], 0), tss2[k], iv_now) by {
                                if k < done_posts.len() {
                                    assert(posts2[k] == done_posts[k] && tss2[k] == tss_done[k]);
                                } else {
                                    assert(posts2[k] == v@ && tss2[k] == tts@);
                                }
                            }
                            assert(posts2.drop_last() =~= done_posts);
                            assert(scans_len(posts2) == scans_len(done_posts) + spec_scan(
                                v@,
                                0,
                            ).len());
                            done_posts = posts2;
                            tss_done = tss2;
                            assert(fold_posts(st, evs.skip(i as int)) =~= seq![v@] + fold_posts(
                                st2,
                                evs.skip(i as int + 1),
                            ));
                            assert(done_posts + fold_posts(st2, evs.skip(i as int + 1))
                                =~= done_posts.drop_last() + fold_posts(st, evs.skip(i as int)));
                        }
                    },
                    Err(e) => {
                        proof {
                            lemma_prefix_trans(
                                iv0,
                                iv_before,
                                interner_strings(*interner),
                            );
                            let rest = fold_posts(st2, evs.skip(i as int + 1));
                            assert(fold_posts(st, evs.skip(i as int)) =~= seq![v@] + rest);
                            lemma_scans_len_concat(done_posts, fold_posts(st, evs.skip(i as int)));
                            lemma_scans_len_concat(seq![v@], rest);
                            assert(scans_len(seq![v@]) == spec_scan(v@, 0).len()) by {
                                assert(seq![v@].drop_last() =~= Seq::<Seq<char>>::empty());
                                assert(seq![v@].last() == v@);
                                assert(scans_len(Seq::<Seq<char>>::empty()) == 0);
                            }
                            lemma_scans_len_nonneg(rest);
                            assert(scans_len(fold_posts(init, evs)) == scans_len(done_posts)
                                + scans_len(fold_posts(st, evs.skip(i as int))));
                            assert(scans_len(fold_posts(st, evs.skip(i as int))) >= spec_scan(
                                v@,
                                0,
                            ).len());
                            lemma_scans_len_nonneg(done_posts);
                            assert(interner_strings(*interner).len() <= iv0.len() + 3 * scans_len(
                                fold_posts(init, evs),
                            ));
                        }
                        return Err(e);
                    },
                }
            },
        }
        st = st2;
        i = i + 1;
    }
    proof {
        assert(evs.skip(events@.len() as int) =~= Seq::<SpecEvent>::empty());
        assert(fold_posts(init, evs) =~= done_posts);
        assert(scans_len(fold_posts(init, evs)) == scans_len(done_posts));
    }
    let exhausted = match st.mode {
        ScanMode::Start => true,
        _ => false,
    };
    Ok(PageOutcome { cursor, exhausted })
}

} // verus!
