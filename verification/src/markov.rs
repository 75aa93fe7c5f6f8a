//! The atomic chain unit: a token is literal text, an HTML open-tag marker,
//! or a boundary marker, and doubles as a Markov chain state.

use vstd::prelude::*;
use crate::alias::Model;
use crate::intern::{Interner, interner_strings};

verus! {

/// One token of the chain. Text, tag names, attribute text and leading
/// whitespace are interned: the `u32` fields are handles into an
/// [`crate::intern::Interner`], and equality is structural over handles.
#[derive(Debug, Clone, Copy, PartialEq, Eq, Hash, Structural)]
pub enum TokenType {
    /// The unique initial marker: every post's stream starts here.
    Start,
    /// An interned literal (a word, punctuation, or a decoded entity).
    Text(u32),
    /// An HTML open tag: any leading whitespace, the tag name, and the raw
    /// attribute text (kept, but never emitted by the generator).
    Tag { whitespace: Option<u32>, tag: u32, attrs: u32 },
    /// Closes one open tag, or terminates generation if none is open.
    End,
}


/// One piece of generated output: literal text, an opening tag, or a
/// closing tag.
pub enum Piece {
    /// Literal text, emitted as is.
    Text(String),
    /// An opening tag with the given name.
    Open(String),
    /// A closing tag with the given name.
    Close(String),
}

/// A piece, seen abstractly.
pub enum SpecPiece {
    Text(Seq<char>),
    Open(Seq<char>),
    Close(Seq<char>),
}

impl View for Piece {
    type V = SpecPiece;

    open spec fn view(&self) -> SpecPiece {
        match self {
            Piece::Text(s) => SpecPiece::Text(s@),
            Piece::Open(s) => SpecPiece::Open(s@),
            Piece::Close(s) => SpecPiece::Close(s@),
        }
    }
}

/// The pieces of a vector, seen abstractly.
pub open spec fn piece_views(ps: Seq<Piece>) -> Seq<SpecPiece> {
    Seq::new(ps.len(), |k: int| ps[k]@)
}

/// The names of a tag stack, seen abstractly.
pub open spec fn stack_views(st: Seq<String>) -> Seq<Seq<char>> {
    Seq::new(st.len(), |k: int| st[k]@)
}

/// Replay a piece sequence against a tag stack of capacity three: an open
/// pushes its name (never beyond three), a close pops exactly the innermost
/// open name. `None` means the sequence is not well nested within the
/// capacity; `Some(stack)` gives the tags left open. A sequence with
/// `sim(ps) == Some(Seq::empty())` is balanced markup: every opened tag is
/// closed, in nesting order, and never more than three are open at once.
pub open spec fn sim(ps: Seq<SpecPiece>) -> Option<Seq<Seq<char>>>
    decreases ps.len(),
{
    if ps.len() == 0 {
        Some(Seq::empty())
    } else {
        match sim(ps.drop_last()) {
            None => None,
            Some(st) => match ps.last() {
                SpecPiece::Text(_) => Some(st),
                SpecPiece::Open(t) => if st.len() < 3 {
                    Some(st.push(t))
                } else {
                    None
                },
                SpecPiece::Close(t) => if st.len() > 0 && st.last() == t {
                    Some(st.drop_last())
                } else {
                    None
                },
            },
        }
    }
}

/// What one token emits and how it moves the tag stack, given the interner
/// state `iv`: text appends its literal; an open tag under capacity pushes
/// its name and appends its leading whitespace (when present and live) then
/// the open marker -- its attribute text is never part of the emission;
/// `End` closes the innermost tag; `Start`, a dead handle, or a tag at
/// capacity changes nothing.
pub open spec fn spec_emit(t: TokenType, stack: Seq<Seq<char>>, iv: Seq<Seq<char>>) -> (
    Seq<Seq<char>>,
    Seq<SpecPiece>,
) {
    match t {
        TokenType::Start => (stack, Seq::empty()),
        TokenType::Text(h) => if (h as int) < iv.len() {
            (stack, seq![SpecPiece::Text(iv[h as int])])
        } else {
            (stack, Seq::empty())
        },
        TokenType::Tag { whitespace, tag, attrs } => if stack.len() < 3 && (tag as int)
            < iv.len() {
            let ws = match whitespace {
                Some(w) => if (w as int) < iv.len() {
                    seq![SpecPiece::Text(iv[w as int])]
                } else {
                    Seq::<SpecPiece>::empty()
                },
                None => Seq::<SpecPiece>::empty(),
            };
            (stack.push(iv[tag as int]), ws + seq![SpecPiece::Open(iv[tag as int])])
        } else {
            (stack, Seq::empty())
        },
        TokenType::End => if stack.len() > 0 {
            (stack.drop_last(), seq![SpecPiece::Close(stack.last())])
        } else {
            (stack, Seq::empty())
        },
    }
}

/// A tag's attribute text never reaches the output: a tag's emission does
/// not depend on its attrs handle.
pub proof fn lemma_attrs_never_emitted(
    whitespace: Option<u32>,
    tag: u32,
    a1: u32,
    a2: u32,
    stack: Seq<Seq<char>>,
    iv: Seq<Seq<char>>,
)
    ensures
        spec_emit(TokenType::Tag { whitespace, tag, attrs: a1 }, stack, iv) == spec_emit(
            TokenType::Tag { whitespace, tag, attrs: a2 },
            stack,
            iv,
        ),
{
}

/// One step of the walk can move from state `a` to state `b`: some slot of
/// `a` names `b` as its primary or its alias.
pub open spec fn walk_step_ok(m: Model, a: usize, b: usize) -> bool {
    exists|j: int|
        0 <= j < m.states@[a as int].slots@.len() && ((#[trigger] m.states@[a as int].slots@[
            j
        ]).primary == b || m.states@[a as int].slots@[j].alias == b)
}

/// `idxs` is a walk through the model: it begins at the start state and
/// every move follows one of the current state's slots.
pub open spec fn walk_ok(m: Model, idxs: Seq<usize>) -> bool {
    &&& forall|k: int| 0 <= k < idxs.len() ==> (#[trigger] idxs[k]) < m.states@.len()
    &&& (idxs.len() > 0 ==> idxs[0] == m.start)
    &&& forall|k: int| 0 <= k < idxs.len() - 1 ==> walk_step_ok(m, idxs[k], #[trigger] idxs[k + 1])
}

/// The tag stack and the accumulated emissions after walking `idxs` and
/// applying each visited state's token in order, from an empty stack.
pub open spec fn walk_emit(m: Model, iv: Seq<Seq<char>>, idxs: Seq<usize>) -> (
    Seq<Seq<char>>,
    Seq<SpecPiece>,
)
    decreases idxs.len(),
{
    if idxs.len() == 0 {
        (Seq::empty(), Seq::empty())
    } else {
        let prev = walk_emit(m, iv, idxs.drop_last());
        let one = spec_emit(m.states@[idxs.last() as int].token, prev.0, iv);
        (one.0, prev.1 + one.1)
    }
}

/// Close markers for every tag still open, innermost first.
pub open spec fn close_tail(stack: Seq<Seq<char>>) -> Seq<SpecPiece>
    decreases stack.len(),
{
    if stack.len() == 0 {
        Seq::empty()
    } else {
        seq![SpecPiece::Close(stack.last())] + close_tail(stack.drop_last())
    }
}

/// The pieces `ps` are exactly what one run of the generator may produce:
/// the emissions of a walk `idxs` through the model, closed off. The walk
/// begins at the start state (it is nonempty whenever any step is allowed),
/// takes at most `max_steps` tokens, follows the slots at every move, and
/// ends early only at the sole terminal condition: an `End` token met with
/// no tag open. The emissions are then followed by closes for every tag the
/// walk left open.
pub open spec fn generated_output(
    m: Model,
    iv: Seq<Seq<char>>,
    idxs: Seq<usize>,
    max_steps: int,
    ps: Seq<SpecPiece>,
) -> bool {
    &&& walk_ok(m, idxs)
    &&& idxs.len() <= max_steps
    &&& (max_steps > 0 ==> idxs.len() > 0)
    &&& (idxs.len() < max_steps ==> idxs.len() > 0 && m.states@[idxs.last() as int].token is End
        && walk_emit(m, iv, idxs.drop_last()).0 == Seq::<Seq<char>>::empty())
    &&& ps == walk_emit(m, iv, idxs).1 + close_tail(walk_emit(m, iv, idxs).0)
}

/// A walk whose emissions and final stack stand as given, before the
/// closing tail is appended.
spec fn mid_walk(
    m: Model,
    iv: Seq<Seq<char>>,
    idxs: Seq<usize>,
    max_steps: int,
    stack: Seq<Seq<char>>,
    ps: Seq<SpecPiece>,
) -> bool {
    &&& walk_ok(m, idxs)
    &&& idxs.len() <= max_steps
    &&& (max_steps > 0 ==> idxs.len() > 0)
    &&& (idxs.len() < max_steps ==> idxs.len() > 0 && m.states@[idxs.last() as int].token is End
        && walk_emit(m, iv, idxs.drop_last()).0 == Seq::<Seq<char>>::empty())
    &&& walk_emit(m, iv, idxs) == (stack, ps)
}

/// Relies on `rand::random`: a 64-bit value from the thread-local generator.
/// Nothing is assumed of it.
#[verifier::external_body]
fn random_u64() -> u64 {
    rand::random::<u64>()
}

/// Apply one token's emission rules, exactly as [`spec_emit`] states them:
/// text is appended; a tag opens (its leading whitespace first, never its
/// attribute text) unless three tags are already open; `End` closes the
/// innermost tag, or stops generation when none is open; `Start` and dead
/// handles change nothing. Returns true when generation stops.
pub fn emit_token(
    t: TokenType,
    stack: &mut Vec<String>,
    out: &mut Vec<Piece>,
    interner: &Interner,
) -> (stop: bool)
    requires
        old(stack)@.len() <= 3,
        sim(piece_views(old(out)@)) == Some(stack_views(old(stack)@)),
    ensures
        final(stack)@.len() <= 3,
        sim(piece_views(final(out)@)) == Some(stack_views(final(stack)@)),
        stack_views(final(stack)@) == spec_emit(
            t,
            stack_views(old(stack)@),
            interner_strings(*interner),
        ).0,
        piece_views(final(out)@) == piece_views(old(out)@) + spec_emit(
            t,
            stack_views(old(stack)@),
            interner_strings(*interner),
        ).1,
        stop == (t is End && old(stack)@.len() == 0),
{
    let ghost iv = interner_strings(*interner);
    let ghost stack0 = stack_views(old(stack)@);
    let ghost out0 = piece_views(old(out)@);
    match t {
        TokenType::Text(h) => {
            match interner.resolve(h) {
                Some(s) => {
                    let ghost pre = out@;
                    out.push(Piece::Text(s.to_owned()));
                    proof {
                        assert(piece_views(out@).drop_last() =~= piece_views(pre));
                        assert(piece_views(out@).last() == SpecPiece::Text(s@));
                        assert(sim(piece_views(out@)) == Some(stack_views(stack@)));
                        assert(piece_views(out@) =~= out0 + spec_emit(t, stack0, iv).1);
                    }
                },
                None => {
                    proof {
                        assert(piece_views(out@) =~= out0 + spec_emit(t, stack0, iv).1);
                    }
                },
            }
            false
        },
        TokenType::Tag { whitespace, tag, attrs: _ } => {
            if stack.len() < 3 {
                match interner.resolve(tag) {
                    Some(tg) => {
                        let ghost ws_pieces = spec_emit(t, stack0, iv).1.drop_last();
                        let name = tg.to_owned();
                        match whitespace {
                            Some(wh) => {
                                match interner.resolve(wh) {
                                    Some(w) => {
                                        let ghost pre = out@;
                                        out.push(Piece::Text(w.to_owned()));
                                        proof {
                                            assert(piece_views(out@).drop_last() =~= piece_views(
                                                pre,
                                            ));
                                            assert(piece_views(out@).last() == SpecPiece::Text(
                                                w@,
                                            ));
                                            assert(sim(piece_views(out@)) == Some(stack_views(
                                                stack@,
                                            )));
                                            assert(piece_views(out@) =~= out0 + ws_pieces);
                                        }
                                    },
                                    None => {
                                        proof {
                                            assert(piece_views(out@) =~= out0 + ws_pieces);
                                        }
                                    },
                                }
                            },
                            None => {
                                proof {
                                    assert(piece_views(out@) =~= out0 + ws_pieces);
                                }
                            },
                        }
                        let ghost pre2 = out@;
                        let ghost prestack = stack@;
                        let name2 = clone_name(&name);
                        stack.push(name);
                        out.push(Piece::Open(name2));
                        proof {
                            assert(piece_views(out@).drop_last() =~= piece_views(pre2));
                            assert(piece_views(out@).last() == SpecPiece::Open(name2@));
                            assert(stack_views(stack@) =~= stack_views(prestack).push(name2@));
                            assert(sim(piece_views(out@)) == Some(stack_views(stack@)));
                            assert(piece_views(out@) =~= out0 + spec_emit(t, stack0, iv).1);
                            assert(stack_views(stack@) =~= spec_emit(t, stack0, iv).0);
                        }
                    },
                    None => {
                        proof {
                            assert(piece_views(out@) =~= out0 + spec_emit(t, stack0, iv).1);
                        }
                    },
                }
            } else {
                proof {
                    assert(piece_views(out@) =~= out0 + spec_emit(t, stack0, iv).1);
                }
            }
            false
        },
        TokenType::End => {
            match stack.pop() {
                Some(name) => {
                    let ghost pre = out@;
                    let ghost prestack = stack@;
                    out.push(Piece::Close(name));
                    proof {
                        assert(piece_views(out@).drop_last() =~= piece_views(pre));
                        let nm = out@.last()->Close_0;
                        assert(piece_views(out@).last() == SpecPiece::Close(nm@));
                        assert(prestack.push(nm) =~= old(stack)@);
                        assert(stack_views(old(stack)@).last() == nm@);
                        assert(stack_views(prestack) =~= stack_views(old(stack)@).drop_last());
                        assert(sim(piece_views(out@)) == Some(stack_views(stack@)));
                        assert(piece_views(out@) =~= out0 + spec_emit(t, stack0, iv).1);
                        assert(stack_views(stack@) =~= spec_emit(t, stack0, iv).0);
                    }
                    false
                },
                None => {
                    proof {
                        assert(piece_views(out@) =~= out0 + spec_emit(t, stack0, iv).1);
                    }
                    true
                },
            }
        },
        TokenType::Start => {
            proof {
                assert(piece_views(out@) =~= out0 + spec_emit(t, stack0, iv).1);
            }
            false
        },
    }
}

/// A copy of a tag name.
fn clone_name(s: &String) -> (r: String)
    ensures
        r@ == s@,
{
    String::from_str(s.as_str())
}

/// Walk the compiled model at random and emit balanced markup, as pieces.
///
/// The walk starts at the `Start` state, follows the compiled slots at every
/// move (primary when the drawn fraction falls under the slot's probability,
/// alias otherwise), and ends when an `End` token meets an empty tag stack,
/// or after `max_steps` tokens, whichever comes first; any tags still open
/// are then closed in nesting order. The output is exactly the emissions of
/// such a walk, closed off ([`generated_output`]), and always replays to an
/// empty stack: every opened tag has a matching close, tags nest properly,
/// and never more than three are open at once.
pub fn generate_pieces(model: &Model, interner: &Interner, max_steps: usize) -> (out: Vec<Piece>)
    requires
        model.wf(),
    ensures
        sim(piece_views(out@)) == Some(Seq::<Seq<char>>::empty()),
        exists|w: Seq<usize>|
            generated_output(
                *model,
                interner_strings(*interner),
                w,
                max_steps as int,
                piece_views(out@),
            ),
{
    let ghost iv = interner_strings(*interner);
    let mut out: Vec<Piece> = Vec::new();
    let mut stack: Vec<String> = Vec::new();
    let mut idx = model.start;
    let mut steps: usize = 0;
    let ghost mut idxs: Seq<usize> = Seq::empty();
    proof {
        assert(piece_views(out@) =~= Seq::<SpecPiece>::empty());
        assert(stack_views(stack@) =~= Seq::<Seq<char>>::empty());
    }
    loop
        invariant_except_break
            idx < model.states@.len(),
            idxs.len() > 0 ==> walk_step_ok(*model, idxs.last(), idx),
            idxs.len() == 0 ==> idx == model.start,
        invariant
            model.wf(),
            iv == interner_strings(*interner),
            stack@.len() <= 3,
            sim(piece_views(out@)) == Some(stack_views(stack@)),
            steps <= max_steps,
            idxs.len() == steps,
            walk_ok(*model, idxs),
            walk_emit(*model, iv, idxs) == (stack_views(stack@), piece_views(out@)),
        ensures
            exists|w: Seq<usize>|
                mid_walk(
                    *model,
                    iv,
                    w,
                    max_steps as int,
                    stack_views(stack@),
                    piece_views(out@),
                ),
        decreases max_steps - steps,
    {
        if steps >= max_steps {
            proof {
                assert(mid_walk(
                    *model,
                    iv,
                    idxs,
                    max_steps as int,
                    stack_views(stack@),
                    piece_views(out@),
                ));
            }
            break;
        }
        let token = model.states[idx].token;
        let ghost idxs0 = idxs;
        let ghost prestack = stack_views(stack@);
        proof {
            idxs = idxs.push(idx);
        }
        let stop = emit_token(token, &mut stack, &mut out, interner);
        steps = steps + 1;
        proof {
            assert(idxs.drop_last() =~= idxs0);
            assert(idxs.last() == idx);
            assert(walk_emit(*model, iv, idxs) == (stack_views(stack@), piece_views(out@)));
            assert forall|k: int| 0 <= k < idxs.len() implies (#[trigger] idxs[k])
                < model.states@.len() by {
                if k < idxs0.len() {
                    assert(idxs[k] == idxs0[k]);
                }
            }
            assert forall|k: int| 0 <= k < idxs.len() - 1 implies walk_step_ok(
                *model,
                idxs[k],
                #[trigger] idxs[k + 1],
            ) by {
                if k < idxs0.len() - 1 {
                    assert(idxs[k] == idxs0[k] && idxs[k + 1] == idxs0[k + 1]);
                } else {
                    assert(idxs[k] == idxs0.last() && idxs[k + 1] == idx);
                }
            }
            assert(walk_ok(*model, idxs));
        }
        if stop {
            proof {
                assert(prestack.len() == 0);
                assert(walk_emit(*model, iv, idxs.drop_last()).0 =~= Seq::<Seq<char>>::empty());
                assert(mid_walk(
                    *model,
                    iv,
                    idxs,
                    max_steps as int,
                    stack_views(stack@),
                    piece_views(out@),
                ));
            }
            break;
        }
        let d = model.states[idx].slots.len();
        let sum = model.states[idx].sum;
        let r1 = random_u64();
        let k = (r1 as usize) % d;
        let slot = model.states[idx].slots[k];
        let hi = random_u64();
        let lo = random_u64();
        let y = (((hi as u128) << 64) | (lo as u128)) % sum;
        let next = if y < slot.prob {
            slot.primary
        } else {
            slot.alias
        };
        proof {
            assert(model.states@[idx as int].slots@[k as int] == slot);
            assert(walk_step_ok(*model, idx, next));
        }
        idx = next;
    }
    let ghost widxs = choose|w: Seq<usize>|
        mid_walk(*model, iv, w, max_steps as int, stack_views(stack@), piece_views(out@));
    let ghost w0stack = stack_views(stack@);
    let ghost w0pieces = piece_views(out@);
    while stack.len() > 0
        invariant
            stack@.len() <= 3,
            sim(piece_views(out@)) == Some(stack_views(stack@)),
            mid_walk(*model, iv, widxs, max_steps as int, w0stack, w0pieces),
            piece_views(out@) + close_tail(stack_views(stack@)) == w0pieces + close_tail(w0stack),
        decreases stack@.len(),
    {
        let ghost prepop = stack@;
        let name = stack.pop().unwrap();
        let ghost pre = out@;
        let ghost prestack = stack@;
        let ghost prestack_full = prestack.push(name);
        out.push(Piece::Close(name));
        proof {
            assert(piece_views(out@).drop_last() =~= piece_views(pre));
            let nm = out@.last()->Close_0;
            assert(piece_views(out@).last() == SpecPiece::Close(nm@));
            assert(prestack.push(nm) =~= prestack_full);
            assert(prestack_full =~= prepop);
            assert(stack_views(prestack_full).last() == nm@);
            assert(stack_views(prestack) =~= stack_views(prestack_full).drop_last());
            assert(close_tail(stack_views(prestack_full)) == seq![SpecPiece::Close(nm@)]
                + close_tail(stack_views(prestack)));
            assert(piece_views(out@) + close_tail(stack_views(stack@)) =~= piece_views(pre)
                + close_tail(stack_views(prestack_full)));
            assert(piece_views(pre) + close_tail(stack_views(prepop)) == w0pieces + close_tail(
                w0stack,
            ));
        }
    }
    proof {
        assert(stack_views(stack@) =~= Seq::<Seq<char>>::empty());
        assert(close_tail(stack_views(stack@)) =~= Seq::<SpecPiece>::empty());
        assert(piece_views(out@) =~= piece_views(out@) + close_tail(stack_views(stack@)));
        assert(piece_views(out@) == w0pieces + close_tail(w0stack));
        assert(generated_output(*model, iv, widxs, max_steps as int, piece_views(out@)));
    }
    out
}

/// The text of a piece sequence: text as is, `<name>` for an open,
/// `</name>` for a close.
pub open spec fn render(ps: Seq<SpecPiece>) -> Seq<char>
    decreases ps.len(),
{
    if ps.len() == 0 {
        Seq::empty()
    } else {
        render(ps.drop_last()) + (match ps.last() {
            SpecPiece::Text(s) => s,
            SpecPiece::Open(t) => seq!['<'] + t + seq!['>'],
            SpecPiece::Close(t) => seq!['<', '/'] + t + seq!['>'],
        })
    }
}

/// Render pieces into one string.
pub fn render_pieces(pieces: &Vec<Piece>) -> (out: String)
    ensures
        out@ == render(piece_views(pieces@)),
{
    let mut out = String::new();
    let n = pieces.len();
    let mut i: usize = 0;
    proof {
        assert(piece_views(pieces@).subrange(0, 0) =~= Seq::<SpecPiece>::empty());
    }
    while i < n
        invariant
            n == pieces@.len(),
            i <= n,
            out@ == render(piece_views(pieces@).subrange(0, i as int)),
        decreases n - i,
    {
        proof {
            assert(piece_views(pieces@).subrange(0, i as int + 1).drop_last() =~= piece_views(
                pieces@,
            ).subrange(0, i as int));
            assert(piece_views(pieces@).subrange(0, i as int + 1).last() == pieces@[i as int]@);
        }
        match &pieces[i] {
            Piece::Text(s) => {
                out.append(s.as_str());
            },
            Piece::Open(t) => {
                out.append("<");
                out.append(t.as_str());
                out.append(">");
                proof {
                    reveal_strlit("<");
                    reveal_strlit(">");
                    assert(out@ =~= render(piece_views(pieces@).subrange(0, i as int + 1)));
                }
            },
            Piece::Close(t) => {
                out.append("</");
                out.append(t.as_str());
                out.append(">");
                proof {
                    reveal_strlit("</");
                    reveal_strlit(">");
                    assert(out@ =~= render(piece_views(pieces@).subrange(0, i as int + 1)));
                }
            },
        }
        i = i + 1;
    }
    proof {
        assert(piece_views(pieces@).subrange(0, n as int) =~= piece_views(pieces@));
    }
    out
}

/// Walk the compiled model at random and return balanced markup as text:
/// the rendering of the emissions of a walk through the model's slots
/// ([`generated_output`]), which always replays to an empty tag stack.
pub fn generate(model: &Model, interner: &Interner, max_steps: usize) -> (out: String)
    requires
        model.wf(),
    ensures
        exists|w: Seq<usize>, ps: Seq<SpecPiece>|
            #![trigger generated_output(*model, interner_strings(*interner), w, max_steps as int, ps)]
            {
                &&& generated_output(*model, interner_strings(*interner), w, max_steps as int, ps)
                &&& sim(ps) == Some(Seq::<Seq<char>>::empty())
                &&& out@ == render(ps)
            },
{
    let pieces = generate_pieces(model, interner, max_steps);
    let out = render_pieces(&pieces);
    proof {
        let w = choose|w: Seq<usize>|
            generated_output(
                *model,
                interner_strings(*interner),
                w,
                max_steps as int,
                piece_views(pieces@),
            );
        assert(generated_output(
            *model,
            interner_strings(*interner),
            w,
            max_steps as int,
            piece_views(pieces@),
        ) && sim(piece_views(pieces@)) == Some(Seq::<Seq<char>>::empty()) && out@ == render(
            piece_views(pieces@),
        ));
    }
    out
}

} // verus!
