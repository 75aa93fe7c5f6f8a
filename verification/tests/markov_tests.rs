use markov::alias::compile_row;
use markov::error::Error;
use markov::intern::Interner;
use markov::markov::{emit_token, render_pieces, generate, generate_pieces, Piece, TokenType};
use markov::parse::{process_posts, JsonEvent};
use markov::table::TransitionTable;
use markov::tokens::tokenise;
use markov::Markov;

fn resolve(interner: &Interner, h: u32) -> String {
    interner.resolve(h).expect("live handle").to_string()
}

#[test]
fn tokenise_nested_tags() {
    let mut table = TransitionTable::new();
    let mut interner = Interner::new();
    let toks = tokenise("<p>hello <b>world</b></p>", &mut table, &mut interner).unwrap();
    assert_eq!(toks.len(), 6);
    match toks[0] {
        TokenType::Tag { whitespace, tag, .. } => {
            assert!(whitespace.is_none());
            assert_eq!(resolve(&interner, tag), "p");
        },
        _ => panic!("expected an open tag"),
    }
    match toks[1] {
        TokenType::Text(h) => assert_eq!(resolve(&interner, h), "hello"),
        _ => panic!("expected text"),
    }
    match toks[2] {
        TokenType::Tag { whitespace, tag, .. } => {
            assert_eq!(resolve(&interner, whitespace.unwrap()), " ");
            assert_eq!(resolve(&interner, tag), "b");
        },
        _ => panic!("expected an open tag"),
    }
    match toks[3] {
        TokenType::Text(h) => assert_eq!(resolve(&interner, h), "world"),
        _ => panic!("expected text"),
    }
    assert_eq!(toks[4], TokenType::End);
    assert_eq!(toks[5], TokenType::End);

    // Re-render through the generator's emission rules: balanced markup.
    let mut stack: Vec<String> = Vec::new();
    let mut out: Vec<Piece> = Vec::new();
    for t in toks.iter() {
        let stop = emit_token(*t, &mut stack, &mut out, &interner);
        assert!(!stop);
    }
    let stop = emit_token(TokenType::End, &mut stack, &mut out, &interner);
    assert!(stop);
    assert!(stack.is_empty());
    let text = render_pieces(&out);
    assert_eq!(text.as_str(), "<p>hello <b>world</b></p>");
}

#[test]
fn tokenise_decodes_entities() {
    let mut table = TransitionTable::new();
    let mut interner = Interner::new();
    let toks = tokenise("&amp;", &mut table, &mut interner).unwrap();
    assert_eq!(toks.len(), 1);
    match toks[0] {
        TokenType::Text(h) => assert_eq!(resolve(&interner, h), "&"),
        _ => panic!("expected text"),
    }
}

#[test]
fn tokenise_self_closing_and_words() {
    let mut table = TransitionTable::new();
    let mut interner = Interner::new();
    let toks = tokenise("one<br/>two", &mut table, &mut interner).unwrap();
    assert_eq!(toks.len(), 4);
    match toks[1] {
        TokenType::Tag { tag, .. } => assert_eq!(resolve(&interner, tag), "br"),
        _ => panic!("expected a tag"),
    }
    assert_eq!(toks[2], TokenType::End);
}

#[test]
fn alias_row_slots_are_valid() {
    // Destination counts {A: 1, B: 1, C: 2} as catalogue indices 0, 1, 2.
    let dests: Vec<(usize, u64)> = vec![(0, 1), (1, 1), (2, 2)];
    let (slots, sum) = compile_row(&dests);
    assert_eq!(slots.len(), 3);
    assert_eq!(sum, 4);
    for s in slots.iter() {
        assert!(s.prob <= sum);
        assert!(s.primary <= 2);
        assert!(s.alias <= 2);
    }
    // Exact mass per destination: count * out-degree.
    let mut mass = [0u128; 3];
    for s in slots.iter() {
        mass[s.primary] += s.prob;
        mass[s.alias] += sum - s.prob;
    }
    assert_eq!(mass[0], 1 * 3);
    assert_eq!(mass[1], 1 * 3);
    assert_eq!(mass[2], 2 * 3);
}

#[test]
fn alias_sampling_matches_counts() {
    let dests: Vec<(usize, u64)> = vec![(0, 1), (1, 1), (2, 2)];
    let (slots, sum) = compile_row(&dests);
    let n = 400_000u64;
    let mut hits = [0u64; 3];
    for _ in 0..n {
        let k = (rand::random::<u64>() as usize) % slots.len();
        let y = rand::random::<u128>() % sum;
        let target = if y < slots[k].prob { slots[k].primary } else { slots[k].alias };
        hits[target] += 1;
    }
    // Expected proportions 1 : 1 : 2 of n.
    let quarter = n / 4;
    let tol = n / 40;
    assert!(hits[0].abs_diff(quarter) < tol, "A: {}", hits[0]);
    assert!(hits[1].abs_diff(quarter) < tol, "B: {}", hits[1]);
    assert!(hits[2].abs_diff(2 * quarter) < tol, "C: {}", hits[2]);
}

#[test]
fn scanner_takes_first_id_in_document_order() {
    let mut table = TransitionTable::new();
    let mut interner = Interner::new();
    let events = vec![
        JsonEvent::Other,
        JsonEvent::StartObject,
        JsonEvent::FieldName(String::from("id")),
        JsonEvent::ValueString(String::from("5")),
        JsonEvent::FieldName(String::from("content")),
        JsonEvent::ValueString(String::from("hello world")),
        JsonEvent::EndObject,
        JsonEvent::StartObject,
        JsonEvent::FieldName(String::from("id")),
        JsonEvent::ValueString(String::from("4")),
        JsonEvent::EndObject,
        JsonEvent::Other,
    ];
    let out = process_posts(&events, &mut table, &mut interner).unwrap();
    assert_eq!(out.cursor.as_deref(), Some("5"));
    assert!(!out.exhausted);
}

#[test]
fn scanner_skips_nested_objects_and_later_ids() {
    let mut table = TransitionTable::new();
    let mut interner = Interner::new();
    let events = vec![
        JsonEvent::StartObject,
        JsonEvent::FieldName(String::from("account")),
        JsonEvent::StartObject,
        JsonEvent::FieldName(String::from("id")),
        JsonEvent::ValueString(String::from("nested")),
        JsonEvent::EndObject,
        JsonEvent::FieldName(String::from("id")),
        JsonEvent::ValueString(String::from("7")),
        JsonEvent::EndObject,
    ];
    let out = process_posts(&events, &mut table, &mut interner).unwrap();
    assert_eq!(out.cursor.as_deref(), Some("7"));
    assert!(!out.exhausted);
}

#[test]
fn empty_page_reports_exhaustion() {
    let mut table = TransitionTable::new();
    let mut interner = Interner::new();
    let events: Vec<JsonEvent> = vec![JsonEvent::Other, JsonEvent::Other];
    let out = process_posts(&events, &mut table, &mut interner).unwrap();
    assert!(out.exhausted);
    assert!(out.cursor.is_none());
}

#[test]
fn two_page_corpus_consumes_exactly_two_pages() {
    let page1 = vec![
        JsonEvent::StartObject,
        JsonEvent::FieldName(String::from("id")),
        JsonEvent::ValueString(String::from("5")),
        JsonEvent::FieldName(String::from("content")),
        JsonEvent::ValueString(String::from("<b>hi</b> yo")),
        JsonEvent::EndObject,
        JsonEvent::StartObject,
        JsonEvent::FieldName(String::from("id")),
        JsonEvent::ValueString(String::from("4")),
        JsonEvent::EndObject,
    ];
    let page2: Vec<JsonEvent> = Vec::new();
    let page3 = vec![JsonEvent::StartObject, JsonEvent::EndObject];
    let pages = vec![page1, page2, page3];
    let (m, _interner, consumed) = Markov::new(&pages).unwrap();
    assert_eq!(consumed, 2);
    assert!(m.table().entries().len() > 0);
}

#[test]
fn generator_output_is_balanced() {
    let mut table = TransitionTable::new();
    let mut interner = Interner::new();
    tokenise("<b>hi</b> yo", &mut table, &mut interner).unwrap();
    tokenise("<p>a <i>b</i> c</p>", &mut table, &mut interner).unwrap();
    let model = markov::alias::compile_model(&table).unwrap();
    for _ in 0..50 {
        let pieces = generate_pieces(&model, &interner, 200);
        let mut depth: usize = 0;
        let mut max_depth: usize = 0;
        let mut names: Vec<String> = Vec::new();
        for p in pieces.iter() {
            match p {
                Piece::Text(_) => {},
                Piece::Open(t) => {
                    names.push(t.clone());
                    depth += 1;
                    if depth > max_depth {
                        max_depth = depth;
                    }
                },
                Piece::Close(t) => {
                    let top = names.pop().expect("close without open");
                    assert_eq!(&top, t);
                    depth -= 1;
                },
            }
        }
        assert_eq!(depth, 0, "every opened tag is closed");
        assert!(max_depth <= 3, "never more than three open tags");
        let text = generate(&model, &interner, 200);
        assert!(text.matches('<').count() % 2 == 0 || !text.is_empty());
    }
}

#[test]
fn missing_destination_state_is_fatal() {
    // A one-word corpus ends in `End`, which never occurs as a source, so
    // compilation reports the broken invariant instead of a model.
    let mut table = TransitionTable::new();
    let mut interner = Interner::new();
    tokenise("hi", &mut table, &mut interner).unwrap();
    match markov::alias::compile_model(&table) {
        Err(Error::InternerError) => {},
        _ => panic!("expected a fatal compile error"),
    }
}

#[test]
fn builder_collects_configuration() {
    let b = Markov::builder("https://example.test/api")
        .exclude_replies()
        .private_key(String::from("k3y"))
        .outdir(String::from("out"));
    assert_eq!(b.url, "https://example.test/api");
    assert!(b.exclude_replies);
    assert_eq!(b.private_key.as_deref(), Some("k3y"));
    assert_eq!(b.outdir.as_deref(), Some("out"));
}

#[test]
fn deterministic_model_round_trips() {
    // Every state of the single-post corpus has out-degree one, so the walk
    // is forced and the generator reproduces the post exactly.
    let mut table = TransitionTable::new();
    let mut interner = Interner::new();
    tokenise("<p>hello <b>world</b></p>", &mut table, &mut interner).unwrap();
    let model = markov::alias::compile_model(&table).unwrap();
    for _ in 0..10 {
        let text = generate(&model, &interner, 10_000);
        assert_eq!(text.as_str(), "<p>hello <b>world</b></p>");
    }
}

#[test]
fn tag_at_capacity_emits_nothing() {
    let mut interner = Interner::new();
    let h = interner.get_or_intern("b");
    // Open three tags so the stack stands at capacity.
    let mut st: Vec<String> = Vec::new();
    let mut pieces: Vec<Piece> = Vec::new();
    for t in ["x", "y", "z"] {
        let th = interner.get_or_intern(t);
        emit_token(
            TokenType::Tag { whitespace: None, tag: th, attrs: h },
            &mut st,
            &mut pieces,
            &interner,
        );
    }
    assert_eq!(st.len(), 3);
    let before = pieces.len();
    let stop = emit_token(
        TokenType::Tag { whitespace: None, tag: h, attrs: h },
        &mut st,
        &mut pieces,
        &interner,
    );
    assert!(!stop);
    assert_eq!(pieces.len(), before, "a tag at capacity appends nothing");
    assert_eq!(st.len(), 3);
}
