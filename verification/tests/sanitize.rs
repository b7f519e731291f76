use engine_broker::api::ClientSecret;
use engine_broker::api::EngineId;
use engine_broker::api::InvalidWorkError;
use engine_broker::api::LichessVariant;
use engine_broker::api::MultiPv;
use engine_broker::api::ProviderSecret;
use engine_broker::api::SessionId;
use engine_broker::api::UserId;
use engine_broker::api::Work;
use engine_broker::hub::Hub;
use engine_broker::repo::ExternalEngine;
use engine_broker::rules::Variant;

const START: &str = "rnbqkbnr/pppppppp/8/8/8/8/PPPPPPPP/RNBQKBNR w KQkq - 0 1";

fn engine(max_threads: u32, max_hash: u32, variants: Vec<LichessVariant>) -> ExternalEngine {
    ExternalEngine {
        id: EngineId::new("eng_1".to_string()),
        name: "Stockfish".to_string(),
        client_secret: ClientSecret::new("client".to_string()),
        user_id: UserId::new("user".to_string()),
        max_threads,
        max_hash,
        variants,
        provider_secret: ProviderSecret::new("provider".to_string()),
        provider_data: None,
    }
}

fn work(threads: u32, hash: u32, variant: LichessVariant, fen: &str, moves: &[&str]) -> Work {
    Work {
        session_id: SessionId::new("session".to_string()),
        threads,
        hash,
        deep: true,
        multi_pv: MultiPv::try_from(3).unwrap(),
        variant,
        initial_fen: fen.to_string(),
        moves: moves.iter().map(|m| m.to_string()).collect(),
    }
}

fn shuffle(n: usize) -> Vec<&'static str> {
    let cycle = ["g1f3", "g8f6", "f3g1", "f6g8"];
    (0..n).map(|i| cycle[i % 4]).collect()
}

#[test]
fn sanitize_clamps_threads_and_canonicalizes_one_opening_move() {
    let engine = engine(4, 64, vec![LichessVariant::Standard]);
    let (job, end) = work(8, 16, LichessVariant::Standard, START, &["e2e4"])
        .sanitize(&engine)
        .unwrap();
    assert_eq!(job.threads, 4);
    assert_eq!(job.hash, 16);
    assert_eq!(job.moves, vec!["e2e4".to_string()]);
    assert_eq!(job.initial_fen, START);
    assert_eq!(job.variant, LichessVariant::Standard);
    assert_eq!(job.session_id.as_str(), "session");
    assert!(job.deep);
    assert_eq!(job.multi_pv.get(), 3);
    assert_eq!(end.variant, Variant::Chess);
    assert_eq!(end.fen, "rnbqkbnr/pppppppp/8/8/4P3/8/PPPP1PPP/RNBQKBNR b KQkq - 0 1");
}

#[test]
fn sanitized_work_is_acquired_exactly_once_under_the_provider_selector() {
    let engine = engine(4, 64, vec![LichessVariant::Standard]);
    let (job, _) = work(8, 16, LichessVariant::Standard, START, &["e2e4"])
        .sanitize(&engine)
        .unwrap();
    let mut hub: Hub<_, Work, u32> = Hub::new();
    assert!(hub.submit(engine.provider_secret.selector(), job).is_none());
    let first = hub.acquire(engine.provider_secret.selector(), 1).unwrap();
    assert_eq!(first.waiter, 1);
    assert_eq!(first.value.threads, 4);
    assert_eq!(first.value.moves, vec!["e2e4".to_string()]);
    assert_eq!(first.value.initial_fen, START);
    assert!(hub.acquire(engine.provider_secret.selector(), 2).is_none());
    assert_eq!(hub.pending(&engine.provider_secret.selector()), 0);
    assert_eq!(hub.parked(&engine.provider_secret.selector()), 1);
}

#[test]
fn sanitize_leaves_smaller_requests_untouched() {
    let engine = engine(4, 64, vec![LichessVariant::Standard]);
    let (job, _) = work(2, 32, LichessVariant::Standard, START, &[]).sanitize(&engine).unwrap();
    assert_eq!(job.threads, 2);
    assert_eq!(job.hash, 32);
}

#[test]
fn sanitize_cuts_both_resources_down_to_the_limits() {
    let engine = engine(4, 64, vec![LichessVariant::Standard]);
    let (job, _) = work(u32::MAX, 65, LichessVariant::Standard, START, &[])
        .sanitize(&engine)
        .unwrap();
    assert_eq!(job.threads, 4);
    assert_eq!(job.hash, 64);
    let (job, _) = work(4, 64, LichessVariant::Standard, START, &[]).sanitize(&engine).unwrap();
    assert_eq!(job.threads, 4);
    assert_eq!(job.hash, 64);
}

#[test]
fn sanitize_is_idempotent_on_its_own_output() {
    let engine = engine(4, 64, vec![LichessVariant::Standard]);
    let moves = ["e2e4", "e7e5", "g1f3", "b8c6", "f1c4", "g8f6", "e1g1"];
    let (once, end_once) = work(8, 128, LichessVariant::FromPosition, START, &moves)
        .sanitize(&engine)
        .unwrap();
    let again = Work {
        session_id: once.session_id.clone(),
        threads: once.threads,
        hash: once.hash,
        deep: once.deep,
        multi_pv: once.multi_pv,
        variant: once.variant,
        initial_fen: once.initial_fen.clone(),
        moves: once.moves.clone(),
    };
    let (twice, end_twice) = again.sanitize(&engine).unwrap();
    assert_eq!(twice.session_id.as_str(), once.session_id.as_str());
    assert_eq!(twice.threads, once.threads);
    assert_eq!(twice.hash, once.hash);
    assert_eq!(twice.deep, once.deep);
    assert_eq!(twice.multi_pv.get(), once.multi_pv.get());
    assert_eq!(twice.variant, once.variant);
    assert_eq!(twice.initial_fen, once.initial_fen);
    assert_eq!(twice.moves, once.moves);
    assert_eq!(end_twice.fen, end_once.fen);
    assert_eq!(end_twice.variant, end_once.variant);
}

#[test]
fn sanitize_writes_castling_as_king_takes_rook() {
    let engine = engine(4, 64, vec![LichessVariant::Standard]);
    let moves = ["e2e4", "e7e5", "g1f3", "b8c6", "f1c4", "g8f6", "e1g1"];
    let (job, end) = work(1, 1, LichessVariant::Standard, START, &moves).sanitize(&engine).unwrap();
    assert_eq!(job.moves.len(), 7);
    assert_eq!(job.moves[5], "g8f6");
    assert_eq!(job.moves[6], "e1h1");
    assert_eq!(end.fen, "r1bqkb1r/pppp1ppp/2n2n2/4p3/2B1P3/5N2/PPPP1PPP/RNBQ1RK1 b kq - 5 4");
}

#[test]
fn sanitize_fills_in_a_loosely_written_position() {
    let engine = engine(4, 64, vec![LichessVariant::Standard]);
    let (job, _) = work(1, 1, LichessVariant::Standard, "rnbqkbnr/pppppppp/8/8/8/8/PPPPPPPP/RNBQKBNR_w_KQkq", &[])
        .sanitize(&engine)
        .unwrap();
    assert_eq!(job.initial_fen, START);
}

#[test]
fn sanitize_drops_an_en_passant_square_that_cannot_be_used() {
    let engine = engine(4, 64, vec![LichessVariant::Standard]);
    let (job, _) = work(
        1,
        1,
        LichessVariant::Standard,
        "rnbqkbnr/pppppppp/8/8/4P3/8/PPPP1PPP/RNBQKBNR b KQkq e3 0 1",
        &[],
    )
        .sanitize(&engine)
        .unwrap();
    assert_eq!(job.initial_fen, "rnbqkbnr/pppppppp/8/8/4P3/8/PPPP1PPP/RNBQKBNR b KQkq - 0 1");
}

#[test]
fn sanitize_names_orthodox_chess_standard() {
    let engine = engine(4, 64, vec![LichessVariant::Standard]);
    let (job, end) = work(1, 1, LichessVariant::Chess960, START, &[]).sanitize(&engine).unwrap();
    assert_eq!(job.variant, LichessVariant::Standard);
    assert_eq!(end.variant, Variant::Chess);
    let (job, _) = work(1, 1, LichessVariant::FromPosition, START, &[]).sanitize(&engine).unwrap();
    assert_eq!(job.variant, LichessVariant::Standard);
}

#[test]
fn sanitize_accepts_a_variant_declared_under_another_name() {
    let engine = engine(4, 64, vec![LichessVariant::Atomic, LichessVariant::Chess960]);
    let (job, _) = work(1, 1, LichessVariant::Standard, START, &["e2e4"]).sanitize(&engine).unwrap();
    assert_eq!(job.variant, LichessVariant::Standard);
    let (job, end) = work(1, 1, LichessVariant::Atomic, START, &["e2e4"]).sanitize(&engine).unwrap();
    assert_eq!(job.variant, LichessVariant::Atomic);
    assert_eq!(end.variant, Variant::Atomic);
}

#[test]
fn sanitize_replays_a_drop_in_crazyhouse() {
    let engine = engine(4, 64, vec![LichessVariant::Crazyhouse]);
    let moves = ["e2e4", "d7d5", "e4d5", "d8d5", "P@d7"];
    let (job, end) = work(
        1,
        1,
        LichessVariant::Crazyhouse,
        "rnbqkbnr/pppppppp/8/8/8/8/PPPPPPPP/RNBQKBNR[] w KQkq - 0 1",
        &moves,
    )
        .sanitize(&engine)
        .unwrap();
    assert_eq!(job.moves, vec!["e2e4", "d7d5", "e4d5", "d8d5", "P@d7"]);
    assert_eq!(end.variant, Variant::Crazyhouse);
    assert_eq!(end.fen, "rnb1kbnr/pppPpppp/8/3q4/8/8/PPPP1PPP/RNBQKBNR[p] b KQkq - 0 3");
}

#[test]
fn sanitize_rejects_an_undeclared_variant() {
    let engine = engine(4, 64, vec![LichessVariant::Standard, LichessVariant::Horde]);
    let r = work(1, 1, LichessVariant::Atomic, START, &["e2e4"]).sanitize(&engine);
    assert_eq!(r.err(), Some(InvalidWorkError::UnsupportedVariant));
    let none = engine_none();
    let r = work(1, 1, LichessVariant::Standard, START, &[]).sanitize(&none);
    assert_eq!(r.err(), Some(InvalidWorkError::UnsupportedVariant));
}

fn engine_none() -> ExternalEngine {
    engine(4, 64, vec![])
}

#[test]
fn sanitize_rejects_a_malformed_position() {
    let engine = engine(4, 64, vec![LichessVariant::Standard]);
    let r = work(1, 1, LichessVariant::Standard, "not a position", &[]).sanitize(&engine);
    assert_eq!(
        r.err(),
        Some(InvalidWorkError::Position("invalid board part in fen".to_string()))
    );
    let r = work(1, 1, LichessVariant::Standard, "", &[]).sanitize(&engine);
    assert_eq!(r.err(), Some(InvalidWorkError::Position("invalid fen".to_string())));
    let r = work(1, 1, LichessVariant::Standard, "8/8/8/8/8/8/8/8 x - - 0 1", &[]).sanitize(&engine);
    assert_eq!(r.err(), Some(InvalidWorkError::Position("invalid turn part in fen".to_string())));
}

#[test]
fn sanitize_rejects_a_position_that_cannot_be_set_up() {
    let engine = engine(4, 64, vec![LichessVariant::Standard]);
    let r = work(1, 1, LichessVariant::Standard, "8/8/8/8/8/8/8/8 w - - 0 1", &[]).sanitize(&engine);
    assert_eq!(
        r.err(),
        Some(InvalidWorkError::Position("illegal position: empty board, missing king".to_string()))
    );
    let r = work(1, 1, LichessVariant::Standard, "4k3/8/8/8/8/8/8/8 w - - 0 1", &[])
        .sanitize(&engine);
    assert_eq!(
        r.err(),
        Some(InvalidWorkError::Position("illegal position: missing king".to_string()))
    );
}

#[test]
fn sanitize_rejects_an_illegal_move() {
    let engine = engine(4, 64, vec![LichessVariant::Standard]);
    let r = work(1, 1, LichessVariant::Standard, START, &["e2e5"]).sanitize(&engine);
    assert_eq!(r.err(), Some(InvalidWorkError::IllegalUci("illegal uci".to_string())));
    let r = work(1, 1, LichessVariant::Standard, START, &["e2e4", "e2e4"]).sanitize(&engine);
    assert_eq!(r.err(), Some(InvalidWorkError::IllegalUci("illegal uci".to_string())));
    let r = work(1, 1, LichessVariant::Standard, START, &["e2e4", "e7e5", "g1f3", "b8c6", "e1g1"])
        .sanitize(&engine);
    assert_eq!(r.err(), Some(InvalidWorkError::IllegalUci("illegal uci".to_string())));
}

#[test]
fn sanitize_rejects_a_malformed_or_null_move() {
    let engine = engine(4, 64, vec![LichessVariant::Standard]);
    let r = work(1, 1, LichessVariant::Standard, START, &["e2e4", "xyz"]).sanitize(&engine);
    assert_eq!(r.err(), Some(InvalidWorkError::IllegalUci("invalid uci".to_string())));
    let r = work(1, 1, LichessVariant::Standard, START, &["0000"]).sanitize(&engine);
    assert_eq!(r.err(), Some(InvalidWorkError::IllegalUci("illegal uci".to_string())));
    let r = work(1, 1, LichessVariant::Standard, START, &[""]).sanitize(&engine);
    assert_eq!(r.err(), Some(InvalidWorkError::IllegalUci("invalid uci".to_string())));
}

#[test]
fn sanitize_rejects_a_move_after_the_game_has_ended() {
    let engine = engine(4, 64, vec![LichessVariant::Standard]);
    let mate = ["f2f3", "e7e5", "g2g4", "d8h4"];
    let (job, end) = work(1, 1, LichessVariant::Standard, START, &mate).sanitize(&engine).unwrap();
    assert_eq!(job.moves.len(), 4);
    assert_eq!(end.fen, "rnb1kbnr/pppp1ppp/8/4p3/6Pq/5P2/PPPPP2P/RNBQKBNR w KQkq - 1 3");
    let beyond = ["f2f3", "e7e5", "g2g4", "d8h4", "a2a3"];
    let r = work(1, 1, LichessVariant::Standard, START, &beyond).sanitize(&engine);
    assert_eq!(r.err(), Some(InvalidWorkError::IllegalUci("illegal uci".to_string())));
}

#[test]
fn sanitize_accepts_six_hundred_moves() {
    let engine = engine(4, 64, vec![LichessVariant::Standard]);
    let (job, end) = work(1, 1, LichessVariant::Standard, START, &shuffle(600))
        .sanitize(&engine)
        .unwrap();
    assert_eq!(job.moves.len(), 600);
    assert_eq!(job.moves[599], "f6g8");
    assert_eq!(end.fen, "rnbqkbnr/pppppppp/8/8/8/8/PPPPPPPP/RNBQKBNR w KQkq - 600 301");
}

#[test]
fn sanitize_rejects_six_hundred_and_one_moves() {
    let engine = engine(4, 64, vec![LichessVariant::Standard]);
    let r = work(1, 1, LichessVariant::Standard, START, &shuffle(601)).sanitize(&engine);
    assert_eq!(r.err(), Some(InvalidWorkError::TooManyMoves));
}

#[test]
fn sanitize_checks_variant_then_position_then_length_then_moves() {
    let standard = engine(4, 64, vec![LichessVariant::Standard]);
    let mut long_bad = shuffle(601);
    long_bad[0] = "e2e5";
    let r = work(1, 1, LichessVariant::Horde, "not a position", &long_bad).sanitize(&standard);
    assert_eq!(r.err(), Some(InvalidWorkError::UnsupportedVariant));
    let r = work(1, 1, LichessVariant::Standard, "not a position", &long_bad).sanitize(&standard);
    assert_eq!(
        r.err(),
        Some(InvalidWorkError::Position("invalid board part in fen".to_string()))
    );
    let r = work(1, 1, LichessVariant::Standard, START, &long_bad).sanitize(&standard);
    assert_eq!(r.err(), Some(InvalidWorkError::TooManyMoves));
    let r = work(1, 1, LichessVariant::Standard, START, &long_bad[..600]).sanitize(&standard);
    assert_eq!(r.err(), Some(InvalidWorkError::IllegalUci("illegal uci".to_string())));
}

#[test]
fn normalize_assembles_the_job_from_canonical_notation() {
    let engine = engine(2, 8, vec![LichessVariant::Standard]);
    let job = work(3, 4, LichessVariant::Chess960, "loose", &["x"]).normalize(
        &engine,
        START.to_string(),
        vec!["e2e4".to_string(), "e7e5".to_string()],
    );
    assert_eq!(job.threads, 2);
    assert_eq!(job.hash, 4);
    assert_eq!(job.variant, LichessVariant::Standard);
    assert_eq!(job.initial_fen, START);
    assert_eq!(job.moves, vec!["e2e4", "e7e5"]);
    assert_eq!(job.session_id.as_str(), "session");
    assert!(job.deep);
    assert_eq!(job.multi_pv.get(), 3);
}

#[test]
fn engine_supports_variants_by_their_rule_set() {
    let e = engine(1, 1, vec![LichessVariant::FromPosition, LichessVariant::ThreeCheck]);
    assert!(e.supports(Variant::Chess));
    assert!(e.supports(Variant::ThreeCheck));
    assert!(!e.supports(Variant::Atomic));
    assert!(!engine_none().supports(Variant::Chess));
}
