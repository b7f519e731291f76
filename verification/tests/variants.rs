use engine_broker::api::ClientSecret;
use engine_broker::api::EngineId;
use engine_broker::api::InvalidWorkError;
use engine_broker::api::LichessVariant;
use engine_broker::api::MultiPv;
use engine_broker::api::ProviderSecret;
use engine_broker::api::SessionId;
use engine_broker::api::UserId;
use engine_broker::api::Work;
use engine_broker::repo::ExternalEngine;
use engine_broker::rules::play;
use engine_broker::rules::set_up;
use engine_broker::rules::CastlingMode;
use engine_broker::rules::EnPassantMode;
use engine_broker::rules::Variant;

const START: &str = "rnbqkbnr/pppppppp/8/8/8/8/PPPPPPPP/RNBQKBNR w KQkq - 0 1";

fn replay(
    variant: LichessVariant,
    fen: &str,
    moves: &[&str],
) -> Result<(String, Vec<String>, String), InvalidWorkError> {
    let engine = ExternalEngine {
        id: EngineId::new("eng_1".to_string()),
        name: "Fairy".to_string(),
        client_secret: ClientSecret::new("client".to_string()),
        user_id: UserId::new("user".to_string()),
        max_threads: 1,
        max_hash: 1,
        variants: vec![variant],
        provider_secret: ProviderSecret::new("provider".to_string()),
        provider_data: None,
    };
    let work = Work {
        session_id: SessionId::new("session".to_string()),
        threads: 1,
        hash: 1,
        deep: false,
        multi_pv: MultiPv::default(),
        variant,
        initial_fen: fen.to_string(),
        moves: moves.iter().map(|m| m.to_string()).collect(),
    };
    work.sanitize(&engine).map(|(job, end)| (job.initial_fen, job.moves, end.fen))
}

#[test]
fn three_check_counts_the_checks_given() {
    let moves = ["e2e4", "e7e5", "f1c4", "b8c6", "c4f7", "e8f7", "d1h5"];
    let (fen, line, end) = replay(LichessVariant::ThreeCheck, START, &moves).unwrap();
    assert_eq!(fen, "rnbqkbnr/pppppppp/8/8/8/8/PPPPPPPP/RNBQKBNR w KQkq - 3+3 0 1");
    assert_eq!(line, moves);
    assert_eq!(end, "r1bq1bnr/pppp1kpp/2n5/4p2Q/4P3/8/PPPP1PPP/RNB1K1NR b KQ - 1+3 1 4");
}

#[test]
fn atomic_captures_explode_and_end_the_game() {
    let moves = ["g1f3", "e7e6", "f3e5", "d7d6", "e5f7"];
    let (_, line, end) = replay(LichessVariant::Atomic, START, &moves).unwrap();
    assert_eq!(line, moves);
    assert_eq!(end, "rnbq3r/ppp3pp/3pp3/8/8/8/PPPPPPPP/RNBQKB1R b KQ - 0 3");
    let beyond = ["g1f3", "e7e6", "f3e5", "d7d6", "e5f7", "a7a6"];
    assert_eq!(
        replay(LichessVariant::Atomic, START, &beyond).err(),
        Some(InvalidWorkError::IllegalUci("illegal uci".to_string()))
    );
}

#[test]
fn antichess_makes_captures_compulsory() {
    let fen = "rnbqkbnr/pppppppp/8/8/8/8/PPPPPPPP/RNBQKBNR w - - 0 1";
    let moves = ["e2e3", "b7b5", "f1b5", "c8a6", "b5a6", "b8a6"];
    let (_, line, end) = replay(LichessVariant::Antichess, fen, &moves).unwrap();
    assert_eq!(line, moves);
    assert_eq!(end, "r2qkbnr/p1pppppp/n7/8/8/4P3/PPPP1PPP/RNBQK1NR w - - 0 4");
    let declined = ["e2e3", "b7b5", "a2a3"];
    assert_eq!(
        replay(LichessVariant::Antichess, fen, &declined).err(),
        Some(InvalidWorkError::IllegalUci("illegal uci".to_string()))
    );
}

#[test]
fn king_of_the_hill_ends_on_the_hill() {
    let moves = ["e2e4", "e7e5", "e1e2", "d7d6", "e2e3", "d6d5", "e3d3", "d5e4", "d3e4"];
    let (_, line, end) = replay(LichessVariant::KingOfTheHill, START, &moves).unwrap();
    assert_eq!(line, moves);
    assert_eq!(end, "rnbqkbnr/ppp2ppp/8/4p3/4K3/8/PPPP1PPP/RNBQ1BNR b kq - 0 5");
    let beyond = ["e2e4", "e7e5", "e1e2", "d7d6", "e2e3", "d6d5", "e3d3", "d5e4", "d3e4", "a7a6"];
    assert_eq!(
        replay(LichessVariant::KingOfTheHill, START, &beyond).err(),
        Some(InvalidWorkError::IllegalUci("illegal uci".to_string()))
    );
}

#[test]
fn racing_kings_and_horde_replay_from_their_own_setups() {
    let (_, line, end) = replay(
        LichessVariant::RacingKings,
        "8/8/8/8/8/8/krbnNBRK/qrbnNBRQ w - - 0 1",
        &["h2h3", "a2a3", "h3h4"],
    )
        .unwrap();
    assert_eq!(line, ["h2h3", "a2a3", "h3h4"]);
    assert_eq!(end, "8/8/8/8/7K/k7/1rbnNBR1/qrbnNBRQ b - - 3 2");
    let (_, line, end) = replay(
        LichessVariant::Horde,
        "rnbqkbnr/pppppppp/8/1PP2PP1/PPPPPPPP/PPPPPPPP/PPPPPPPP/PPPPPPPP w kq - 0 1",
        &["e4e5", "d7d6", "e5d6"],
    )
        .unwrap();
    assert_eq!(line, ["e4e5", "d7d6", "e5d6"]);
    assert_eq!(end, "rnbqkbnr/ppp1pppp/3P4/1PP2PP1/PPPP1PPP/PPPPPPPP/PPPPPPPP/PPPPPPPP b kq - 0 2");
}

#[test]
fn the_orthodox_setup_is_no_setup_for_racing_kings() {
    assert_eq!(
        replay(LichessVariant::RacingKings, START, &[]).err(),
        Some(InvalidWorkError::Position(
            "illegal position: invalid castling rights, variant rule violated".to_string()
        ))
    );
}

#[test]
fn castling_is_written_the_same_however_it_was_given() {
    let fen = "r3k2r/8/8/8/8/8/8/R3K2R w KQkq - 0 1";
    let (canonical, line, end) = replay(LichessVariant::Standard, fen, &["e1c1", "e8g8"]).unwrap();
    assert_eq!(canonical, fen);
    assert_eq!(line, ["e1a1", "e8h8"]);
    assert_eq!(end, "r4rk1/8/8/8/8/8/8/2KR3R w - - 2 2");
    let shredder = "r3k2r/8/8/8/8/8/8/R3K2R w HAha - 0 1";
    let (canonical, line, end) =
        replay(LichessVariant::Standard, shredder, &["e1a1", "e8h8"]).unwrap();
    assert_eq!(canonical, fen);
    assert_eq!(line, ["e1a1", "e8h8"]);
    assert_eq!(end, "r4rk1/8/8/8/8/8/8/2KR3R w - - 2 2");
}

#[test]
fn castling_from_a_shuffled_back_rank() {
    let fen = "bnrqkrnb/pppppppp/8/8/8/8/PPPPPPPP/BNRQKRNB w KQkq - 0 1";
    let moves = ["g1f3", "g8f6", "g2g3", "g7g6", "h1g2", "h8g7", "e1f1"];
    let (canonical, line, end) = replay(LichessVariant::Chess960, fen, &moves).unwrap();
    assert_eq!(canonical, fen);
    assert_eq!(line, moves);
    assert_eq!(end, "bnrqkr2/ppppppbp/5np1/8/8/5NP1/PPPPPPBP/BNRQ1RK1 b kq - 3 4");
}

#[test]
fn en_passant_is_replayed_across_positions() {
    let moves = ["e2e4", "d7d5", "e4e5", "f7f5", "e5f6"];
    let (_, line, end) = replay(LichessVariant::Standard, START, &moves).unwrap();
    assert_eq!(line, moves);
    assert_eq!(end, "rnbqkbnr/ppp1p1pp/5P2/3p4/8/8/PPPP1PPP/RNBQKBNR b KQkq - 0 3");
    let (_, line, end) =
        replay(LichessVariant::Standard, "4k3/8/8/8/3p4/8/4P3/4K3 w - - 0 1", &["e2e4", "d4e3"])
            .unwrap();
    assert_eq!(line, ["e2e4", "d4e3"]);
    assert_eq!(end, "4k3/8/8/8/8/4p3/8/4K3 w - - 0 2");
    let late = ["e2e4", "d7d5", "e4e5", "f7f5", "a2a3", "a7a6", "e5f6"];
    assert_eq!(
        replay(LichessVariant::Standard, START, &late).err(),
        Some(InvalidWorkError::IllegalUci("illegal uci".to_string()))
    );
}

#[test]
fn promotions_must_name_their_piece() {
    let fen = "7k/P7/8/8/8/8/8/K7 w - - 0 1";
    let (_, line, end) = replay(LichessVariant::Standard, fen, &["a7a8q"]).unwrap();
    assert_eq!(line, ["a7a8q"]);
    assert_eq!(end, "Q6k/8/8/8/8/8/8/K7 b - - 0 1");
    assert_eq!(
        replay(LichessVariant::Standard, fen, &["a7a8"]).err(),
        Some(InvalidWorkError::IllegalUci("illegal uci".to_string()))
    );
}

#[test]
fn crazyhouse_pockets_are_written_in_brackets() {
    let (canonical, _, end) = replay(
        LichessVariant::Crazyhouse,
        "r1bqkbnr/pppp1ppp/2n5/4p3/4P3/5N2/PPPP1PPP/RNBQKB1R/ w KQkq - 2 3",
        &[],
    )
        .unwrap();
    assert_eq!(canonical, "r1bqkbnr/pppp1ppp/2n5/4p3/4P3/5N2/PPPP1PPP/RNBQKB1R[] w KQkq - 2 3");
    assert_eq!(end, canonical);
}

#[test]
fn the_castling_mode_decides_how_castling_is_written() {
    let fen = "r3k2r/8/8/8/8/8/8/R3K2R w KQkq - 0 1";
    let standard = play(Variant::Chess, CastlingMode::Standard, EnPassantMode::Legal, fen, "e1h1");
    assert_eq!(
        standard,
        Ok(("e1g1".to_string(), "r3k2r/8/8/8/8/8/8/R4RK1 b kq - 1 1".to_string()))
    );
    let chess960 = play(Variant::Chess, CastlingMode::Chess960, EnPassantMode::Legal, fen, "e1g1");
    assert_eq!(
        chess960,
        Ok(("e1h1".to_string(), "r3k2r/8/8/8/8/8/8/R4RK1 b kq - 1 1".to_string()))
    );
}

#[test]
fn the_en_passant_mode_decides_when_the_square_is_written() {
    let legal = play(Variant::Chess, CastlingMode::Chess960, EnPassantMode::Legal, START, "e2e4");
    assert_eq!(
        legal,
        Ok((
            "e2e4".to_string(),
            "rnbqkbnr/pppppppp/8/8/4P3/8/PPPP1PPP/RNBQKBNR b KQkq - 0 1".to_string()
        ))
    );
    let always = play(Variant::Chess, CastlingMode::Chess960, EnPassantMode::Always, START, "e2e4");
    assert_eq!(
        always,
        Ok((
            "e2e4".to_string(),
            "rnbqkbnr/pppppppp/8/8/4P3/8/PPPP1PPP/RNBQKBNR b KQkq e3 0 1".to_string()
        ))
    );
    let after = "rnbqkbnr/ppp1pppp/8/8/3pP3/8/PPPP1PPP/RNBQKBNR b KQkq e3 0 3";
    assert_eq!(
        set_up(Variant::Chess, CastlingMode::Chess960, EnPassantMode::PseudoLegal, after),
        Ok(after.to_string())
    );
    assert_eq!(
        set_up(Variant::Chess, CastlingMode::Chess960, EnPassantMode::Legal, after),
        Ok(after.to_string())
    );
}

#[test]
fn set_up_and_play_say_why_they_refuse() {
    assert_eq!(
        set_up(Variant::Chess, CastlingMode::Chess960, EnPassantMode::Legal, "8/8 w"),
        Err("invalid board part in fen".to_string())
    );
    assert_eq!(
        set_up(Variant::Horde, CastlingMode::Standard, EnPassantMode::Legal, START),
        Err("illegal position: too many kings".to_string())
    );
    assert_eq!(
        play(Variant::Chess, CastlingMode::Chess960, EnPassantMode::Legal, START, "e2e5"),
        Err("illegal uci".to_string())
    );
    assert_eq!(
        play(Variant::Chess, CastlingMode::Chess960, EnPassantMode::Legal, START, "e2"),
        Err("invalid uci".to_string())
    );
    assert_eq!(
        play(Variant::Chess, CastlingMode::Chess960, EnPassantMode::Legal, "8/8 w", "e2e4"),
        Err("invalid board part in fen".to_string())
    );
}

#[test]
fn rule_sets_go_by_their_uci_names() {
    assert_eq!(Variant::Chess.uci(), "chess");
    assert_eq!(Variant::Atomic.uci(), "atomic");
    assert_eq!(Variant::Antichess.uci(), "antichess");
    assert_eq!(Variant::KingOfTheHill.uci(), "kingofthehill");
    assert_eq!(Variant::ThreeCheck.uci(), "3check");
    assert_eq!(Variant::Crazyhouse.uci(), "crazyhouse");
    assert_eq!(Variant::RacingKings.uci(), "racingkings");
    assert_eq!(Variant::Horde.uci(), "horde");
}
