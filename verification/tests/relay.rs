use engine_broker::api::AnalyseRequest;
use engine_broker::api::ClientSecret;
use engine_broker::api::EngineId;
use engine_broker::api::InvalidWorkError;
use engine_broker::api::LichessVariant;
use engine_broker::api::MultiPv;
use engine_broker::api::ProviderSecret;
use engine_broker::api::SessionId;
use engine_broker::api::UserId;
use engine_broker::api::Work;
use engine_broker::relay::accept;
use engine_broker::relay::authenticate;
use engine_broker::relay::Error;
use engine_broker::repo::ExternalEngine;

const START: &str = "rnbqkbnr/pppppppp/8/8/8/8/PPPPPPPP/RNBQKBNR w KQkq - 0 1";

fn registered() -> ExternalEngine {
    ExternalEngine {
        id: EngineId::new("eng_1".to_string()),
        name: "Stockfish".to_string(),
        client_secret: ClientSecret::new("client".to_string()),
        user_id: UserId::new("user".to_string()),
        max_threads: 4,
        max_hash: 64,
        variants: vec![LichessVariant::Standard],
        provider_secret: ProviderSecret::new("secret".to_string()),
        provider_data: Some("opaque".to_string()),
    }
}

fn request(secret: &str, moves: &[&str]) -> AnalyseRequest {
    AnalyseRequest {
        client_secret: ClientSecret::new(secret.to_string()),
        work: Work {
            session_id: SessionId::new("session".to_string()),
            threads: 8,
            hash: 16,
            deep: false,
            multi_pv: MultiPv::default(),
            variant: LichessVariant::Standard,
            initial_fen: START.to_string(),
            moves: moves.iter().map(|m| m.to_string()).collect(),
        },
    }
}

#[test]
fn authenticate_lets_the_right_secret_through() {
    let engine = authenticate(Some(registered()), &ClientSecret::new("client".to_string())).unwrap();
    assert_eq!(engine.id.as_str(), "eng_1");
    assert_eq!(engine.name, "Stockfish");
    assert_eq!(engine.provider_data, Some("opaque".to_string()));
}

#[test]
fn authenticate_does_not_tell_a_wrong_secret_from_no_engine() {
    let wrong = authenticate(Some(registered()), &ClientSecret::new("Client".to_string()));
    let none = authenticate(None, &ClientSecret::new("client".to_string()));
    assert_eq!(wrong.err(), Some(Error::EngineNotFound));
    assert_eq!(none.err(), Some(Error::EngineNotFound));
}

#[test]
fn accept_hands_out_the_selector_and_the_canonical_job() {
    let admission = accept(Some(registered()), request("client", &["e2e4"])).unwrap();
    assert_eq!(
        admission.selector.as_str(),
        "1efc37f2f013693c45cded77a033313fdbf7386fbf7edfe071c8641797ad55bb"
    );
    assert_eq!(admission.work.threads, 4);
    assert_eq!(admission.work.hash, 16);
    assert_eq!(admission.work.moves, vec!["e2e4"]);
    assert_eq!(admission.end.fen, "rnbqkbnr/pppppppp/8/8/4P3/8/PPPP1PPP/RNBQKBNR b KQkq - 0 1");
}

#[test]
fn accept_refuses_before_it_looks_at_the_job() {
    let r = accept(Some(registered()), request("wrong", &["e2e5"]));
    assert_eq!(r.err(), Some(Error::EngineNotFound));
    let r = accept(None, request("client", &["e2e4"]));
    assert_eq!(r.err(), Some(Error::EngineNotFound));
}

#[test]
fn accept_reports_why_a_job_was_turned_away() {
    let r = accept(Some(registered()), request("client", &["e2e5"]));
    assert_eq!(r.err(), Some(Error::InvalidWork(InvalidWorkError::IllegalUci("illegal uci".to_string()))));
}

#[test]
fn failures_map_to_their_status() {
    assert_eq!(Error::Storage("connection refused".to_string()).status(), 500);
    assert_eq!(Error::Storage(String::new()).status(), 500);
    assert_eq!(Error::EngineNotFound.status(), 404);
    assert_eq!(Error::InvalidWork(InvalidWorkError::TooManyMoves).status(), 400);
    assert_eq!(Error::InvalidWork(InvalidWorkError::Position(String::new())).status(), 400);
}

#[test]
fn failures_are_put_in_words() {
    assert_eq!(
        Error::Storage("Kind: Server selection timeout".to_string()).message(),
        "mongodb error: Kind: Server selection timeout"
    );
    assert_eq!(Error::Storage(String::new()).message(), "mongodb error: ");
    assert_eq!(Error::EngineNotFound.message(), "engine not found or invalid clientSecret");
    assert_eq!(
        Error::InvalidWork(InvalidWorkError::Position(
            "illegal position: missing king".to_string()
        ))
        .message(),
        "illegal initial position: illegal position: missing king"
    );
    assert_eq!(
        Error::InvalidWork(InvalidWorkError::IllegalUci("illegal uci".to_string())).message(),
        "illegal uci: illegal uci"
    );
    assert_eq!(InvalidWorkError::TooManyMoves.message(), "too many moves");
    assert_eq!(InvalidWorkError::UnsupportedVariant.message(), "unsupported variant");
}
