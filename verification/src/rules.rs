//! The chess rules that job validation relies on.
//!
//! Positions and moves cross this boundary as text: a position in Forsyth-
//! Edwards notation, a move in the notation of the UCI protocol, a rule set
//! by the name the UCI protocol gives it. The rules themselves are those of
//! the `shakmaty` crate, reached through the three trusted functions at the
//! end of this file; everything else is verified against their contracts.

use shakmaty::fen::Fen;
use shakmaty::uci::Uci;
use shakmaty::variant::Variant as RulesVariant;
use shakmaty::variant::VariantPosition;
use shakmaty::CastlingMode as RulesCastlingMode;
use shakmaty::EnPassantMode as RulesEnPassantMode;
use shakmaty::Position;
use std::str::FromStr;
use vstd::prelude::*;

verus! {

/// The rule sets that the rules library implements.
#[derive(Debug, Copy, Clone, PartialEq, Eq, Structural)]
pub enum Variant {
    Chess,
    Atomic,
    Antichess,
    KingOfTheHill,
    ThreeCheck,
    Crazyhouse,
    RacingKings,
    Horde,
}

impl Variant {
    /// The name of the rule set in the UCI protocol.
    pub open spec fn uci_name(self) -> Seq<char> {
        match self {
            Variant::Chess => "chess"@,
            Variant::Atomic => "atomic"@,
            Variant::Antichess => "antichess"@,
            Variant::KingOfTheHill => "kingofthehill"@,
            Variant::ThreeCheck => "3check"@,
            Variant::Crazyhouse => "crazyhouse"@,
            Variant::RacingKings => "racingkings"@,
            Variant::Horde => "horde"@,
        }
    }

    /// The name of the rule set in the UCI protocol.
    pub fn uci(self) -> (name: &'static str)
        ensures
            name@ == self.uci_name(),
    {
        match self {
            Variant::Chess => "chess",
            Variant::Atomic => "atomic",
            Variant::Antichess => "antichess",
            Variant::KingOfTheHill => "kingofthehill",
            Variant::ThreeCheck => "3check",
            Variant::Crazyhouse => "crazyhouse",
            Variant::RacingKings => "racingkings",
            Variant::Horde => "horde",
        }
    }
}

/// How castling rights are read and castling moves are written.
#[derive(Debug, Copy, Clone, PartialEq, Eq, Structural)]
pub enum CastlingMode {
    /// Rooks castle from the corners only; the king's move is written to
    /// the square it lands on.
    Standard,
    /// Rooks castle from wherever they stand; the move is written as the
    /// king taking its own rook.
    Chess960,
}

/// When a position is written with an en-passant square.
#[derive(Debug, Copy, Clone, PartialEq, Eq, Structural)]
pub enum EnPassantMode {
    /// Only where a legal en-passant capture exists.
    Legal,
    /// Where an enemy pawn stands to capture, legally or not.
    PseudoLegal,
    /// After every double step of a pawn.
    Always,
}

/// The notation of the position that the rules library sets up from the
/// notation `fen` under the rule set named `variant`, reading castling
/// rights by `castling` and writing the en-passant square by `en_passant`;
/// or, where it rejects the name, the notation or the setup, its own words
/// for why.
pub uninterp spec fn canonical_fen(
    variant: Seq<char>,
    castling: CastlingMode,
    en_passant: EnPassantMode,
    fen: Seq<char>,
) -> Result<Seq<char>, Seq<char>>;

/// The move `uci` as the rules library writes it by `castling`, where the
/// move is legal in the position `fen` under the rule set named `variant`;
/// or, where it rejects the position or the move, its own words for why.
pub uninterp spec fn resolved(
    variant: Seq<char>,
    castling: CastlingMode,
    fen: Seq<char>,
    uci: Seq<char>,
) -> Result<Seq<char>, Seq<char>>;

/// The notation of the position that the rules library reaches by playing
/// `uci` in the position `fen`; `None` where it rejects the position or the
/// move.
pub uninterp spec fn advanced(
    variant: Seq<char>,
    castling: CastlingMode,
    en_passant: EnPassantMode,
    fen: Seq<char>,
    uci: Seq<char>,
) -> Option<Seq<char>>;

/// What playing `uci` in the position `fen` gives: the canonical notation
/// of the move and that of the position it leads to, or the words of the
/// rules library for why the move is not played.
pub open spec fn played(
    variant: Variant,
    castling: CastlingMode,
    en_passant: EnPassantMode,
    fen: Seq<char>,
    uci: Seq<char>,
) -> Result<(Seq<char>, Seq<char>), Seq<char>> {
    match resolved(variant.uci_name(), castling, fen, uci) {
        Err(why) => Err(why),
        Ok(m) => match advanced(variant.uci_name(), castling, en_passant, fen, uci) {
            None => Err(Seq::empty()),
            Some(next) => Ok((m, next)),
        },
    }
}

/// The outcome of replaying a line of moves.
pub struct Replay {
    /// The moves in canonical notation, in the order played.
    pub moves: Seq<Seq<char>>,
    /// The position reached after the last move.
    pub end: Seq<char>,
}

/// Replays `moves` in order from the position `fen`. The first move that
/// is not accepted in the position reached before it ends the replay, with
/// the words of the rules library for why.
pub open spec fn replay(
    variant: Variant,
    castling: CastlingMode,
    en_passant: EnPassantMode,
    fen: Seq<char>,
    moves: Seq<Seq<char>>,
) -> Result<Replay, Seq<char>>
    decreases moves.len(),
{
    if moves.len() == 0 {
        Ok(Replay { moves: Seq::empty(), end: fen })
    } else {
        match replay(variant, castling, en_passant, fen, moves.drop_last()) {
            Err(why) => Err(why),
            Ok(before) => match played(variant, castling, en_passant, before.end, moves.last()) {
                Err(why) => Err(why),
                Ok((uci, next)) => Ok(Replay { moves: before.moves.push(uci), end: next }),
            },
        }
    }
}

/// A replay keeps one canonical move for each move given.
pub proof fn lemma_replay_len(
    variant: Variant,
    castling: CastlingMode,
    en_passant: EnPassantMode,
    fen: Seq<char>,
    moves: Seq<Seq<char>>,
)
    ensures
        replay(variant, castling, en_passant, fen, moves) matches Ok(r) ==> r.moves.len()
            == moves.len(),
    decreases moves.len(),
{
    if moves.len() > 0 {
        lemma_replay_len(variant, castling, en_passant, fen, moves.drop_last());
    }
}

/// Once a prefix of a line is rejected, so is the whole line, and for the
/// same reason.
pub proof fn lemma_replay_prefix(
    variant: Variant,
    castling: CastlingMode,
    en_passant: EnPassantMode,
    fen: Seq<char>,
    moves: Seq<Seq<char>>,
    n: int,
)
    requires
        0 <= n <= moves.len(),
        replay(variant, castling, en_passant, fen, moves.take(n)) is Err,
    ensures
        replay(variant, castling, en_passant, fen, moves) == replay(
            variant,
            castling,
            en_passant,
            fen,
            moves.take(n),
        ),
    decreases moves.len() - n,
{
    if n < moves.len() {
        assert(moves.take(n + 1).drop_last() == moves.take(n));
        lemma_replay_prefix(variant, castling, en_passant, fen, moves, n + 1);
    } else {
        assert(moves.take(n) == moves);
    }
}

/// Sets up the position written as `fen` and writes it back in canonical
/// notation.
pub fn set_up(variant: Variant, castling: CastlingMode, en_passant: EnPassantMode, fen: &str) -> (r:
    Result<String, String>)
    ensures
        match r {
            Ok(text) => canonical_fen(variant.uci_name(), castling, en_passant, fen@) == Ok::<
                Seq<char>,
                Seq<char>,
            >(text@),
            Err(why) => canonical_fen(variant.uci_name(), castling, en_passant, fen@) == Err::<
                Seq<char>,
                Seq<char>,
            >(why@),
        },
{
    rules_set_up(variant.uci(), castling, en_passant, fen)
}

/// Plays `uci` in the position written as `fen`: the move and the position
/// it leads to, both in canonical notation.
pub fn play(
    variant: Variant,
    castling: CastlingMode,
    en_passant: EnPassantMode,
    fen: &str,
    uci: &str,
) -> (r: Result<(String, String), String>)
    ensures
        match r {
            Ok((m, next)) => played(variant, castling, en_passant, fen@, uci@) == Ok::<
                (Seq<char>, Seq<char>),
                Seq<char>,
            >((m@, next@)),
            Err(why) => played(variant, castling, en_passant, fen@, uci@) == Err::<
                (Seq<char>, Seq<char>),
                Seq<char>,
            >(why@),
        },
{
    let m = match rules_resolve(variant.uci(), castling, fen, uci) {
        Ok(m) => m,
        Err(why) => {
            return Err(why);
        },
    };
    match rules_advance(variant.uci(), castling, en_passant, fen, uci) {
        Some(next) => Ok((m, next)),
        None => Err(String::new()),
    }
}

/// `Variant::from_uci`, `Fen::from_str` and `VariantPosition::from_setup`
/// of `shakmaty`, then `Position::into_setup` and `Fen`'s `Display`.
/// Trusted: the text returned, be it the notation or the words of the
/// error met, depends on the four arguments alone.
#[verifier::external_body]
fn rules_set_up(variant: &str, castling: CastlingMode, en_passant: EnPassantMode, fen: &str) -> (r:
    Result<String, String>)
    ensures
        match r {
            Ok(text) => canonical_fen(variant@, castling, en_passant, fen@) == Ok::<
                Seq<char>,
                Seq<char>,
            >(text@),
            Err(why) => canonical_fen(variant@, castling, en_passant, fen@) == Err::<
                Seq<char>,
                Seq<char>,
            >(why@),
        },
{
    let rules = RulesVariant::from_uci(variant).ok_or_else(String::new)?;
    let castling = RulesCastlingMode::from_chess960(matches!(castling, CastlingMode::Chess960));
    let en_passant = match en_passant {
        EnPassantMode::Legal => RulesEnPassantMode::Legal,
        EnPassantMode::PseudoLegal => RulesEnPassantMode::PseudoLegal,
        EnPassantMode::Always => RulesEnPassantMode::Always,
    };
    let setup = Fen::from_str(fen).map_err(|e| e.to_string())?.into_setup();
    let pos = VariantPosition::from_setup(rules, setup, castling).map_err(|e| e.to_string())?;
    Ok(Fen(pos.into_setup(en_passant)).to_string())
}

/// `Variant::from_uci`, `Fen::from_str`, `VariantPosition::from_setup`,
/// `Uci::from_str` and `Uci::to_move` of `shakmaty`, then `Move::to_uci`
/// and `Uci`'s `Display`. Trusted: the text returned, be it the move or
/// the words of the error met, depends on the four arguments alone.
#[verifier::external_body]
fn rules_resolve(variant: &str, castling: CastlingMode, fen: &str, uci: &str) -> (r: Result<
    String,
    String,
>)
    ensures
        match r {
            Ok(m) => resolved(variant@, castling, fen@, uci@) == Ok::<Seq<char>, Seq<char>>(m@),
            Err(why) => resolved(variant@, castling, fen@, uci@) == Err::<Seq<char>, Seq<char>>(
                why@,
            ),
        },
{
    let rules = RulesVariant::from_uci(variant).ok_or_else(String::new)?;
    let castling = RulesCastlingMode::from_chess960(matches!(castling, CastlingMode::Chess960));
    let setup = Fen::from_str(fen).map_err(|e| e.to_string())?.into_setup();
    let pos = VariantPosition::from_setup(rules, setup, castling).map_err(|e| e.to_string())?;
    let uci = Uci::from_str(uci).map_err(|e| e.to_string())?;
    Ok(uci.to_move(&pos).map_err(|e| e.to_string())?.to_uci(castling).to_string())
}

/// `Variant::from_uci`, `Fen::from_str`, `VariantPosition::from_setup`,
/// `Uci::from_str`, `Uci::to_move` and `Position::play_unchecked` of
/// `shakmaty`, then `Position::into_setup` and `Fen`'s `Display`. The move
/// is played only where `Uci::to_move` found it legal. Trusted: the text
/// returned depends on the five arguments alone.
#[verifier::external_body]
fn rules_advance(
    variant: &str,
    castling: CastlingMode,
    en_passant: EnPassantMode,
    fen: &str,
    uci: &str,
) -> (r: Option<String>)
    ensures
        match r {
            Some(next) => advanced(variant@, castling, en_passant, fen@, uci@) == Some(next@),
            None => advanced(variant@, castling, en_passant, fen@, uci@) is None,
        },
{
    let rules = RulesVariant::from_uci(variant)?;
    let castling = RulesCastlingMode::from_chess960(matches!(castling, CastlingMode::Chess960));
    let en_passant = match en_passant {
        EnPassantMode::Legal => RulesEnPassantMode::Legal,
        EnPassantMode::PseudoLegal => RulesEnPassantMode::PseudoLegal,
        EnPassantMode::Always => RulesEnPassantMode::Always,
    };
    let setup = Fen::from_str(fen).ok()?.into_setup();
    let mut pos = VariantPosition::from_setup(rules, setup, castling).ok()?;
    let m = Uci::from_str(uci).ok()?.to_move(&pos).ok()?;
    pos.play_unchecked(&m);
    Some(Fen(pos.into_setup(en_passant)).to_string())
}

} // verus!
