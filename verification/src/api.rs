//! The job model: identifiers, secrets, variants and the bounded job payload.

use crate::repo::EngineView;
use crate::repo::ExternalEngine;
use crate::rules::canonical_fen;
use crate::rules::lemma_replay_len;
use crate::rules::lemma_replay_prefix;
use crate::rules::play;
use crate::rules::replay;
use crate::rules::set_up;
use crate::rules::Replay;
use crate::rules::CastlingMode;
use crate::rules::EnPassantMode;
use crate::rules::Variant;
use crate::digest::append_bytes;
use crate::hub::Key;
use rand::distributions::Alphanumeric;
use rand::distributions::DistString;
use rand::thread_rng;
use crate::digest::digest;
use crate::digest::encode;
use crate::digest::hex;
use crate::digest::sha256;
use vstd::prelude::*;
use vstd::string::StringExecFns;
use vstd::std_specs::cmp::PartialEqSpecImpl;
use vstd::std_specs::convert::FromSpecImpl;
use vstd::utf8::encode_utf8;
use vstd::utf8::encode_utf8_decode_utf8;
use vstd::std_specs::convert::TryFromSpecImpl;

verus! {

/// Identity of the user who registered an engine.
#[derive(Debug)]
pub struct UserId(String);

impl View for UserId {
    type V = Seq<char>;

    closed spec fn view(&self) -> Seq<char> {
        self.0@
    }
}

impl UserId {
    /// Wraps the text `value`.
    pub fn new(value: String) -> (r: UserId)
        ensures
            r@ == value@,
    {
        UserId(value)
    }

    /// The text held.
    pub fn as_str(&self) -> (r: &str)
        ensures
            r@ == self@,
    {
        self.0.as_str()
    }
}

impl Clone for UserId {
    fn clone(&self) -> (r: UserId)
        ensures
            r@ == self@,
    {
        UserId(self.0.clone())
    }
}

/// Identity of the analysis session a job belongs to.
#[derive(Debug)]
pub struct SessionId(String);

impl View for SessionId {
    type V = Seq<char>;

    closed spec fn view(&self) -> Seq<char> {
        self.0@
    }
}

impl SessionId {
    /// Wraps the text `value`.
    pub fn new(value: String) -> (r: SessionId)
        ensures
            r@ == value@,
    {
        SessionId(value)
    }

    /// The text held.
    pub fn as_str(&self) -> (r: &str)
        ensures
            r@ == self@,
    {
        self.0.as_str()
    }
}

impl Clone for SessionId {
    fn clone(&self) -> (r: SessionId)
        ensures
            r@ == self@,
    {
        SessionId(self.0.clone())
    }
}

/// Identity under which an engine is registered.
#[derive(Debug)]
pub struct EngineId(pub String);

impl View for EngineId {
    type V = Seq<char>;

    open spec fn view(&self) -> Seq<char> {
        self.0@
    }
}

impl EngineId {
    /// Wraps the text `value`.
    pub fn new(value: String) -> (r: EngineId)
        ensures
            r@ == value@,
    {
        EngineId(value)
    }

    /// The text held.
    pub fn as_str(&self) -> (r: &str)
        ensures
            r@ == self@,
    {
        self.0.as_str()
    }
}

impl Clone for EngineId {
    fn clone(&self) -> (r: EngineId)
        ensures
            r@ == self@,
    {
        EngineId(self.0.clone())
    }
}

/// Smallest number of principal variations a job may ask for.
pub const MIN_MULTI_PV: u32 = 1;

/// Largest number of principal variations a job may ask for.
pub const MAX_MULTI_PV: u32 = 5;

/// Number of principal variations requested from the engine, always within
/// `MIN_MULTI_PV..=MAX_MULTI_PV`.
#[derive(Debug, Copy, Clone, PartialEq, Eq, Structural, PartialOrd, Ord)]
pub struct MultiPv(u32);

/// Raised when a principal-variation count lies outside the supported range.
#[derive(Debug, Copy, Clone, PartialEq, Eq, Structural)]
pub struct InvalidMultiPvError;

impl InvalidMultiPvError {
    /// The failure in words.
    pub fn message(&self) -> (r: &'static str)
        ensures
            r@ == "supported range is 1 to 5"@,
    {
        "supported range is 1 to 5"
    }
}

impl View for MultiPv {
    type V = nat;

    closed spec fn view(&self) -> nat {
        self.0 as nat
    }
}

impl MultiPv {
    /// Whether `n` is a supported principal-variation count.
    pub open spec fn in_range(n: int) -> bool {
        MIN_MULTI_PV <= n <= MAX_MULTI_PV
    }

    #[verifier::type_invariant]
    closed spec fn inv(self) -> bool {
        Self::in_range(self.0 as int)
    }

    /// The value that stands for the count `n`.
    pub closed spec fn of(n: u32) -> MultiPv {
        MultiPv(n)
    }

    /// A value is determined by its count.
    pub proof fn lemma_of_view(n: u32)
        ensures
            Self::of(n)@ == n,
    {
    }

    /// The count as a plain integer.
    pub fn get(self) -> (n: u32)
        ensures
            n == self@,
            Self::in_range(n as int),
    {
        proof {
            use_type_invariant(&self);
        }
        self.0
    }
}

impl Default for MultiPv {
    fn default() -> (r: MultiPv)
        ensures
            r@ == 1,
    {
        MultiPv(1)
    }
}

impl TryFrom<u32> for MultiPv {
    type Error = InvalidMultiPvError;

    fn try_from(n: u32) -> (r: Result<MultiPv, InvalidMultiPvError>)
        ensures
            MultiPv::in_range(n as int) <==> r is Ok,
            r matches Ok(pv) ==> pv@ == n,
    {
        if MIN_MULTI_PV <= n && n <= MAX_MULTI_PV {
            Ok(MultiPv(n))
        } else {
            Err(InvalidMultiPvError)
        }
    }
}

impl TryFromSpecImpl<u32> for MultiPv {
    open spec fn obeys_try_from_spec() -> bool {
        true
    }

    open spec fn try_from_spec(n: u32) -> Result<MultiPv, InvalidMultiPvError> {
        if MultiPv::in_range(n as int) {
            Ok(MultiPv::of(n))
        } else {
            Err(InvalidMultiPvError)
        }
    }
}

impl From<MultiPv> for u32 {
    fn from(pv: MultiPv) -> (n: u32) {
        pv.get()
    }
}

impl From<MultiPv> for usize {
    fn from(pv: MultiPv) -> (n: usize) {
        pv.get() as usize
    }
}

impl FromSpecImpl<MultiPv> for usize {
    open spec fn obeys_from_spec() -> bool {
        true
    }

    open spec fn from_spec(pv: MultiPv) -> usize {
        pv@ as usize
    }
}

impl FromSpecImpl<MultiPv> for u32 {
    open spec fn obeys_from_spec() -> bool {
        true
    }

    open spec fn from_spec(pv: MultiPv) -> u32 {
        pv@ as u32
    }
}

/// Text that is hashed ahead of a provider secret to make its selector.
pub open spec fn selector_domain() -> Seq<char> {
    "providerSecret:"@
}

/// The selector that belongs to a provider secret: the hexadecimal SHA-256
/// digest of the domain text followed by the secret, both in UTF-8.
pub open spec fn selector_of(secret: Seq<char>) -> Seq<char> {
    hex(sha256(encode_utf8(selector_domain()) + encode_utf8(secret)))
}

/// Number of characters in a selector.
pub const SELECTOR_LEN: usize = 64;

/// The secret an engine provider presents when it asks for work.
#[derive(Debug, Clone)]
pub struct ProviderSecret(String);

impl View for ProviderSecret {
    type V = Seq<char>;

    closed spec fn view(&self) -> Seq<char> {
        self.0@
    }
}

impl ProviderSecret {
    /// Wraps the text `value`.
    pub fn new(value: String) -> (r: ProviderSecret)
        ensures
            r@ == value@,
    {
        ProviderSecret(value)
    }

    /// The key under which work for this provider is deposited and
    /// withdrawn. It is derived from the secret alone and never holds it.
    pub fn selector(&self) -> (r: ProviderSelector)
        ensures
            r@ == selector_of(self@),
            r@.len() == SELECTOR_LEN,
    {
        let mut hashed: Vec<u8> = Vec::new();
        append_bytes(&mut hashed, "providerSecret:".as_bytes());
        append_bytes(&mut hashed, self.0.as_str().as_bytes());
        let sum = digest(hashed.as_slice());
        ProviderSelector(encode(sum.as_slice()))
    }
}

/// The key of a provider in the hub: a digest of its secret, as text.
#[derive(Debug, Eq, Hash)]
pub struct ProviderSelector(String);

impl View for ProviderSelector {
    type V = Seq<char>;

    closed spec fn view(&self) -> Seq<char> {
        self.0@
    }
}

impl ProviderSelector {
    /// Wraps the text `value`.
    pub fn new(value: String) -> (r: ProviderSelector)
        ensures
            r@ == value@,
    {
        ProviderSelector(value)
    }

    /// The text held.
    pub fn as_str(&self) -> (r: &str)
        ensures
            r@ == self@,
    {
        self.0.as_str()
    }
}

impl Clone for ProviderSelector {
    fn clone(&self) -> (r: ProviderSelector)
        ensures
            r@ == self@,
    {
        ProviderSelector(self.0.clone())
    }
}

impl PartialEq for ProviderSelector {
    fn eq(&self, other: &ProviderSelector) -> (r: bool) {
        self.0 == other.0
    }
}

impl PartialEqSpecImpl for ProviderSelector {
    open spec fn obeys_eq_spec() -> bool {
        true
    }

    open spec fn eq_spec(&self, other: &ProviderSelector) -> bool {
        self@ == other@
    }
}

impl Key for ProviderSelector {
    fn same(&self, other: &ProviderSelector) -> (b: bool) {
        self.0 == other.0
    }
}

/// The secret a requester presents to address an engine.
#[derive(Debug, Eq)]
pub struct ClientSecret(String);

impl View for ClientSecret {
    type V = Seq<char>;

    closed spec fn view(&self) -> Seq<char> {
        self.0@
    }
}

impl ClientSecret {
    /// Wraps the text `value`.
    pub fn new(value: String) -> (r: ClientSecret)
        ensures
            r@ == value@,
    {
        ClientSecret(value)
    }
}

impl Clone for ClientSecret {
    fn clone(&self) -> (r: ClientSecret)
        ensures
            r@ == self@,
    {
        ClientSecret(self.0.clone())
    }
}

/// Two texts with the same UTF-8 encoding are the same text.
pub proof fn lemma_utf8_injective(a: Seq<char>, b: Seq<char>)
    requires
        encode_utf8(a) == encode_utf8(b),
    ensures
        a == b,
{
    encode_utf8_decode_utf8(a);
    encode_utf8_decode_utf8(b);
}

/// Folding a difference into an accumulator leaves it zero exactly when it
/// was zero and the two bytes are equal.
proof fn lemma_fold_difference(acc: u8, left: u8, right: u8)
    ensures
        (acc | (left ^ right)) == 0 <==> (acc == 0 && left == right),
{
    assert((acc | (left ^ right)) == 0 <==> (acc == 0 && left == right)) by (bit_vector);
}

impl PartialEq for ClientSecret {
    /// Compares two secrets. Texts of one length are compared byte by byte
    /// to the end, whatever the bytes are, so that the time taken does not
    /// tell where they first differ.
    fn eq(&self, other: &ClientSecret) -> (r: bool) {
        let left = self.0.as_str().as_bytes();
        let right = other.0.as_str().as_bytes();
        if left.len() != right.len() {
            return false;
        }
        let mut acc: u8 = 0;
        let mut i: usize = 0;
        proof {
            assert(left@.take(0) == right@.take(0));
        }
        while i < left.len()
            invariant
                i <= left.len(),
                left.len() == right.len(),
                acc == 0 <==> left@.take(i as int) == right@.take(i as int),
            decreases left.len() - i,
        {
            proof {
                lemma_fold_difference(acc, left[i as int], right[i as int]);
                assert(left@.take(i + 1) == left@.take(i as int).push(left@[i as int]));
                assert(right@.take(i + 1) == right@.take(i as int).push(right@[i as int]));
                if left@.take(i + 1) == right@.take(i + 1) {
                    assert(left@.take(i as int) == left@.take(i + 1).drop_last());
                    assert(right@.take(i as int) == right@.take(i + 1).drop_last());
                    assert(left@[i as int] == left@.take(i + 1).last());
                }
            }
            acc = acc | (left[i] ^ right[i]);
            i += 1;
        }
        proof {
            assert(left@.take(i as int) == left@);
            assert(right@.take(i as int) == right@);
            if left@ == right@ {
                lemma_utf8_injective(self@, other@);
            }
        }
        acc == 0
    }
}

impl PartialEqSpecImpl for ClientSecret {
    open spec fn obeys_eq_spec() -> bool {
        true
    }

    open spec fn eq_spec(&self, other: &ClientSecret) -> bool {
        self@ == other@
    }
}

/// The variants as the site names them.
#[derive(Debug, Copy, Clone, PartialEq, Eq, Structural)]
pub enum LichessVariant {
    Antichess,
    Atomic,
    Chess960,
    Crazyhouse,
    FromPosition,
    Horde,
    KingOfTheHill,
    RacingKings,
    Standard,
    ThreeCheck,
}

/// The rule set that a site variant is played under: the three names of
/// orthodox chess share one.
pub open spec fn rule_set(variant: LichessVariant) -> Variant {
    match variant {
        LichessVariant::Antichess => Variant::Antichess,
        LichessVariant::Atomic => Variant::Atomic,
        LichessVariant::Chess960 => Variant::Chess,
        LichessVariant::FromPosition => Variant::Chess,
        LichessVariant::Standard => Variant::Chess,
        LichessVariant::Crazyhouse => Variant::Crazyhouse,
        LichessVariant::Horde => Variant::Horde,
        LichessVariant::KingOfTheHill => Variant::KingOfTheHill,
        LichessVariant::RacingKings => Variant::RacingKings,
        LichessVariant::ThreeCheck => Variant::ThreeCheck,
    }
}

/// The site's name for a rule set; orthodox chess goes by `Standard`.
pub open spec fn site_name(variant: Variant) -> LichessVariant {
    match variant {
        Variant::Chess => LichessVariant::Standard,
        Variant::Antichess => LichessVariant::Antichess,
        Variant::Atomic => LichessVariant::Atomic,
        Variant::Crazyhouse => LichessVariant::Crazyhouse,
        Variant::Horde => LichessVariant::Horde,
        Variant::KingOfTheHill => LichessVariant::KingOfTheHill,
        Variant::RacingKings => LichessVariant::RacingKings,
        Variant::ThreeCheck => LichessVariant::ThreeCheck,
    }
}

impl From<LichessVariant> for Variant {
    fn from(variant: LichessVariant) -> (r: Variant) {
        match variant {
            LichessVariant::Antichess => Variant::Antichess,
            LichessVariant::Atomic => Variant::Atomic,
            LichessVariant::Chess960 | LichessVariant::FromPosition | LichessVariant::Standard => {
                Variant::Chess
            },
            LichessVariant::Crazyhouse => Variant::Crazyhouse,
            LichessVariant::Horde => Variant::Horde,
            LichessVariant::KingOfTheHill => Variant::KingOfTheHill,
            LichessVariant::RacingKings => Variant::RacingKings,
            LichessVariant::ThreeCheck => Variant::ThreeCheck,
        }
    }
}

impl FromSpecImpl<LichessVariant> for Variant {
    open spec fn obeys_from_spec() -> bool {
        true
    }

    open spec fn from_spec(variant: LichessVariant) -> Variant {
        rule_set(variant)
    }
}

impl From<Variant> for LichessVariant {
    fn from(variant: Variant) -> (r: LichessVariant) {
        match variant {
            Variant::Chess => LichessVariant::Standard,
            Variant::Antichess => LichessVariant::Antichess,
            Variant::Atomic => LichessVariant::Atomic,
            Variant::Crazyhouse => LichessVariant::Crazyhouse,
            Variant::Horde => LichessVariant::Horde,
            Variant::KingOfTheHill => LichessVariant::KingOfTheHill,
            Variant::RacingKings => LichessVariant::RacingKings,
            Variant::ThreeCheck => LichessVariant::ThreeCheck,
        }
    }
}

impl FromSpecImpl<Variant> for LichessVariant {
    open spec fn obeys_from_spec() -> bool {
        true
    }

    open spec fn from_spec(variant: Variant) -> LichessVariant {
        site_name(variant)
    }
}

/// Naming a rule set and reading the name back gives the rule set again.
pub proof fn lemma_variant_round_trip(variant: Variant)
    ensures
        rule_set(site_name(variant)) == variant,
{
}

/// Number of characters in a job identity.
pub const JOB_ID_LEN: usize = 16;

/// Whether `c` is an ASCII letter or digit.
pub open spec fn is_alphanumeric(c: char) -> bool {
    ('0' <= c && c <= '9') || ('a' <= c && c <= 'z') || ('A' <= c && c <= 'Z')
}

/// Whether `text` has the form of a freshly drawn job identity:
/// `JOB_ID_LEN` ASCII letters and digits.
pub open spec fn is_job_token(text: Seq<char>) -> bool {
    text.len() == JOB_ID_LEN && forall|i: int|
        0 <= i < text.len() ==> is_alphanumeric(#[trigger] text[i])
}

/// The identity of one dispatch of a job, by which a later report finds it.
#[derive(Debug, Eq, Hash)]
pub struct JobId(String);

impl View for JobId {
    type V = Seq<char>;

    closed spec fn view(&self) -> Seq<char> {
        self.0@
    }
}

impl JobId {
    /// Wraps the text `value`, as a report names the job it is about.
    pub fn new(value: String) -> (r: JobId)
        ensures
            r@ == value@,
    {
        JobId(value)
    }

    /// The text held.
    pub fn as_str(&self) -> (r: &str)
        ensures
            r@ == self@,
    {
        self.0.as_str()
    }

    /// Draws a fresh identity at random. Which one comes is not foretold;
    /// its form is.
    pub fn random() -> (r: JobId)
        ensures
            is_job_token(r@),
    {
        JobId(sample_alphanumeric(JOB_ID_LEN))
    }
}

impl Clone for JobId {
    fn clone(&self) -> (r: JobId)
        ensures
            r@ == self@,
    {
        JobId(self.0.clone())
    }
}

impl PartialEq for JobId {
    fn eq(&self, other: &JobId) -> (r: bool) {
        self.0 == other.0
    }
}

impl PartialEqSpecImpl for JobId {
    open spec fn obeys_eq_spec() -> bool {
        true
    }

    open spec fn eq_spec(&self, other: &JobId) -> bool {
        self@ == other@
    }
}

impl Key for JobId {
    fn same(&self, other: &JobId) -> (b: bool) {
        self.0 == other.0
    }
}

/// `DistString::sample_string` of the `rand` crate, on its `Alphanumeric`
/// distribution and the generator of `thread_rng`. Trusted: the text
/// returned holds `len` characters, each an ASCII letter or digit.
#[verifier::external_body]
fn sample_alphanumeric(len: usize) -> (r: String)
    ensures
        r@.len() == len,
        forall|i: int| 0 <= i < r@.len() ==> is_alphanumeric(#[trigger] r@[i]),
{
    Alphanumeric.sample_string(&mut thread_rng(), len)
}

/// A request to have a job analysed by an engine.
#[derive(Debug)]
pub struct AnalyseRequest {
    pub client_secret: ClientSecret,
    pub work: Work,
}

/// A provider's request for work.
#[derive(Debug)]
pub struct AcquireRequest {
    pub provider_secret: ProviderSecret,
}

/// What a provider is handed when work is dispatched to it.
#[derive(Debug)]
pub struct AcquireResponse {
    pub id: JobId,
    pub work: Work,
    pub engine: ExternalEngine,
}

/// The views of a sequence of texts.
pub open spec fn texts(v: Seq<String>) -> Seq<Seq<char>> {
    v.map_values(|s: String| s@)
}

/// The most moves a job may carry.
pub const MAX_MOVES: usize = 600;

/// An analysis job: who asks, what resources it wants, and the line to
/// analyse as an initial position followed by moves.
#[derive(Debug, Clone)]
pub struct Work {
    pub session_id: SessionId,
    pub threads: u32,
    pub hash: u32,
    pub deep: bool,
    pub multi_pv: MultiPv,
    pub variant: LichessVariant,
    pub initial_fen: String,
    pub moves: Vec<String>,
}

/// A job as a mathematical value.
pub struct WorkView {
    pub session_id: Seq<char>,
    pub threads: u32,
    pub hash: u32,
    pub deep: bool,
    pub multi_pv: nat,
    pub variant: LichessVariant,
    pub initial_fen: Seq<char>,
    pub moves: Seq<Seq<char>>,
}

impl View for Work {
    type V = WorkView;

    open spec fn view(&self) -> WorkView {
        WorkView {
            session_id: self.session_id@,
            threads: self.threads,
            hash: self.hash,
            deep: self.deep,
            multi_pv: self.multi_pv@,
            variant: self.variant,
            initial_fen: self.initial_fen@,
            moves: texts(self.moves@),
        }
    }
}

/// The position a job's line ends in, in canonical notation.
#[derive(Debug, Clone)]
pub struct ResolvedPosition {
    pub variant: Variant,
    pub fen: String,
}

/// A resolved position as a mathematical value.
pub struct PositionView {
    pub variant: Variant,
    pub fen: Seq<char>,
}

impl View for ResolvedPosition {
    type V = PositionView;

    open spec fn view(&self) -> PositionView {
        PositionView { variant: self.variant, fen: self.fen@ }
    }
}

/// Why a job was turned away.
#[derive(Debug, Clone, PartialEq, Eq)]
pub enum InvalidWorkError {
    /// The initial position is malformed or cannot be set up; the text is
    /// the rules library's account of why.
    Position(String),
    /// Some move is malformed or not legal where it is played; the text is
    /// the rules library's account of why.
    IllegalUci(String),
    /// The line holds more than `MAX_MOVES` moves.
    TooManyMoves,
    /// The engine does not play the variant asked for.
    UnsupportedVariant,
}

/// A rejection as a mathematical value.
pub enum Rejection {
    Position(Seq<char>),
    IllegalUci(Seq<char>),
    TooManyMoves,
    UnsupportedVariant,
}

impl Rejection {
    /// The words for each rejection. What the rules library said follows
    /// the words for its kind.
    pub open spec fn text(self) -> Seq<char> {
        match self {
            Rejection::Position(why) => "illegal initial position: "@ + why,
            Rejection::IllegalUci(why) => "illegal uci: "@ + why,
            Rejection::TooManyMoves => "too many moves"@,
            Rejection::UnsupportedVariant => "unsupported variant"@,
        }
    }
}

impl View for InvalidWorkError {
    type V = Rejection;

    open spec fn view(&self) -> Rejection {
        match *self {
            InvalidWorkError::Position(why) => Rejection::Position(why@),
            InvalidWorkError::IllegalUci(why) => Rejection::IllegalUci(why@),
            InvalidWorkError::TooManyMoves => Rejection::TooManyMoves,
            InvalidWorkError::UnsupportedVariant => Rejection::UnsupportedVariant,
        }
    }
}

impl InvalidWorkError {
    /// The failure in words.
    pub fn message(&self) -> (r: String)
        ensures
            r@ == self@.text(),
    {
        match self {
            InvalidWorkError::Position(why) => {
                let mut words = "illegal initial position: ".to_owned();
                words.append(why.as_str());
                words
            },
            InvalidWorkError::IllegalUci(why) => {
                let mut words = "illegal uci: ".to_owned();
                words.append(why.as_str());
                words
            },
            InvalidWorkError::TooManyMoves => "too many moves".to_owned(),
            InvalidWorkError::UnsupportedVariant => "unsupported variant".to_owned(),
        }
    }
}

/// The smaller of a requested amount and the engine's limit.
pub open spec fn clamped(requested: u32, limit: u32) -> u32 {
    if requested <= limit {
        requested
    } else {
        limit
    }
}

/// The job that leaves normalisation, given the canonical notation of its
/// initial position and of its moves: resources are cut down to the engine's
/// limits, never raised, and the variant goes by the site's name for its
/// rule set.
pub open spec fn normalized(
    work: WorkView,
    engine: EngineView,
    initial_fen: Seq<char>,
    moves: Seq<Seq<char>>,
) -> WorkView {
    WorkView {
        session_id: work.session_id,
        threads: clamped(work.threads, engine.max_threads),
        hash: clamped(work.hash, engine.max_hash),
        deep: work.deep,
        multi_pv: work.multi_pv,
        variant: site_name(rule_set(work.variant)),
        initial_fen,
        moves,
    }
}

/// What normalising `work` for `engine` yields. The checks are made in this
/// order and the first that fails decides: the variant, the initial
/// position, the number of moves, then each move in turn. Castling rights
/// are read, and castling moves written, by `CastlingMode::Chess960`; an
/// en-passant square is written by `EnPassantMode::Legal`.
pub open spec fn sanitized(work: WorkView, engine: EngineView) -> Result<
    (WorkView, PositionView),
    Rejection,
> {
    let variant = rule_set(work.variant);
    if !engine.supports(variant) {
        Err(Rejection::UnsupportedVariant)
    } else {
        match initial_position(work) {
            Err(why) => Err(Rejection::Position(why)),
            Ok(fen) => if work.moves.len() > MAX_MOVES {
                Err(Rejection::TooManyMoves)
            } else {
                match line(work, fen) {
                    Err(why) => Err(Rejection::IllegalUci(why)),
                    Ok(line) => Ok(
                        (
                            normalized(work, engine, fen, line.moves),
                            PositionView { variant, fen: line.end },
                        ),
                    ),
                }
            },
        }
    }
}

/// The canonical notation of the initial position of `work`, or why the
/// rules library does not set it up.
pub open spec fn initial_position(work: WorkView) -> Result<Seq<char>, Seq<char>> {
    canonical_fen(
        rule_set(work.variant).uci_name(),
        CastlingMode::Chess960,
        EnPassantMode::Legal,
        work.initial_fen,
    )
}

/// The replay of the moves of `work` from the position `fen`.
pub open spec fn line(work: WorkView, fen: Seq<char>) -> Result<Replay, Seq<char>> {
    replay(
        rule_set(work.variant),
        CastlingMode::Chess960,
        EnPassantMode::Legal,
        fen,
        work.moves,
    )
}

/// Clamping only cuts down: a request above the limit is brought to the
/// limit, and a request within it is left as it is.
pub proof fn lemma_clamped(requested: u32, limit: u32)
    ensures
        clamped(requested, limit) <= limit,
        clamped(requested, limit) <= requested,
        requested > limit ==> clamped(requested, limit) == limit,
        requested <= limit ==> clamped(requested, limit) == requested,
        clamped(clamped(requested, limit), limit) == clamped(requested, limit),
{
}

/// Each rejection comes on its own inputs and on no others, and a job that
/// passes every check is accepted: the variant is looked at first, then the
/// initial position, then the number of moves, then the moves.
pub proof fn lemma_rejections(work: WorkView, engine: EngineView)
    ensures
        sanitized(work, engine) == Err::<(WorkView, PositionView), _>(
            Rejection::UnsupportedVariant,
        ) <==> !engine.supports(rule_set(work.variant)),
        sanitized(work, engine) matches Err(Rejection::Position(why)) <==> engine.supports(
            rule_set(work.variant),
        ) && initial_position(work) is Err,
        sanitized(work, engine) matches Err(Rejection::Position(why)) ==> initial_position(work)
            == Err::<Seq<char>, _>(why),
        sanitized(work, engine) == Err::<(WorkView, PositionView), _>(Rejection::TooManyMoves)
            <==> engine.supports(rule_set(work.variant)) && initial_position(work) is Ok
            && work.moves.len() > MAX_MOVES,
        sanitized(work, engine) matches Err(Rejection::IllegalUci(why)) <==> engine.supports(
            rule_set(work.variant),
        ) && work.moves.len() <= MAX_MOVES && (initial_position(work) matches Ok(fen) && line(
            work,
            fen,
        ) is Err),
        sanitized(work, engine) matches Err(Rejection::IllegalUci(why)) ==> line(
            work,
            initial_position(work)->Ok_0,
        ) == Err::<Replay, _>(why),
        sanitized(work, engine) is Ok <==> engine.supports(rule_set(work.variant))
            && work.moves.len() <= MAX_MOVES && (initial_position(work) matches Ok(fen) && line(
            work,
            fen,
        ) is Ok),
{
}

/// What holds of every job that leaves normalisation: its resources are
/// within the engine's limits and no larger than asked for, it carries at
/// most `MAX_MOVES` moves, as many as were given, and who asked, how deep
/// and for how many variations are as they were.
pub proof fn lemma_sanitized_bounds(work: WorkView, engine: EngineView)
    requires
        sanitized(work, engine) is Ok,
    ensures
        ({
            let clean = sanitized(work, engine)->Ok_0.0;
            &&& clean.threads <= engine.max_threads
            &&& clean.threads <= work.threads
            &&& clean.hash <= engine.max_hash
            &&& clean.hash <= work.hash
            &&& clean.moves.len() == work.moves.len()
            &&& clean.moves.len() <= MAX_MOVES
            &&& clean.session_id == work.session_id
            &&& clean.deep == work.deep
            &&& clean.multi_pv == work.multi_pv
            &&& rule_set(clean.variant) == rule_set(work.variant)
        }),
{
    let fen = initial_position(work)->Ok_0;
    lemma_replay_len(
        rule_set(work.variant),
        CastlingMode::Chess960,
        EnPassantMode::Legal,
        fen,
        work.moves,
    );
}

/// Normalising a normalised job changes nothing, provided the rules
/// library reads its own canonical notation back unchanged: the initial
/// position sets up to itself, and the moves replay to themselves and to
/// the same end.
pub proof fn lemma_sanitized_again(work: WorkView, engine: EngineView)
    requires
        sanitized(work, engine) is Ok,
        ({
            let (clean, end) = sanitized(work, engine)->Ok_0;
            &&& initial_position(clean) == Ok::<Seq<char>, Seq<char>>(clean.initial_fen)
            &&& line(clean, clean.initial_fen) == Ok::<Replay, Seq<char>>(
                Replay { moves: clean.moves, end: end.fen },
            )
        }),
    ensures
        sanitized(sanitized(work, engine)->Ok_0.0, engine) == sanitized(work, engine),
{
    let variant = rule_set(work.variant);
    let fen = initial_position(work)->Ok_0;
    lemma_replay_len(variant, CastlingMode::Chess960, EnPassantMode::Legal, fen, work.moves);
    lemma_variant_round_trip(variant);
    let (clean, end) = sanitized(work, engine)->Ok_0;
    assert(rule_set(clean.variant) == variant);
    assert(normalized(clean, engine, clean.initial_fen, clean.moves) == clean);
}

impl Work {
    /// Builds the normalised job from this one and the canonical notation
    /// of its initial position and moves.
    pub fn normalize(self, engine: &ExternalEngine, initial_fen: String, moves: Vec<String>) -> (r:
        Work)
        ensures
            r@ == normalized(self@, engine@, initial_fen@, texts(moves@)),
    {
        let variant = Variant::from(self.variant);
        Work {
            session_id: self.session_id,
            threads: if self.threads <= engine.max_threads {
                self.threads
            } else {
                engine.max_threads
            },
            hash: if self.hash <= engine.max_hash {
                self.hash
            } else {
                engine.max_hash
            },
            deep: self.deep,
            multi_pv: self.multi_pv,
            variant: LichessVariant::from(variant),
            initial_fen,
            moves,
        }
    }

    /// Validates this job against `engine` and the rules of its variant and
    /// brings it into canonical form. Nothing is returned of a job that
    /// fails a check.
    pub fn sanitize(self, engine: &ExternalEngine) -> (r: Result<
        (Work, ResolvedPosition),
        InvalidWorkError,
    >)
        ensures
            match r {
                Ok((work, end)) => sanitized(self@, engine@) == Ok::<
                    (WorkView, PositionView),
                    Rejection,
                >((work@, end@)),
                Err(e) => sanitized(self@, engine@) == Err::<(WorkView, PositionView), Rejection>(
                    e@,
                ),
            },
    {
        let variant = Variant::from(self.variant);
        let castling = CastlingMode::Chess960;
        let en_passant = EnPassantMode::Legal;
        if !engine.supports(variant) {
            return Err(InvalidWorkError::UnsupportedVariant);
        }
        let initial_fen = match set_up(variant, castling, en_passant, self.initial_fen.as_str()) {
            Ok(fen) => fen,
            Err(why) => {
                return Err(InvalidWorkError::Position(why));
            },
        };
        if self.moves.len() > MAX_MOVES {
            return Err(InvalidWorkError::TooManyMoves);
        }
        let ghost given = texts(self.moves@);
        let mut moves: Vec<String> = Vec::with_capacity(self.moves.len());
        let mut current: String = initial_fen.clone();
        let mut i: usize = 0;
        proof {
            assert(texts(moves@) == Seq::<Seq<char>>::empty());
        }
        while i < self.moves.len()
            invariant
                i <= self.moves.len(),
                given == texts(self.moves@),
                given.len() <= MAX_MOVES,
                variant == rule_set(self.variant),
                castling == CastlingMode::Chess960,
                en_passant == EnPassantMode::Legal,
                engine@.supports(variant),
                initial_position(self@) == Ok::<Seq<char>, Seq<char>>(initial_fen@),
                replay(variant, castling, en_passant, initial_fen@, given.take(i as int)) == Ok::<
                    Replay,
                    Seq<char>,
                >(Replay { moves: texts(moves@), end: current@ }),
            decreases self.moves.len() - i,
        {
            proof {
                assert(given.take(i + 1).drop_last() == given.take(i as int));
                assert(given.take(i + 1).last() == self.moves@[i as int]@);
            }
            match play(variant, castling, en_passant, current.as_str(), self.moves[i].as_str()) {
                Err(why) => {
                    proof {
                        lemma_replay_prefix(
                            variant,
                            castling,
                            en_passant,
                            initial_fen@,
                            given,
                            i + 1,
                        );
                    }
                    return Err(InvalidWorkError::IllegalUci(why));
                },
                Ok((uci, next)) => {
                    proof {
                        assert(texts(moves@.push(uci)) == texts(moves@).push(uci@));
                    }
                    moves.push(uci);
                    current = next;
                },
            }
            i += 1;
        }
        proof {
            assert(given.take(i as int) == given);
        }
        Ok((self.normalize(engine, initial_fen, moves), ResolvedPosition { variant, fen: current }))
    }
}

} // verus!
