//! Declaration messages of the zenoh network protocol.
//!
//! ```text
//! 7 6 5 4 3 2 1 0
//! +-+-+-+-+-+-+-+-+
//! |Z|X|I| DECLARE |
//! +-+-+-+---------+
//! ~interest_id:z32~  if I==1
//! +---------------+
//! ~  [decl_exts]  ~  if Z==1
//! +---------------+
//! ~  declaration  ~
//! +---------------+
//! ```
use vstd::prelude::*;
use rand::Rng;
use rand::distributions::DistString;

verus! {

// ---------------------------------------------------------------------------
// Flags and identifiers
// ---------------------------------------------------------------------------

/// Interest flag of a declare: the declare answers an interest.
pub const FLAG_I: u8 = 0x20;
/// Extension flag: at least one extension follows.
pub const FLAG_Z: u8 = 0x80;
/// Named flag: the key expression has a suffix.
pub const FLAG_N: u8 = 0x20;
/// Mapping flag: the mapping is the sender's.
pub const FLAG_M: u8 = 0x40;
/// Handover flag of a pre-subscription: handover information follows.
pub const FLAG_H: u8 = 0x80;
/// Complete flag of the queryable information extension.
pub const FLAG_C: u8 = 0x01;

pub const D_KEYEXPR: u8 = 0x00;
pub const U_KEYEXPR: u8 = 0x01;
pub const D_SUBSCRIBER: u8 = 0x02;
pub const U_SUBSCRIBER: u8 = 0x03;
pub const D_QUERYABLE: u8 = 0x04;
pub const U_QUERYABLE: u8 = 0x05;
pub const D_TOKEN: u8 = 0x06;
pub const U_TOKEN: u8 = 0x07;
pub const D_PRESUBSCRIBER: u8 = 0x08;
pub const D_ROUTEUPDATE: u8 = 0x09;
pub const D_FINAL: u8 = 0x1A;

// ---------------------------------------------------------------------------
// Core types
// ---------------------------------------------------------------------------

/// The identifier of a declared key expression.
pub type ExprId = u16;
/// The identifier of a declared entity.
pub type EntityId = u32;
/// The identifier of a subscriber.
pub type SubscriberId = EntityId;
/// The identifier of a queryable.
pub type QueryableId = EntityId;
/// The identifier of a liveliness token.
pub type TokenId = u32;
/// The identifier of a router in a routing tree.
pub type NodeId = u16;
/// The identifier of an interest.
pub type InterestId = u32;

/// `Clone::clone` of `std::time::Duration`, a `Copy` type: the same duration.
pub assume_specification[ <std::time::Duration as Clone>::clone ](d: &std::time::Duration) -> (r:
    std::time::Duration)
    ensures
        r == *d,
;

/// The identifier of a zenoh node.
#[derive(Debug, Clone, Copy, PartialEq, Eq, Hash, Structural)]
pub struct ZenohIdProto {
    pub id: u128,
}

/// Whose declarations a key expression's scope refers to.
#[derive(Debug, Clone, Copy, PartialEq, Eq, Structural)]
pub enum Mapping {
    /// The scope was declared by the receiver.
    Receiver,
    /// The scope was declared by the sender.
    Sender,
}

/// A key expression as it travels: a declared scope and a suffix.
#[derive(Debug, Clone, PartialEq, Eq)]
pub struct WireExpr {
    pub scope: ExprId,
    pub suffix: String,
    pub mapping: Mapping,
}

/// The quality-of-service extension.
#[derive(Debug, Clone, Copy, PartialEq, Eq, Structural)]
pub struct QoSType {
    pub inner: u8,
}

/// A timestamp: a time and the node that took it.
#[derive(Debug, Clone, Copy, PartialEq, Eq, Structural)]
pub struct TimestampType {
    pub time: u64,
    pub id: ZenohIdProto,
}

/// The node identifier extension.
#[derive(Debug, Clone, Copy, PartialEq, Eq, Structural)]
pub struct NodeIdType {
    pub node_id: u16,
}

// ---------------------------------------------------------------------------
// Declarations
// ---------------------------------------------------------------------------

/// A declare message.
#[derive(Debug, Clone, PartialEq, Eq)]
pub struct Declare {
    pub interest_id: Option<InterestId>,
    pub ext_qos: QoSType,
    pub ext_tstamp: Option<TimestampType>,
    pub ext_nodeid: NodeIdType,
    pub body: DeclareBody,
}

/// The declaration a declare message carries.
#[derive(Debug, Clone, PartialEq, Eq)]
pub enum DeclareBody {
    DeclareKeyExpr(DeclareKeyExpr),
    UndeclareKeyExpr(UndeclareKeyExpr),
    DeclareSubscriber(DeclareSubscriber),
    UndeclareSubscriber(UndeclareSubscriber),
    DeclarePreSubscriber(DeclarePreSubscriber),
    DeclareRouteUpdate(DeclareRouteUpdate),
    DeclareQueryable(DeclareQueryable),
    UndeclareQueryable(UndeclareQueryable),
    DeclareToken(DeclareToken),
    UndeclareToken(UndeclareToken),
    DeclareFinal(DeclareFinal),
}

/// The end of a batch of declarations answering an interest.
#[derive(Debug, Clone, PartialEq, Eq, Structural)]
pub struct DeclareFinal;

/// The key expression extension of an undeclaration.
#[derive(Debug, Clone, PartialEq, Eq)]
pub struct WireExprType {
    pub wire_expr: WireExpr,
}

/// Declares a key expression under an identifier.
#[derive(Debug, Clone, PartialEq, Eq)]
pub struct DeclareKeyExpr {
    pub id: ExprId,
    pub wire_expr: WireExpr,
}

/// Undeclares a key expression.
#[derive(Debug, Clone, PartialEq, Eq, Structural)]
pub struct UndeclareKeyExpr {
    pub id: ExprId,
}

/// The synchronization identifier between routers during handover: the
/// subscriber, the router after handover and a unique sequence number.
#[derive(Debug, Copy, Clone, PartialEq, Eq, Structural)]
pub struct SyncInfo {
    pub subscriber_identity: ZenohIdProto,
    /// Router NodeId after handover.
    pub pub_router_id: NodeId,
    /// Unique sync sequence number for this handover.
    pub sync_seq: u32,
}

/// Declares a subscriber.
#[derive(Debug, Clone, PartialEq, Eq)]
pub struct DeclareSubscriber {
    pub id: SubscriberId,
    pub wire_expr: WireExpr,
}

/// Declares a subscription ahead of a handover.
#[derive(Debug, Clone, PartialEq, Eq)]
pub struct DeclarePreSubscriber {
    pub target_router_id: Option<NodeId>,
    pub sync_info: Option<SyncInfo>,
    pub id: SubscriberId,
    pub wire_expr: WireExpr,
    pub estimated_time: std::time::Duration,
}

/// Announces that the publishing router of a key expression changes.
#[derive(Debug, Clone, PartialEq, Eq)]
pub struct DeclareRouteUpdate {
    pub pub_router_id: NodeId,
    pub prev_router_id: NodeId,
    pub wire_expr: WireExpr,
    pub estimated_time: std::time::Duration,
}

/// Undeclares a subscriber.
#[derive(Debug, Clone, PartialEq, Eq)]
pub struct UndeclareSubscriber {
    pub id: SubscriberId,
    pub ext_wire_expr: WireExprType,
}

/// Declares a queryable.
#[derive(Debug, Clone, PartialEq, Eq)]
pub struct DeclareQueryable {
    pub id: QueryableId,
    pub wire_expr: WireExpr,
    pub ext_info: QueryableInfoType,
}

/// Whether a queryable is complete, and its distance.
#[derive(Debug, Clone, Copy, PartialEq, Eq, Structural)]
pub struct QueryableInfoType {
    /// Default false: incomplete.
    pub complete: bool,
    /// Default 0: no distance.
    pub distance: u16,
}

/// Undeclares a queryable.
#[derive(Debug, Clone, PartialEq, Eq)]
pub struct UndeclareQueryable {
    pub id: QueryableId,
    pub ext_wire_expr: WireExprType,
}

/// Declares a liveliness token.
#[derive(Debug, Clone, PartialEq, Eq)]
pub struct DeclareToken {
    pub id: TokenId,
    pub wire_expr: WireExpr,
}

/// Undeclares a liveliness token.
#[derive(Debug, Clone, PartialEq, Eq)]
pub struct UndeclareToken {
    pub id: TokenId,
    pub ext_wire_expr: WireExprType,
}

// ---------------------------------------------------------------------------
// Randomness
// ---------------------------------------------------------------------------

/// An ASCII letter or digit.
pub open spec fn is_alphanumeric(c: char) -> bool {
    ||| 'a' <= c <= 'z'
    ||| 'A' <= c <= 'Z'
    ||| '0' <= c <= '9'
}

/// `rand::Rng::gen::<u64>` on the thread's generator: any `u64`.
#[verifier::external_body]
fn random_u64() -> u64 {
    rand::thread_rng().gen::<u64>()
}

/// `rand::Rng::gen_range(low..high)` on the thread's generator: a value in
/// `low..high`; the range must not be empty, since the call panics on it.
#[verifier::external_body]
fn random_in(low: u64, high: u64) -> (r: u64)
    requires
        low < high,
    ensures
        low <= r < high,
{
    rand::thread_rng().gen_range(low..high)
}

/// `rand::distributions::Alphanumeric.sample_string` on the thread's
/// generator: `len` characters, each an ASCII letter or digit.
#[verifier::external_body]
fn random_alphanumeric(len: usize) -> (s: String)
    ensures
        s@.len() == len,
        forall|i: int| 0 <= i < len ==> is_alphanumeric(#[trigger] s@[i]),
{
    rand::distributions::Alphanumeric.sample_string(&mut rand::thread_rng(), len)
}

/// `rand::Rng::gen::<bool>` on the thread's generator: a fair coin, either
/// value.
#[verifier::external_body]
fn random_bool() -> bool {
    rand::thread_rng().gen::<bool>()
}

/// `rand::Rng::gen::<u16>` on the thread's generator: any `u16`.
#[verifier::external_body]
fn random_u16() -> u16 {
    rand::thread_rng().gen::<u16>()
}

/// `rand::Rng::gen::<u32>` on the thread's generator: any `u32`.
#[verifier::external_body]
fn random_u32() -> u32 {
    rand::thread_rng().gen::<u32>()
}

/// `rand::Rng::gen::<u8>` on the thread's generator: any `u8`.
#[verifier::external_body]
fn random_u8() -> u8 {
    rand::thread_rng().gen::<u8>()
}

impl ZenohIdProto {
    /// A random identifier.
    pub fn rand() -> (id: Self) {
        let hi = random_u64() as u128;
        let lo = random_u64() as u128;
        ZenohIdProto { id: hi * 18446744073709551616u128 + lo }
    }
}

/// A key expression as random declarations make them: a scope below 20, the
/// receiver's mapping, and either no suffix or one of 2 to 63 letters and
/// digits.
pub open spec fn is_random_wire_expr(w: WireExpr) -> bool {
    &&& w.scope < 20
    &&& w.mapping == Mapping::Receiver
    &&& (w.suffix@.len() == 0 || (2 <= w.suffix@.len() < 64 && forall|i: int|
        0 <= i < w.suffix@.len() ==> is_alphanumeric(#[trigger] w.suffix@[i])))
}

/// A declaration as random declarations make them: one of the nine kinds
/// that are drawn (never a pre-subscription nor a route update), each key
/// expression it carries made as [`is_random_wire_expr`] says.
pub open spec fn is_random_body(b: DeclareBody) -> bool {
    match b {
        DeclareBody::DeclareKeyExpr(d) => is_random_wire_expr(d.wire_expr),
        DeclareBody::UndeclareKeyExpr(_) => true,
        DeclareBody::DeclareSubscriber(d) => is_random_wire_expr(d.wire_expr),
        DeclareBody::UndeclareSubscriber(d) => is_random_wire_expr(d.ext_wire_expr.wire_expr),
        DeclareBody::DeclarePreSubscriber(_) => false,
        DeclareBody::DeclareRouteUpdate(_) => false,
        DeclareBody::DeclareQueryable(d) => is_random_wire_expr(d.wire_expr),
        DeclareBody::UndeclareQueryable(d) => is_random_wire_expr(d.ext_wire_expr.wire_expr),
        DeclareBody::DeclareToken(d) => is_random_wire_expr(d.wire_expr),
        DeclareBody::UndeclareToken(d) => is_random_wire_expr(d.ext_wire_expr.wire_expr),
        DeclareBody::DeclareFinal(_) => true,
    }
}

impl WireExpr {
    /// The empty key expression: no scope, no suffix.
    pub open spec fn spec_is_empty(&self) -> bool {
        self.scope == 0 && self.suffix@.len() == 0
    }

    /// Whether the key expression has neither a scope nor a suffix.
    pub fn is_empty(&self) -> (b: bool)
        ensures
            b == self.spec_is_empty(),
    {
        self.scope == 0 && self.suffix.as_str().is_empty()
    }

    /// A random key expression: a scope below 20, and either no suffix or one
    /// of 2 to 63 letters and digits, with the receiver's mapping.
    pub fn rand() -> (w: Self)
        ensures
            is_random_wire_expr(w),
    {
        let scope = random_in(0, 20);
        let with_suffix = random_bool();
        let suffix = if with_suffix {
            let len = random_in(2, 64) as usize;
            random_alphanumeric(len)
        } else {
            String::new()
        };
        WireExpr::from_draws(scope, with_suffix, suffix)
    }

    /// The key expression that the draws of [`WireExpr::rand`] make: the drawn
    /// scope, the drawn suffix when one was drawn and none otherwise, and the
    /// receiver's mapping.
    pub fn from_draws(scope: u64, with_suffix: bool, suffix: String) -> (w: Self)
        requires
            scope < 65536,
        ensures
            w.scope == scope,
            w.suffix@ == (if with_suffix { suffix@ } else { Seq::<char>::empty() }),
            w.mapping == Mapping::Receiver,
    {
        let suffix = if with_suffix { suffix } else { String::new() };
        WireExpr { scope: scope as u16, suffix, mapping: Mapping::Receiver }
    }
}

/// A value that is present only where its draw said so.
pub fn present_if<T>(present: bool, value: T) -> (r: Option<T>)
    ensures
        r == (if present { Some(value) } else { None::<T> }),
{
    if present {
        Some(value)
    } else {
        None
    }
}

impl QoSType {
    /// A random quality of service.
    pub fn rand() -> (q: Self) {
        QoSType { inner: random_u8() }
    }
}

impl TimestampType {
    /// A random timestamp.
    pub fn rand() -> (t: Self) {
        TimestampType { time: random_u64(), id: ZenohIdProto::rand() }
    }
}

impl NodeIdType {
    /// A random node identifier.
    pub fn rand() -> (n: Self) {
        NodeIdType { node_id: random_u16() }
    }
}

impl DeclareFinal {
    /// The final declaration; it carries nothing to randomise.
    pub fn rand() -> (d: Self)
        ensures
            d == DeclareFinal,
    {
        DeclareFinal
    }
}

impl WireExprType {
    /// The null key expression extension: scope 0, no suffix, receiver's mapping.
    pub fn null() -> (w: Self)
        ensures
            w.wire_expr.scope == 0,
            w.wire_expr.suffix@.len() == 0,
            w.wire_expr.mapping == Mapping::Receiver,
    {
        WireExprType { wire_expr: WireExpr { scope: 0, suffix: String::new(), mapping: Mapping::Receiver } }
    }

    /// Whether the extension carries the empty key expression.
    pub fn is_null(&self) -> (b: bool)
        ensures
            b == self.wire_expr.spec_is_empty(),
    {
        self.wire_expr.is_empty()
    }

    /// A random key expression extension, as [`WireExpr::rand`] makes them.
    pub fn rand() -> (w: Self)
        ensures
            is_random_wire_expr(w.wire_expr),
    {
        WireExprType { wire_expr: WireExpr::rand() }
    }
}

impl DeclareKeyExpr {
    pub fn rand() -> (d: Self)
        ensures
            is_random_wire_expr(d.wire_expr),
    {
        let id = random_u16();
        let wire_expr = WireExpr::rand();
        DeclareKeyExpr { id, wire_expr }
    }
}

impl UndeclareKeyExpr {
    pub fn rand() -> (d: Self) {
        UndeclareKeyExpr { id: random_u16() }
    }
}

impl DeclareSubscriber {
    pub fn rand() -> (d: Self)
        ensures
            is_random_wire_expr(d.wire_expr),
    {
        let id = random_u32();
        let wire_expr = WireExpr::rand();
        DeclareSubscriber { id, wire_expr }
    }
}

impl UndeclareSubscriber {
    pub fn rand() -> (d: Self)
        ensures
            is_random_wire_expr(d.ext_wire_expr.wire_expr),
    {
        let id = random_u32();
        let ext_wire_expr = WireExprType::rand();
        UndeclareSubscriber { id, ext_wire_expr }
    }
}

impl QueryableInfoType {
    /// The default information: incomplete, no distance.
    pub fn default_info() -> (q: Self)
        ensures
            q == (QueryableInfoType { complete: false, distance: 0 }),
    {
        QueryableInfoType { complete: false, distance: 0 }
    }

    pub fn rand() -> (q: Self) {
        let complete = random_bool();
        let distance = random_u16();
        QueryableInfoType { complete, distance }
    }
}

impl DeclareQueryable {
    pub fn rand() -> (d: Self)
        ensures
            is_random_wire_expr(d.wire_expr),
    {
        let id = random_u32();
        let wire_expr = WireExpr::rand();
        let ext_info = QueryableInfoType::rand();
        DeclareQueryable { id, wire_expr, ext_info }
    }
}

impl UndeclareQueryable {
    pub fn rand() -> (d: Self)
        ensures
            is_random_wire_expr(d.ext_wire_expr.wire_expr),
    {
        let id = random_u32();
        let ext_wire_expr = WireExprType::rand();
        UndeclareQueryable { id, ext_wire_expr }
    }
}

impl DeclareToken {
    pub fn rand() -> (d: Self)
        ensures
            is_random_wire_expr(d.wire_expr),
    {
        let id = random_u32();
        let wire_expr = WireExpr::rand();
        DeclareToken { id, wire_expr }
    }
}

impl UndeclareToken {
    pub fn rand() -> (d: Self)
        ensures
            is_random_wire_expr(d.ext_wire_expr.wire_expr),
    {
        let id = random_u32();
        let ext_wire_expr = WireExprType::rand();
        UndeclareToken { id, ext_wire_expr }
    }
}

/// The kinds of declaration that random declarations are drawn from, in the
/// order of their draw.
#[derive(Debug, Clone, Copy, PartialEq, Eq, Structural)]
pub enum DeclareKind {
    KeyExpr,
    UndeclareKeyExpr,
    Subscriber,
    UndeclareSubscriber,
    Queryable,
    UndeclareQueryable,
    Token,
    UndeclareToken,
    Final,
}

/// The kind that the draw `pick` (below 9) selects.
pub open spec fn spec_body_kind(pick: u64) -> DeclareKind {
    if pick == 0 {
        DeclareKind::KeyExpr
    } else if pick == 1 {
        DeclareKind::UndeclareKeyExpr
    } else if pick == 2 {
        DeclareKind::Subscriber
    } else if pick == 3 {
        DeclareKind::UndeclareSubscriber
    } else if pick == 4 {
        DeclareKind::Queryable
    } else if pick == 5 {
        DeclareKind::UndeclareQueryable
    } else if pick == 6 {
        DeclareKind::Token
    } else if pick == 7 {
        DeclareKind::UndeclareToken
    } else {
        DeclareKind::Final
    }
}

/// The kind of a declaration, for the kinds that are drawn.
pub open spec fn kind_of(b: DeclareBody) -> Option<DeclareKind> {
    match b {
        DeclareBody::DeclareKeyExpr(_) => Some(DeclareKind::KeyExpr),
        DeclareBody::UndeclareKeyExpr(_) => Some(DeclareKind::UndeclareKeyExpr),
        DeclareBody::DeclareSubscriber(_) => Some(DeclareKind::Subscriber),
        DeclareBody::UndeclareSubscriber(_) => Some(DeclareKind::UndeclareSubscriber),
        DeclareBody::DeclarePreSubscriber(_) => None,
        DeclareBody::DeclareRouteUpdate(_) => None,
        DeclareBody::DeclareQueryable(_) => Some(DeclareKind::Queryable),
        DeclareBody::UndeclareQueryable(_) => Some(DeclareKind::UndeclareQueryable),
        DeclareBody::DeclareToken(_) => Some(DeclareKind::Token),
        DeclareBody::UndeclareToken(_) => Some(DeclareKind::UndeclareToken),
        DeclareBody::DeclareFinal(_) => Some(DeclareKind::Final),
    }
}

/// The kind of declaration that the draw `pick` selects: 0 a key expression,
/// 1 its undeclaration, 2 a subscriber, 3 its undeclaration, 4 a queryable,
/// 5 its undeclaration, 6 a token, 7 its undeclaration, 8 the final one.
pub fn body_kind(pick: u64) -> (k: DeclareKind)
    requires
        pick < 9,
    ensures
        k == spec_body_kind(pick),
{
    if pick == 0 {
        DeclareKind::KeyExpr
    } else if pick == 1 {
        DeclareKind::UndeclareKeyExpr
    } else if pick == 2 {
        DeclareKind::Subscriber
    } else if pick == 3 {
        DeclareKind::UndeclareSubscriber
    } else if pick == 4 {
        DeclareKind::Queryable
    } else if pick == 5 {
        DeclareKind::UndeclareQueryable
    } else if pick == 6 {
        DeclareKind::Token
    } else if pick == 7 {
        DeclareKind::UndeclareToken
    } else {
        DeclareKind::Final
    }
}

impl DeclareBody {
    /// A random declaration among the nine kinds that random declarations
    /// cover: never a pre-subscription nor a route update.
    pub fn rand() -> (b: Self)
        ensures
            is_random_body(b),
    {
        let pick = random_in(0, 9);
        DeclareBody::rand_of_kind(body_kind(pick))
    }

    /// A random declaration of the kind `kind`.
    pub fn rand_of_kind(kind: DeclareKind) -> (b: Self)
        ensures
            kind_of(b) == Some(kind),
            is_random_body(b),
    {
        match kind {
            DeclareKind::KeyExpr => DeclareBody::DeclareKeyExpr(DeclareKeyExpr::rand()),
            DeclareKind::UndeclareKeyExpr => DeclareBody::UndeclareKeyExpr(UndeclareKeyExpr::rand()),
            DeclareKind::Subscriber => DeclareBody::DeclareSubscriber(DeclareSubscriber::rand()),
            DeclareKind::UndeclareSubscriber => DeclareBody::UndeclareSubscriber(UndeclareSubscriber::rand()),
            DeclareKind::Queryable => DeclareBody::DeclareQueryable(DeclareQueryable::rand()),
            DeclareKind::UndeclareQueryable => DeclareBody::UndeclareQueryable(UndeclareQueryable::rand()),
            DeclareKind::Token => DeclareBody::DeclareToken(DeclareToken::rand()),
            DeclareKind::UndeclareToken => DeclareBody::UndeclareToken(UndeclareToken::rand()),
            DeclareKind::Final => DeclareBody::DeclareFinal(DeclareFinal::rand()),
        }
    }
}

impl Declare {
    /// A random declare message whose body is a random declaration.
    pub fn rand() -> (d: Self)
        ensures
            is_random_body(d.body),
    {
        let with_interest = random_bool();
        let interest_id = present_if(with_interest, random_u32());
        let ext_qos = QoSType::rand();
        let with_tstamp = random_bool();
        let ext_tstamp = present_if(with_tstamp, TimestampType::rand());
        let ext_nodeid = NodeIdType::rand();
        let body = DeclareBody::rand();
        Declare { interest_id, ext_qos, ext_tstamp, ext_nodeid, body }
    }
}

} // verus!
