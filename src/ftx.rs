use vstd::prelude::*;
pub use crate::book::LOBLevel;
use crate::book::{
    BookError, LimitOrderBook, apply_levels, crossed, level_ok, levels_ok, snapshot_levels,
    snapshot_step, update_step,
};
use crate::checksum::{checksum_holds, crc32_of, lemma_payload_determined};
use crate::decimal::{Decimal, parsed_decimal, scaled_value};

verus! {

/// An operation of a request to the feed.
#[derive(Clone, Copy, Debug, PartialEq, Eq, Structural)]
pub enum FTXOperation {
    Subscribe,
    Unsubscribe,
}

pub open spec fn operation_text(op: FTXOperation) -> Seq<char> {
    match op {
        FTXOperation::Subscribe => "subscribe"@,
        FTXOperation::Unsubscribe => "unsubscribe"@,
    }
}

impl FTXOperation {
    /// The operation's name on the wire.
    pub fn to_string(&self) -> (r: String)
        ensures
            r@ == operation_text(*self),
    {
        match self {
            FTXOperation::Subscribe => "subscribe".to_owned(),
            FTXOperation::Unsubscribe => "unsubscribe".to_owned(),
        }
    }
}

/// A channel of the feed.
#[derive(Clone, Copy, Debug, PartialEq, Eq, Structural)]
pub enum FTXChannel {
    Orderbook,
    Trades,
    Ticker,
}

pub open spec fn channel_text(ch: FTXChannel) -> Seq<char> {
    match ch {
        FTXChannel::Orderbook => "orderbook"@,
        FTXChannel::Ticker => "ticker"@,
        FTXChannel::Trades => "trades"@,
    }
}

impl FTXChannel {
    /// The channel's name on the wire.
    pub fn to_string(&self) -> (r: String)
        ensures
            r@ == channel_text(*self),
    {
        match self {
            FTXChannel::Orderbook => "orderbook".to_owned(),
            FTXChannel::Ticker => "ticker".to_owned(),
            FTXChannel::Trades => "trades".to_owned(),
        }
    }
}

/// An outbound message: a keep-alive, or a request on a channel of a market.
#[derive(Debug)]
pub enum FTXMessage {
    FTXPing,
    FTXRequest { operation: FTXOperation, channel: FTXChannel, market: String },
}

/// The text of a request: `{"op":"<op>","channel":"<channel>","market":"<market>"}`.
pub open spec fn request_text(op: FTXOperation, ch: FTXChannel, market: Seq<char>) -> Seq<char> {
    "{\"op\":\""@ + operation_text(op) + "\",\"channel\":\""@ + channel_text(ch) + "\",\"market\":\""@
        + market + "\"}"@
}

pub open spec fn message_text(m: FTXMessage) -> Seq<char> {
    match m {
        FTXMessage::FTXPing => "{\"op\":\"ping\"}"@,
        FTXMessage::FTXRequest { operation, channel, market } => request_text(
            operation,
            channel,
            market@,
        ),
    }
}

impl FTXMessage {
    /// The message as the text frame sent to the feed.
    pub fn to_string(&self) -> (r: String)
        ensures
            r@ == message_text(*self),
    {
        match self {
            FTXMessage::FTXPing => "{\"op\":\"ping\"}".to_owned(),
            FTXMessage::FTXRequest { operation, channel, market } => {
                let op = operation.to_string();
                let ch = channel.to_string();
                let mut s = "{\"op\":\"".to_owned();
                s.append(op.as_str());
                s.append("\",\"channel\":\"");
                s.append(ch.as_str());
                s.append("\",\"market\":\"");
                s.append(market.as_str());
                s.append("\"}");
                s
            },
        }
    }
}

/// The market name `<base>/<quote>`.
pub open spec fn market_name(base: Seq<char>, quote: Seq<char>) -> Seq<char> {
    base + "/"@ + quote
}

/// A request of an operation on a channel of the market `<base>/<quote>`.
pub fn market_request(operation: FTXOperation, channel: FTXChannel, base: &str, quote: &str) -> (r:
    FTXMessage)
    ensures
        r matches FTXMessage::FTXRequest { operation: o, channel: c, market } && o == operation
            && c == channel && market@ == market_name(base@, quote@),
{
    let mut market = base.to_owned();
    market.append("/");
    market.append(quote);
    FTXMessage::FTXRequest { operation, channel, market }
}

/// The request that subscribes to a channel of the market `<base>/<quote>`.
pub fn subscription_request(channel: FTXChannel, base: &str, quote: &str) -> (r: FTXMessage)
    ensures
        r matches FTXMessage::FTXRequest { operation, channel: c, market } && operation
            == FTXOperation::Subscribe && c == channel && market@ == market_name(base@, quote@),
{
    market_request(FTXOperation::Subscribe, channel, base, quote)
}

/// Acknowledgement of a subscription.
#[derive(Debug)]
pub struct FTXSubscribed {
    pub channel: String,
    pub market: String,
    pub kind: String,
}

/// The book contents carried by a snapshot or an update.
#[derive(Debug)]
pub struct LOBSnapshot {
    pub action: String,
    pub bids: Vec<LOBLevel>,
    pub asks: Vec<LOBLevel>,
    pub checksum: u32,
}

/// A full snapshot of the book.
#[derive(Debug)]
pub struct FTXPartial {
    pub channel: String,
    pub data: LOBSnapshot,
    pub market: String,
    pub kind: String,
}

/// An incremental update of the book.
#[derive(Debug)]
pub struct FTXUpdate {
    pub channel: String,
    pub data: LOBSnapshot,
    pub market: String,
    pub kind: String,
}

/// A decoded message of the feed.
#[derive(Debug)]
pub enum FeedMessage {
    Subscribed(FTXSubscribed),
    Snapshot(FTXPartial),
    Update(FTXUpdate),
}

/// Why a frame could not be decoded.
#[derive(Debug)]
pub enum DecodeError {
    /// A field is missing or a number is no valid price or size.
    MalformedMessage(String),
    /// The frame's type tag is none of the known ones.
    UnrecognizedMessageType(String),
}

/// A price level as it stands in a frame: the text of its two numbers.
#[derive(Debug)]
pub struct RawLevel {
    pub price: String,
    pub size: String,
}

/// The book contents of a frame, numbers still as text.
#[derive(Debug)]
pub struct RawBookData {
    pub action: String,
    pub bids: Vec<RawLevel>,
    pub asks: Vec<RawLevel>,
    pub checksum: u32,
}

/// A frame read as a document; a field it lacks is `None`.
#[derive(Debug)]
pub struct RawFrame {
    pub kind: Option<String>,
    pub channel: Option<String>,
    pub market: Option<String>,
    pub data: Option<RawBookData>,
}

/// The text of a price level is valid: both numbers parse, and the size is not negative.
pub open spec fn raw_level_ok(price: Seq<char>, size: Seq<char>) -> bool {
    &&& parsed_decimal(price).is_some()
    &&& parsed_decimal(size).is_some()
    &&& parsed_decimal(size).unwrap().0 >= 0
}

/// `d` is the decimal that the text denotes.
pub open spec fn denotes(text: Seq<char>, d: Decimal) -> bool {
    &&& parsed_decimal(text).is_some()
    &&& d.wf()
    &&& d.key() == scaled_value(
        parsed_decimal(text).unwrap().0 as int,
        parsed_decimal(text).unwrap().1 as int,
    )
}

pub open spec fn raw_levels_ok(raw: Seq<RawLevel>) -> bool {
    forall|i: int| 0 <= i < raw.len() ==> raw_level_ok(#[trigger] raw[i].price@, raw[i].size@)
}

/// `levels` are the levels that the raw levels denote, one for one.
pub open spec fn levels_denoted(raw: Seq<RawLevel>, levels: Seq<LOBLevel>) -> bool {
    &&& levels.len() == raw.len()
    &&& forall|i: int|
        0 <= i < raw.len() ==> denotes(#[trigger] raw[i].price@, levels[i].price) && denotes(
            raw[i].size@,
            levels[i].size,
        )
}

/// Parses one price level from the text of its two numbers.
pub fn parse_level(price: &str, size: &str) -> (r: Option<LOBLevel>)
    ensures
        r.is_some() <==> raw_level_ok(price@, size@),
        r matches Some(l) ==> level_ok(l) && denotes(price@, l.price) && denotes(size@, l.size),
{
    let p = Decimal::parse(price);
    let s = Decimal::parse(size);
    match (p, s) {
        (Some(p), Some(s)) => {
            if s.is_negative() {
                proof {
                    lemma_sign_of_key(s, parsed_decimal(size@).unwrap());
                }
                None
            } else {
                proof {
                    lemma_sign_of_key(s, parsed_decimal(size@).unwrap());
                }
                Some(LOBLevel { price: p, size: s })
            }
        },
        _ => None,
    }
}

proof fn lemma_sign_of_key(d: Decimal, p: (i128, u32))
    requires
        d.wf(),
        p.1 <= crate::decimal::MAX_SCALE,
        d.key() == scaled_value(p.0 as int, p.1 as int),
    ensures
        (d.mantissa < 0) == (p.0 < 0),
{
    crate::decimal::lemma_pow10_positive((crate::decimal::MAX_SCALE - p.1) as nat);
    crate::decimal::lemma_pow10_positive((crate::decimal::MAX_SCALE - d.scale) as nat);
    let a = crate::decimal::pow10((crate::decimal::MAX_SCALE - d.scale) as nat);
    let b = crate::decimal::pow10((crate::decimal::MAX_SCALE - p.1) as nat);
    assert((d.mantissa < 0) == (d.mantissa * a < 0)) by (nonlinear_arith)
        requires a > 0;
    assert((p.0 < 0) == (p.0 * b < 0)) by (nonlinear_arith)
        requires b > 0;
}

/// Parses every level of a list; `None` as soon as one is not valid.
pub fn parse_levels(raw: &Vec<RawLevel>) -> (r: Option<Vec<LOBLevel>>)
    ensures
        r.is_some() <==> raw_levels_ok(raw@),
        r matches Some(v) ==> levels_ok(v@) && levels_denoted(raw@, v@),
{
    let mut out: Vec<LOBLevel> = Vec::new();
    let mut i: usize = 0;
    while i < raw.len()
        invariant
            0 <= i <= raw@.len(),
            out@.len() == i,
            forall|j: int| 0 <= j < i ==> raw_level_ok(#[trigger] raw@[j].price@, raw@[j].size@),
            levels_ok(out@),
            forall|j: int|
                0 <= j < i ==> denotes(#[trigger] raw@[j].price@, out@[j].price) && denotes(
                    raw@[j].size@,
                    out@[j].size,
                ),
        decreases raw@.len() - i,
    {
        match parse_level(raw[i].price.as_str(), raw[i].size.as_str()) {
            Some(l) => {
                out.push(l);
            },
            None => {
                return None;
            },
        }
        i = i + 1;
    }
    Some(out)
}


/// The type tags this decoder knows.
pub open spec fn tag_known(t: Seq<char>) -> bool {
    t == "subscribed"@ || t == "partial"@ || t == "update"@
}

/// The book contents are present and every level in them is valid.
pub open spec fn data_ok(d: Option<RawBookData>) -> bool {
    d matches Some(d) && raw_levels_ok(d.bids@) && raw_levels_ok(d.asks@)
}

/// `snap` holds what the raw book contents denote.
pub open spec fn carries(snap: LOBSnapshot, d: RawBookData) -> bool {
    &&& snap.action@ == d.action@
    &&& snap.checksum == d.checksum
    &&& levels_ok(snap.bids@)
    &&& levels_ok(snap.asks@)
    &&& levels_denoted(d.bids@, snap.bids@)
    &&& levels_denoted(d.asks@, snap.asks@)
}

fn text_is(s: &String, lit: &str) -> (r: bool)
    ensures
        r == (s@ == lit@),
{
    let t = lit.to_owned();
    s.eq(&t)
}

fn malformed(detail: &str) -> (r: DecodeError)
    ensures
        r is MalformedMessage,
{
    DecodeError::MalformedMessage(detail.to_owned())
}

fn decode_data(d: RawBookData) -> (r: Option<LOBSnapshot>)
    ensures
        r.is_some() <==> data_ok(Some(d)),
        r matches Some(snap) ==> carries(snap, d),
{
    let bids = parse_levels(&d.bids);
    let asks = parse_levels(&d.asks);
    match (bids, asks) {
        (Some(bids), Some(asks)) => Some(
            LOBSnapshot { action: d.action, bids, asks, checksum: d.checksum },
        ),
        _ => None,
    }
}

/// What a frame decodes to: an unknown or missing tag, a missing field or an
/// invalid level is an error; otherwise the message of the tag, carrying the
/// frame's fields and the levels its texts denote.
pub open spec fn decodes_to(raw: RawFrame, r: Result<FeedMessage, DecodeError>) -> bool {
    match raw.kind {
        None => r matches Err(DecodeError::MalformedMessage(_)),
        Some(k) => if !tag_known(k@) {
            match r {
                Err(DecodeError::UnrecognizedMessageType(t)) => t@ == k@,
                _ => false,
            }
        } else {
            match (raw.channel, raw.market) {
                (Some(c), Some(m)) => if k@ == "subscribed"@ {
                    match r {
                        Ok(FeedMessage::Subscribed(s)) => s.channel@ == c@ && s.market@ == m@
                            && s.kind@ == k@,
                        _ => false,
                    }
                } else if !data_ok(raw.data) {
                    r matches Err(DecodeError::MalformedMessage(_))
                } else if k@ == "partial"@ {
                    match r {
                        Ok(FeedMessage::Snapshot(p)) => p.channel@ == c@ && p.market@ == m@
                            && p.kind@ == k@ && carries(p.data, raw.data.unwrap()),
                        _ => false,
                    }
                } else {
                    match r {
                        Ok(FeedMessage::Update(u)) => u.channel@ == c@ && u.market@ == m@
                            && u.kind@ == k@ && carries(u.data, raw.data.unwrap()),
                        _ => false,
                    }
                },
                _ => r matches Err(DecodeError::MalformedMessage(_)),
            }
        },
    }
}

/// Decodes a frame into one message: by its type tag, a subscription
/// acknowledgement, a snapshot or an update. An unknown tag is
/// `UnrecognizedMessageType`; a missing field or an invalid number is
/// `MalformedMessage`.
pub fn decode_frame(raw: RawFrame) -> (r: Result<FeedMessage, DecodeError>)
    ensures
        decodes_to(raw, r),
{
    proof {
        reveal_strlit("subscribed");
        reveal_strlit("partial");
        reveal_strlit("update");
    }
    let kind = match raw.kind {
        Some(k) => k,
        None => {
            return Err(malformed("missing field `type`"));
        },
    };
    let sub = text_is(&kind, "subscribed");
    let partial = text_is(&kind, "partial");
    let update = text_is(&kind, "update");
    if !sub && !partial && !update {
        return Err(DecodeError::UnrecognizedMessageType(kind));
    }
    let (channel, market) = match (raw.channel, raw.market) {
        (Some(c), Some(m)) => (c, m),
        _ => {
            return Err(malformed("missing field `channel` or `market`"));
        },
    };
    if sub {
        return Ok(FeedMessage::Subscribed(FTXSubscribed { channel, market, kind }));
    }
    let data = match raw.data {
        Some(d) => d,
        None => {
            return Err(malformed("missing field `data`"));
        },
    };
    match decode_data(data) {
        Some(snap) => {
            if partial {
                Ok(FeedMessage::Snapshot(FTXPartial { channel, data: snap, market, kind }))
            } else {
                Ok(FeedMessage::Update(FTXUpdate { channel, data: snap, market, kind }))
            }
        },
        None => Err(malformed("invalid price level")),
    }
}


/// Every level a message carries is valid, as the decoder makes them.
pub open spec fn message_ok(msg: FeedMessage) -> bool {
    match msg {
        FeedMessage::Subscribed(_) => true,
        FeedMessage::Snapshot(p) => levels_ok(p.data.bids@) && levels_ok(p.data.asks@),
        FeedMessage::Update(u) => levels_ok(u.data.bids@) && levels_ok(u.data.asks@),
    }
}

/// The book after a message.
pub open spec fn message_step(
    prior: (Map<Decimal, Decimal>, Map<Decimal, Decimal>),
    msg: FeedMessage,
) -> (Map<Decimal, Decimal>, Map<Decimal, Decimal>) {
    match msg {
        FeedMessage::Subscribed(_) => prior,
        FeedMessage::Snapshot(p) => snapshot_step(prior, p.data.bids@, p.data.asks@),
        FeedMessage::Update(u) => update_step(prior, u.data.bids@, u.data.asks@),
    }
}

/// The message leaves bids and asks crossed.
pub open spec fn message_crosses(
    prior: (Map<Decimal, Decimal>, Map<Decimal, Decimal>),
    msg: FeedMessage,
) -> bool {
    match msg {
        FeedMessage::Subscribed(_) => false,
        FeedMessage::Snapshot(p) => crossed(
            snapshot_levels(p.data.bids@),
            snapshot_levels(p.data.asks@),
        ),
        FeedMessage::Update(u) => crossed(
            apply_levels(prior.0, u.data.bids@),
            apply_levels(prior.1, u.data.asks@),
        ),
    }
}

/// The checksum a message carries.
pub open spec fn message_checksum(msg: FeedMessage) -> u32 {
    match msg {
        FeedMessage::Subscribed(_) => 0,
        FeedMessage::Snapshot(p) => p.data.checksum,
        FeedMessage::Update(u) => u.data.checksum,
    }
}

impl LimitOrderBook {
    /// Applies one decoded message: a snapshot replaces the book, an update
    /// applies its diffs, an acknowledgement changes nothing. A message that
    /// leaves the book crossed empties it and returns `CrossedBook`; one whose
    /// checksum differs from the resulting book's empties it and returns
    /// `ChecksumMismatch`.
    pub fn apply_message(&mut self, msg: &FeedMessage) -> (r: Result<(), BookError>)
        requires
            old(self).wf(),
            message_ok(*msg),
        ensures
            final(self).wf(),
            (r == Err::<(), BookError>(BookError::CrossedBook)) == message_crosses(old(self)@, *msg),
            r != Err::<(), BookError>(BookError::ChecksumMismatch) ==> final(self)@ == message_step(
                old(self)@,
                *msg,
            ),
            r == Err::<(), BookError>(BookError::ChecksumMismatch) ==> !(msg is Subscribed)
                && !message_crosses(old(self)@, *msg) && final(self)@ == (
                Map::<Decimal, Decimal>::empty(),
                Map::<Decimal, Decimal>::empty(),
            ),
            r == Ok::<(), BookError>(()) && !(msg is Subscribed) ==> crc32_of(final(self).payload())
                == message_checksum(*msg),
            msg is Subscribed ==> r == Ok::<(), BookError>(()),
            !(msg is Subscribed) && !message_crosses(old(self)@, *msg) ==> (r == Ok::<
                (),
                BookError,
            >(()) <==> checksum_holds(message_step(old(self)@, *msg), message_checksum(*msg))),
    {
        match msg {
            FeedMessage::Subscribed(_) => Ok(()),
            FeedMessage::Snapshot(p) => match self.apply_snapshot(&p.data.bids, &p.data.asks) {
                Ok(()) => {
                    let actual = self.checksum();
                    let ghost applied = *self;
                    let r = self.check_checksum(p.data.checksum, actual);
                    proof {
                        lemma_checksum_outcome(applied, p.data.checksum, actual);
                    }
                    r
                },
                Err(e) => Err(e),
            },
            FeedMessage::Update(u) => match self.apply_update(&u.data.bids, &u.data.asks) {
                Ok(()) => {
                    let actual = self.checksum();
                    let ghost applied = *self;
                    let r = self.check_checksum(u.data.checksum, actual);
                    proof {
                        lemma_checksum_outcome(applied, u.data.checksum, actual);
                    }
                    r
                },
                Err(e) => Err(e),
            },
        }
    }
}

proof fn lemma_checksum_outcome(applied: LimitOrderBook, expected: u32, actual: u32)
    requires
        applied.wf(),
        actual == crc32_of(applied.payload()),
    ensures
        (expected == actual) == checksum_holds(applied@, expected),
{
    if expected == actual {
        assert forall|b: LimitOrderBook| b.wf() && b@ == applied@ implies #[trigger] crc32_of(b.payload())
            == expected by {
            lemma_payload_determined(applied, b);
        }
    } else {
        assert(crc32_of(applied.payload()) != expected);
    }
}

} // verus!
