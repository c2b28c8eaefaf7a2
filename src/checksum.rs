use vstd::prelude::*;
use crate::book::{BookError, LOBLevel, LimitOrderBook, OrderBookSide, lemma_levels_determined};
use crate::decimal::Decimal;
use crate::decimal::float_text;

verus! {

/// How many levels of each side the checksum covers.
pub const CHECKSUM_DEPTH: usize = 100;

/// The CRC-32 (IEEE) of a text's UTF-8 bytes.
pub uninterp spec fn crc32_of(text: Seq<char>) -> u32;

/// Relies on `crc32fast::hash`: the CRC-32 (IEEE) of the given bytes.
#[verifier::external_body]
fn crc32_text(text: &str) -> (r: u32)
    ensures
        r == crc32_of(text@),
{
    crc32fast::hash(text.as_bytes())
}

/// A level as the checksum writes it: `<price>:<size>`, both in float format.
pub open spec fn level_text(l: LOBLevel) -> Seq<char> {
    float_text(l.price) + ":"@ + float_text(l.size)
}

/// Row `i` of the checksum: the `i`-th best bid, then the `i`-th best ask,
/// each where the side has one.
pub open spec fn row_items(bids: Seq<LOBLevel>, asks: Seq<LOBLevel>, i: int) -> Seq<Seq<char>> {
    (if i < bids.len() {
        seq![level_text(bids[i])]
    } else {
        Seq::empty()
    }) + (if i < asks.len() {
        seq![level_text(asks[i])]
    } else {
        Seq::empty()
    })
}

/// The items of the first `n` rows.
pub open spec fn payload_items(bids: Seq<LOBLevel>, asks: Seq<LOBLevel>, n: nat) -> Seq<Seq<char>>
    decreases n,
{
    if n == 0 {
        Seq::empty()
    } else {
        payload_items(bids, asks, (n - 1) as nat) + row_items(bids, asks, n - 1)
    }
}

/// The items joined by `:`.
pub open spec fn join(items: Seq<Seq<char>>) -> Seq<char>
    decreases items.len(),
{
    if items.len() == 0 {
        Seq::empty()
    } else if items.len() == 1 {
        items[0]
    } else {
        join(items.drop_last()) + ":"@ + items.last()
    }
}

/// The text the checksum is taken of: the best `CHECKSUM_DEPTH` levels of
/// each side, bids and asks interleaved, best first.
pub open spec fn checksum_payload(bids: Seq<LOBLevel>, asks: Seq<LOBLevel>) -> Seq<char> {
    join(payload_items(bids, asks, CHECKSUM_DEPTH as nat))
}

pub open spec fn levels_wf(s: Seq<LOBLevel>) -> bool {
    forall|i: int| 0 <= i < s.len() ==> (#[trigger] s[i]).price.wf() && s[i].size.wf()
}

fn append_item(out: &mut String, item: &str, first: bool, Ghost(items): Ghost<Seq<Seq<char>>>)
    requires
        old(out)@ == join(items),
        first == (items.len() == 0),
    ensures
        final(out)@ == join(items.push(item@)),
{
    proof {
        assert(items.push(item@).drop_last() =~= items);
    }
    if first {
        proof {
            assert(old(out)@ =~= Seq::<char>::empty());
        }
        out.append(item);
        proof {
            assert(out@ =~= item@);
        }
    } else {
        out.append(":");
        out.append(item);
    }
}

/// The checksum text of two sides given best first.
pub fn checksum_text(bids: &Vec<LOBLevel>, asks: &Vec<LOBLevel>) -> (r: String)
    requires
        levels_wf(bids@),
        levels_wf(asks@),
    ensures
        r@ == checksum_payload(bids@, asks@),
{
    proof {
        reveal_strlit("");
    }
    let mut out = "".to_owned();
    let mut first = true;
    let mut i: usize = 0;
    while i < CHECKSUM_DEPTH
        invariant
            0 <= i <= CHECKSUM_DEPTH,
            levels_wf(bids@),
            levels_wf(asks@),
            out@ == join(payload_items(bids@, asks@, i as nat)),
            first == (payload_items(bids@, asks@, i as nat).len() == 0),
        decreases CHECKSUM_DEPTH - i,
    {
        let ghost items = payload_items(bids@, asks@, i as nat);
        let ghost mid = items;
        if i < bids.len() {
            let t = level_string(&bids[i]);
            append_item(&mut out, t.as_str(), first, Ghost(items));
            proof {
                mid = items.push(t@);
            }
            first = false;
        }
        if i < asks.len() {
            let t = level_string(&asks[i]);
            append_item(&mut out, t.as_str(), first, Ghost(mid));
            proof {
                mid = mid.push(t@);
            }
            first = false;
        }
        proof {
            assert(mid =~= payload_items(bids@, asks@, (i + 1) as nat));
        }
        i = i + 1;
    }
    out
}

fn level_string(l: &LOBLevel) -> (r: String)
    requires
        l.price.wf(),
        l.size.wf(),
    ensures
        r@ == level_text(*l),
{
    let mut t = l.price.float_text();
    t.append(":");
    let s = l.size.float_text();
    t.append(s.as_str());
    t
}

/// The book with bids and asks `model` has the checksum `expected`. A
/// well-formed book is fixed by its bids and asks, so this speaks of one book.
pub open spec fn checksum_holds(
    model: (Map<Decimal, Decimal>, Map<Decimal, Decimal>),
    expected: u32,
) -> bool {
    forall|b: LimitOrderBook| b.wf() && b@ == model ==> #[trigger] crc32_of(b.payload()) == expected
}

/// Well-formed books with the same bids and asks have the same checksum text.
pub proof fn lemma_payload_determined(a: LimitOrderBook, b: LimitOrderBook)
    requires
        a.wf(),
        b.wf(),
        a@ == b@,
    ensures
        a.payload() == b.payload(),
{
    lemma_levels_determined(a.bids.levels@, b.bids.levels@);
    lemma_levels_determined(a.asks.levels@, b.asks.levels@);
}

impl LimitOrderBook {
    /// The checksum text of the book: its best levels, bids and asks interleaved.
    pub open spec fn payload(&self) -> Seq<char> {
        checksum_payload(self.bids.levels@.reverse(), self.asks.levels@)
    }

    /// The book's checksum, to hold against the one the feed sends.
    pub fn checksum(&self) -> (r: u32)
        requires
            self.wf(),
        ensures
            r == crc32_of(self.payload()),
    {
        let b = self.bid_levels();
        let a = self.ask_levels();
        let t = checksum_text(&b, &a);
        crc32_text(t.as_str())
    }

    /// Holds the feed's checksum against the book's: on a match the book stays
    /// as it is, on a mismatch it is emptied and `ChecksumMismatch` returned.
    pub fn check_checksum(&mut self, expected: u32, actual: u32) -> (r: Result<(), BookError>)
        requires
            old(self).wf(),
        ensures
            final(self).wf(),
            expected == actual ==> r == Ok::<(), BookError>(())
                && final(self).bids.levels@ == old(self).bids.levels@
                && final(self).asks.levels@ == old(self).asks.levels@,
            expected != actual ==> r == Err::<(), BookError>(BookError::ChecksumMismatch)
                && final(self)@ == (Map::<Decimal, Decimal>::empty(), Map::<Decimal, Decimal>::empty()),
    {
        if expected == actual {
            Ok(())
        } else {
            self.bids = OrderBookSide::new();
            self.asks = OrderBookSide::new();
            Err(BookError::ChecksumMismatch)
        }
    }
}

} // verus!
