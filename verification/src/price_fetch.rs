//! The price-fetch pallet: price points fetched from remote sources, their
//! indices by token and by source, and the aggregated prices.

use crate::dispatch::{
    DispatchError, Origin, TransactionValidity, ensure_none, provides_only, valid_providing,
};
use crate::encode::{
    encode_agg_tag, encode_price_tag, lemma_bytes_injective, lemma_u64_injective, scale_bytes,
    scale_u64,
};
use crate::json::{JsonValue, NumberValue, members, low_bytes, get_bytes, vecchars_to_vecbytes};
use crate::linked_map::{bytes_eq, LinkedMap, lookup, put, lemma_put, has_key, key_index, keys_unique};
use vstd::prelude::*;
use vstd::slice::slice_to_vec;
use vstd::string::StringSliceAdditionalSpecFns;
use vstd::utf8::valid_utf8;

verus! {

/// A block height.
pub type BlockNumber = u64;

/// A timestamp, as the timestamp pallet keeps it.
pub type Moment = u64;

/// The price points stored under `k` (none when `k` is absent).
pub open spec fn ids_of(s: Seq<(Seq<u8>, Seq<u32>)>, k: Seq<u8>) -> Seq<u32> {
    match lookup(s, k) {
        Some(v) => v,
        None => Seq::empty(),
    }
}

/// The counter stored under `k` (0 when `k` is absent).
pub open spec fn count_of(s: Seq<(Seq<u8>, u32)>, k: Seq<u8>) -> u32 {
    match lookup(s, k) {
        Some(c) => c,
        None => 0,
    }
}

/// Every index stored in `s` is below `n`.
pub open spec fn ids_below(s: Seq<(Seq<u8>, Seq<u32>)>, n: nat) -> bool {
    forall|i: int, j: int| 0 <= i < s.len() && 0 <= j < s[i].1.len() ==> #[trigger] s[i].1[j] < n
}

/// The last `freq` of `ids`, or all of them when there are fewer.
pub open spec fn recent(ids: Seq<u32>, freq: nat) -> Seq<u32> {
    if ids.len() > freq {
        ids.subrange(ids.len() - freq, ids.len() as int)
    } else {
        ids
    }
}

/// The sum of the prices of the points `ids` of `pts`.
pub open spec fn sum_prices(pts: Seq<(Moment, u64)>, ids: Seq<u32>) -> nat
    decreases ids.len(),
{
    if ids.len() == 0 {
        0
    } else {
        sum_prices(pts, ids.drop_last()) + (pts[ids.last() as int].1 as nat)
    }
}

/// `sum / n` rounded to the nearest integer, halves rounded up; 0 when
/// `n` is 0.
pub open spec fn rounded_mean(sum: nat, n: nat) -> nat {
    if n == 0 {
        0
    } else {
        (2 * sum + n) / (2 * n)
    }
}

/// The aggregated price of token `sym` over the last `freq` of its fetched
/// points (over all of them when it has fewer): the mean of their prices
/// rounded to the nearest integer, 0 when there are none; `None` when the
/// sum of their prices exceeds `u64::MAX`.
pub open spec fn aggregate_of(
    pts: Seq<(Moment, u64)>,
    token_src: Seq<(Seq<u8>, Seq<u32>)>,
    sym: Seq<u8>,
    freq: nat,
) -> Option<nat> {
    let sel = recent(ids_of(token_src, sym), freq);
    let sum = sum_prices(pts, sel);
    if sum > u64::MAX {
        None
    } else {
        Some(rounded_mean(sum, sel.len()))
    }
}

/// Every one of `ids` is below `n`.
pub open spec fn all_below(ids: Seq<u32>, n: nat) -> bool {
    forall|j: int| 0 <= j < ids.len() ==> #[trigger] ids[j] < n
}

/// Calls that the pallet accepts.
#[derive(Debug)]
pub enum Call {
    /// Records a fetched price; `crypto_info` is the token, the remote
    /// source and the URL that it was fetched from.
    RecordPrice { block: BlockNumber, crypto_info: (Vec<u8>, Vec<u8>, Vec<u8>), price: u64 },
    /// Records an aggregated price of `sym`.
    RecordAggPp { block: BlockNumber, sym: Vec<u8>, price: u64 },
}

/// `c` records the aggregated price `price` of `sym` at block `block`.
pub open spec fn is_record_agg_pp(c: Call, block: BlockNumber, sym: Seq<u8>, price: nat) -> bool {
    c matches Call::RecordAggPp { block: b, sym: s, price: p } && b == block && s@ == sym && p
        == price
}

/// Every byte string in `c` is short enough to be encoded.
pub open spec fn encodable(c: Call) -> bool {
    match c {
        Call::RecordPrice { crypto_info, .. } => crypto_info.0@.len() <= u32::MAX
            && crypto_info.1@.len() <= u32::MAX,
        Call::RecordAggPp { sym, .. } => sym@.len() <= u32::MAX,
    }
}

/// The tag that an unsigned `c` provides to the transaction pool: the SCALE
/// encoding of the block, the token, the source (for a fetched price) and
/// the price.
pub open spec fn unsigned_tag(c: Call) -> Seq<u8> {
    match c {
        Call::RecordPrice { block, crypto_info, price } => scale_u64(block) + scale_bytes(
            crypto_info.0@,
        ) + scale_bytes(crypto_info.1@) + scale_u64(price),
        Call::RecordAggPp { block, sym, price } => scale_u64(block) + scale_bytes(sym@)
            + scale_u64(price),
    }
}

/// Both calls may come unsigned: each is valid, and provides the tag that
/// identifies its block, token, source and price.
pub fn validate_unsigned(call: &Call) -> (r: TransactionValidity)
    requires
        encodable(*call),
    ensures
        r matches Ok(v) && provides_only(v, unsigned_tag(*call)),
{
    match call {
        Call::RecordPrice { block, crypto_info, price } => Ok(
            valid_providing(encode_price_tag(*block, &crypto_info.0, &crypto_info.1, *price)),
        ),
        Call::RecordAggPp { block, sym, price } => Ok(
            valid_providing(encode_agg_tag(*block, sym, *price)),
        ),
    }
}

/// The tokens whose prices the offchain worker fetches, each with the remote
/// source that quotes it and the URL of the quote.
pub open spec fn fetched_cryptos_spec() -> Seq<(Seq<u8>, Seq<u8>, Seq<u8>)> {
    seq![
        ("BTC".spec_bytes(), "coincap".spec_bytes(), "https://api.coincap.io/v2/assets/bitcoin".spec_bytes()),
        ("BTC".spec_bytes(), "cryptocompare".spec_bytes(),
            "https://min-api.cryptocompare.com/data/price?fsym=BTC&tsyms=USD".spec_bytes()),
        ("ETH".spec_bytes(), "coincap".spec_bytes(), "https://api.coincap.io/v2/assets/ethereum".spec_bytes()),
        ("ETH".spec_bytes(), "cryptocompare".spec_bytes(),
            "https://min-api.cryptocompare.com/data/price?fsym=ETH&tsyms=USD".spec_bytes()),
        ("DAI".spec_bytes(), "coincap".spec_bytes(), "https://api.coincap.io/v2/assets/dai".spec_bytes()),
        ("DAI".spec_bytes(), "cryptocompare".spec_bytes(),
            "https://min-api.cryptocompare.com/data/price?fsym=DAI&tsyms=USD".spec_bytes()),
    ]
}

/// The token, remote source and URL of `e`.
pub open spec fn crypto_view(e: (Vec<u8>, Vec<u8>, Vec<u8>)) -> (Seq<u8>, Seq<u8>, Seq<u8>) {
    (e.0@, e.1@, e.2@)
}

/// The tokens whose prices the offchain worker fetches.
pub fn fetched_cryptos() -> (r: Vec<(Vec<u8>, Vec<u8>, Vec<u8>)>)
    ensures
        r@.map_values(|e| crypto_view(e)) == fetched_cryptos_spec(),
{
    let mut r: Vec<(Vec<u8>, Vec<u8>, Vec<u8>)> = Vec::new();
    r.push(("BTC".as_bytes_vec(), "coincap".as_bytes_vec(),
        "https://api.coincap.io/v2/assets/bitcoin".as_bytes_vec()));
    r.push(("BTC".as_bytes_vec(), "cryptocompare".as_bytes_vec(),
        "https://min-api.cryptocompare.com/data/price?fsym=BTC&tsyms=USD".as_bytes_vec()));
    r.push(("ETH".as_bytes_vec(), "coincap".as_bytes_vec(),
        "https://api.coincap.io/v2/assets/ethereum".as_bytes_vec()));
    r.push(("ETH".as_bytes_vec(), "cryptocompare".as_bytes_vec(),
        "https://min-api.cryptocompare.com/data/price?fsym=ETH&tsyms=USD".as_bytes_vec()));
    r.push(("DAI".as_bytes_vec(), "coincap".as_bytes_vec(),
        "https://api.coincap.io/v2/assets/dai".as_bytes_vec()));
    r.push(("DAI".as_bytes_vec(), "cryptocompare".as_bytes_vec(),
        "https://min-api.cryptocompare.com/data/price?fsym=DAI&tsyms=USD".as_bytes_vec()));
    assert(r@.map_values(|e| crypto_view(e)) =~= fetched_cryptos_spec());
    r
}

/// What the offchain worker asks its host to do.
#[derive(Debug)]
pub enum OffchainAction {
    /// Fetch the price of `sym` from `remote_src` at `remote_url`, and
    /// submit it unsigned as a `Call::RecordPrice`.
    FetchPrice { sym: Vec<u8>, remote_src: Vec<u8>, remote_url: Vec<u8> },
    /// Submit this call unsigned.
    SubmitUnsigned(Call),
    /// The prices to aggregate for this token sum to more than a `u64` holds.
    AggregateOverflow(Vec<u8>),
}

/// Prices are fetched at every block that is a multiple of a nonzero
/// `duration`; a zero `duration` turns fetching off.
pub open spec fn fetch_due(block: BlockNumber, duration: BlockNumber) -> bool {
    duration > 0 && block % duration == 0
}

/// `a` fetches the price described by `c`.
pub open spec fn is_fetch(a: OffchainAction, c: (Seq<u8>, Seq<u8>, Seq<u8>)) -> bool {
    a matches OffchainAction::FetchPrice { sym, remote_src, remote_url } && sym@ == c.0
        && remote_src@ == c.1 && remote_url@ == c.2
}

/// `a` handles the aggregation of the last `freq` fetched prices of `sym`:
/// it submits the call that records their aggregate, or reports that their
/// sum overflows.
pub open spec fn is_aggregation(
    a: OffchainAction,
    pts: Seq<(Moment, u64)>,
    token_src: Seq<(Seq<u8>, Seq<u32>)>,
    block: BlockNumber,
    sym: Seq<u8>,
    freq: nat,
) -> bool {
    match aggregate_of(pts, token_src, sym, freq) {
        Some(avg) => a matches OffchainAction::SubmitUnsigned(c) && is_record_agg_pp(c, block, sym, avg),
        None => a matches OffchainAction::AggregateOverflow(s) && s@ == sym,
    }
}

/// `a` aggregates the last `c` of the points `ids` of token `sym`: when
/// their prices sum to at most `u64::MAX` it submits the call that records,
/// at `block`, the integer `p` nearest their mean (halves rounded up: `2cp <=
/// 2·sum + c < 2c(p + 1)`), or 0 when `c` is 0; otherwise it reports the
/// overflow.
pub open spec fn averages_window(
    a: OffchainAction,
    pts: Seq<(Moment, u64)>,
    ids: Seq<u32>,
    block: BlockNumber,
    sym: Seq<u8>,
    c: nat,
) -> bool {
    let w = ids.subrange(ids.len() - c, ids.len() as int);
    let sum = sum_prices(pts, w);
    &&& c <= ids.len()
    &&& sum > u64::MAX ==> (a matches OffchainAction::AggregateOverflow(t) && t@ == sym)
    &&& sum <= u64::MAX ==> (a matches OffchainAction::SubmitUnsigned(
        Call::RecordAggPp { block: b, sym: t, price: p },
    ) && b == block && t@ == sym && (c == 0 ==> p == 0) && (c > 0 ==> 2 * c * p <= 2 * sum + c < 2
        * c * (p + 1)))
}

/// The tokens with prices waiting for aggregation, in the order storage is walked (newest token first).
pub open spec fn pending_tokens(pending: Seq<(Seq<u8>, u32)>) -> Seq<(Seq<u8>, u32)> {
    pending.filter(|e: (Seq<u8>, u32)| e.1 > 0)
}

/// The remote sources whose quotes the pallet reads.
#[derive(Clone, Copy, Debug, PartialEq, Eq, Structural)]
pub enum RemoteSource {
    /// Quotes shaped `{"data": {..., "priceUsd": "8172.26", ...}, ...}`.
    Coincap,
    /// Quotes shaped `{"USD": 7064.16}`.
    Cryptocompare,
}

/// Why a fetched quote yields no price.
#[derive(Clone, Copy, Debug, PartialEq, Eq, Structural)]
pub enum FetchError {
    /// The source is neither coincap nor cryptocompare.
    UnknownRemoteSource,
    /// A coincap quote without a `priceUsd` member in its data.
    CoincapFormat,
}

/// The source named `remote_src`, if the pallet reads it.
pub open spec fn source_of(remote_src: Seq<u8>) -> Option<RemoteSource> {
    if remote_src == "coincap".spec_bytes() {
        Some(RemoteSource::Coincap)
    } else if remote_src == "cryptocompare".spec_bytes() {
        Some(RemoteSource::Cryptocompare)
    } else {
        None
    }
}

/// A member name that reads `priceUsd` once each character is cut to a byte.
pub open spec fn is_price_usd(k: Seq<char>) -> bool {
    low_bytes(k) == "priceUsd".spec_bytes()
}

/// `i` is the first member of `d` named `priceUsd`.
pub open spec fn is_first_price_usd(d: Seq<(Vec<char>, JsonValue)>, i: int) -> bool {
    &&& 0 <= i < d.len()
    &&& is_price_usd(d[i].0@)
    &&& forall|j: int| 0 <= j < i ==> !is_price_usd(#[trigger] d[j].0@)
}

/// The members of the first member of a coincap quote.
pub open spec fn coincap_data(j: JsonValue) -> Seq<(Vec<char>, JsonValue)> {
    members(members(j)[0].1)
}

/// A coincap quote as the pallet reads it: an object whose first member is
/// an object, whose first `priceUsd` member, if any, is a string.
pub open spec fn coincap_shape(j: JsonValue) -> bool {
    &&& j is Object
    &&& members(j).len() > 0
    &&& members(j)[0].1 is Object
    &&& forall|i: int| is_first_price_usd(coincap_data(j), i) ==> (#[trigger] coincap_data(j)[i]).1 is String
}

/// A cryptocompare quote as the pallet reads it: an object whose first
/// member is a number.
pub open spec fn cryptocompare_shape(j: JsonValue) -> bool {
    &&& j is Object
    &&& members(j).len() > 0
    &&& members(j)[0].1 is Number
}

/// A quote from `remote_src` has the shape that its source is read with.
pub open spec fn quote_readable(remote_src: Seq<u8>, j: JsonValue) -> bool {
    match source_of(remote_src) {
        Some(RemoteSource::Coincap) => coincap_shape(j),
        Some(RemoteSource::Cryptocompare) => cryptocompare_shape(j),
        None => true,
    }
}

/// The price in a quote, as the source writes it.
#[derive(Debug)]
pub enum PriceReading {
    /// A decimal number written out in text, such as `222.333`.
    Decimal(Vec<u8>),
    /// A JSON number.
    Number(NumberValue),
}

/// Events that the pallet deposits.
#[derive(Debug)]
pub enum Event {
    /// A price of `sym` fetched from a remote source, with its time.
    FetchedPrice(Vec<u8>, Vec<u8>, Moment, u64),
    /// An aggregated price of `sym`, with its time.
    AggregatedPrice(Vec<u8>, Moment, u64),
}

/// The pallet's storage.
pub struct PriceFetch {
    /// Per token, how many prices were recorded since its last aggregation.
    update_agg_pp: LinkedMap<u32>,
    /// Fetched price points `(time, price)`; a price is in USD times 10,000.
    src_price_pts: Vec<(Moment, u64)>,
    /// Per token, the indices of its fetched price points.
    token_src_pp_map: LinkedMap<Vec<u32>>,
    /// Per remote source, the indices of the price points fetched from it.
    remote_src_pp_map: LinkedMap<Vec<u32>>,
    /// Aggregated price points `(time, price)`.
    agg_price_pts: Vec<(Moment, u64)>,
    /// Per token, the indices of its aggregated price points.
    token_agg_pp_map: LinkedMap<Vec<u32>>,
}

impl PriceFetch {
    /// Per token, the number of prices recorded since its last aggregation.
    pub closed spec fn pending(&self) -> Seq<(Seq<u8>, u32)> {
        self.update_agg_pp@
    }

    /// The fetched price points.
    pub closed spec fn src_points(&self) -> Seq<(Moment, u64)> {
        self.src_price_pts@
    }

    /// Per token, the indices of its fetched price points.
    pub closed spec fn token_src(&self) -> Seq<(Seq<u8>, Seq<u32>)> {
        self.token_src_pp_map@
    }

    /// Per remote source, the indices of the price points fetched from it.
    pub closed spec fn remote_src(&self) -> Seq<(Seq<u8>, Seq<u32>)> {
        self.remote_src_pp_map@
    }

    /// The aggregated price points.
    pub closed spec fn agg_points(&self) -> Seq<(Moment, u64)> {
        self.agg_price_pts@
    }

    /// Per token, the indices of its aggregated price points.
    pub closed spec fn token_agg(&self) -> Seq<(Seq<u8>, Seq<u32>)> {
        self.token_agg_pp_map@
    }

    /// The storage is consistent: keys are unique in every map, every index
    /// names a stored point, and no token has more pending prices than
    /// fetched points.
    pub closed spec fn wf(&self) -> bool {
        &&& keys_unique(self.pending())
        &&& keys_unique(self.token_src())
        &&& keys_unique(self.remote_src())
        &&& keys_unique(self.token_agg())
        &&& ids_below(self.token_src(), self.src_points().len())
        &&& ids_below(self.remote_src(), self.src_points().len())
        &&& ids_below(self.token_agg(), self.agg_points().len())
        &&& forall|k: Seq<u8>| #[trigger] count_of(self.pending(), k) <= ids_of(self.token_src(), k).len()
    }

    /// `next` is this storage after recording price `price` of token `sym`
    /// from source `remote_src` at time `now`: the point is appended and its
    /// index, the old number of points, is appended to the token's and to
    /// the source's indices; the token's pending count grows by one; nothing
    /// else changes.
    pub open spec fn records_price(
        &self,
        next: &Self,
        sym: Seq<u8>,
        remote_src: Seq<u8>,
        now: Moment,
        price: u64,
    ) -> bool {
        let id = self.src_points().len() as u32;
        &&& next.src_points() == self.src_points().push((now, price))
        &&& next.token_src() == put(self.token_src(), sym, ids_of(self.token_src(), sym).push(id))
        &&& next.remote_src() == put(
            self.remote_src(),
            remote_src,
            ids_of(self.remote_src(), remote_src).push(id),
        )
        &&& next.pending() == put(self.pending(), sym, (count_of(self.pending(), sym) + 1) as u32)
        &&& next.agg_points() == self.agg_points()
        &&& next.token_agg() == self.token_agg()
    }

    /// `next` is this storage after recording the aggregated price `price`
    /// of token `sym` at time `now`: the point is appended, its index is
    /// appended to the token's aggregated indices, and the token's pending
    /// count becomes 0; nothing else changes.
    pub open spec fn records_agg_pp(&self, next: &Self, sym: Seq<u8>, now: Moment, price: u64) -> bool {
        let id = self.agg_points().len() as u32;
        &&& next.agg_points() == self.agg_points().push((now, price))
        &&& next.token_agg() == put(self.token_agg(), sym, ids_of(self.token_agg(), sym).push(id))
        &&& next.pending() == put(self.pending(), sym, 0u32)
        &&& next.src_points() == self.src_points()
        &&& next.token_src() == self.token_src()
        &&& next.remote_src() == self.remote_src()
    }

    /// Empty storage.
    pub fn new() -> (s: Self)
        ensures
            s.wf(),
            s.pending().len() == 0,
            s.src_points().len() == 0,
            s.token_src().len() == 0,
            s.remote_src().len() == 0,
            s.agg_points().len() == 0,
            s.token_agg().len() == 0,
    {
        PriceFetch {
            update_agg_pp: LinkedMap::new(),
            src_price_pts: Vec::new(),
            token_src_pp_map: LinkedMap::new(),
            remote_src_pp_map: LinkedMap::new(),
            agg_price_pts: Vec::new(),
            token_agg_pp_map: LinkedMap::new(),
        }
    }
}

/// A sum over a prefix of the points is at most the sum over all of them.
proof fn lemma_sum_prefix_le(pts: Seq<(Moment, u64)>, ids: Seq<u32>, k: int)
    requires
        0 <= k <= ids.len(),
    ensures
        sum_prices(pts, ids.take(k)) <= sum_prices(pts, ids),
    decreases ids.len(),
{
    if k < ids.len() {
        lemma_sum_prefix_le(pts, ids.drop_last(), k);
        assert(ids.drop_last().take(k) =~= ids.take(k));
    } else {
        assert(ids.take(k) =~= ids);
    }
}

/// The sum of the prices of `ids` when every one of them lies in `[lo, hi]`.
proof fn lemma_sum_between(pts: Seq<(Moment, u64)>, ids: Seq<u32>, lo: nat, hi: nat)
    requires
        forall|j: int| 0 <= j < ids.len() ==> lo <= #[trigger] pts[ids[j] as int].1 <= hi,
    ensures
        ids.len() * lo <= sum_prices(pts, ids) <= ids.len() * hi,
    decreases ids.len(),
{
    if ids.len() > 0 {
        let rest = ids.drop_last();
        assert forall|j: int| 0 <= j < rest.len() implies lo <= #[trigger] pts[rest[j] as int].1
            <= hi by {
            assert(rest[j] == ids[j]);
        }
        lemma_sum_between(pts, rest, lo, hi);
        let p = pts[ids.last() as int].1;
        assert(lo <= p <= hi) by {
            assert(ids[ids.len() - 1] == ids.last());
        }
        assert(rest.len() * lo + lo == ids.len() * lo) by (nonlinear_arith)
            requires
                rest.len() + 1 == ids.len(),
        ;
        assert(rest.len() * hi + hi == ids.len() * hi) by (nonlinear_arith)
            requires
                rest.len() + 1 == ids.len(),
        ;
    }
}

/// The rounded mean of `n` values in `[lo, hi]` lies in `[lo, hi]`.
proof fn lemma_mean_between(sum: nat, n: nat, lo: nat, hi: nat)
    requires
        n > 0,
        n * lo <= sum <= n * hi,
    ensures
        lo <= rounded_mean(sum, n) <= hi,
{
    let q = (2 * sum + n) / (2 * n);
    assert(2 * n * lo <= 2 * sum + n) by (nonlinear_arith)
        requires
            n * lo <= sum,
    ;
    assert(2 * sum + n < 2 * n * (hi + 1)) by (nonlinear_arith)
        requires
            sum <= n * hi,
            n > 0,
    ;
    assert(lo <= q) by (nonlinear_arith)
        requires
            2 * n * lo <= 2 * sum + n,
            n > 0,
            q == (2 * sum + n) / (2 * n),
    ;
    assert(q <= hi) by (nonlinear_arith)
        requires
            2 * sum + n < 2 * n * (hi + 1),
            n > 0,
            q == (2 * sum + n) / (2 * n),
    ;
}

/// Law: the aggregated price of a non-empty set of points lies between the
/// lowest and the highest of their prices; in particular the aggregate of
/// equal prices is that price.
pub proof fn lemma_aggregate_within_range(pts: Seq<(Moment, u64)>, ids: Seq<u32>, lo: nat, hi: nat)
    requires
        ids.len() > 0,
        forall|j: int| 0 <= j < ids.len() ==> lo <= #[trigger] pts[ids[j] as int].1 <= hi,
    ensures
        lo <= rounded_mean(sum_prices(pts, ids), ids.len()) <= hi,
{
    lemma_sum_between(pts, ids, lo, hi);
    lemma_mean_between(sum_prices(pts, ids), ids.len(), lo, hi);
}

/// Appends `id` to the indices stored under `key`.
fn push_id(map: &mut LinkedMap<Vec<u32>>, key: &Vec<u8>, id: u32)
    requires
        old(map).wf(),
    ensures
        final(map).wf(),
        final(map)@ == put(old(map)@, key@, ids_of(old(map)@, key@).push(id)),
{
    let mut ids: Vec<u32> = match map.position(key.as_slice()) {
        Some(i) => slice_to_vec(map.value_at(i).as_slice()),
        None => Vec::new(),
    };
    ids.push(id);
    map.put(slice_to_vec(key.as_slice()), ids);
}

/// Whether `j` is shaped as a coincap quote is read.
fn coincap_shape_holds(j: &JsonValue) -> (r: bool)
    ensures
        r == coincap_shape(*j),
{
    let data: &Vec<(Vec<char>, JsonValue)> = match j {
        JsonValue::Object(o) => {
            if o.len() == 0 {
                return false;
            }
            match &o[0].1 {
                JsonValue::Object(d) => d,
                _ => {
                    return false;
                },
            }
        },
        _ => {
            return false;
        },
    };
    let ghost d = coincap_data(*j);
    assert(data@ == d);
    let price_key = "priceUsd".as_bytes();
    let mut i: usize = 0;
    while i < data.len()
        invariant
            i <= d.len(),
            data@ == d,
            d == coincap_data(*j),
            j is Object,
            members(*j).len() > 0,
            members(*j)[0].1 is Object,
            price_key@ == "priceUsd".spec_bytes(),
            forall|k: int| 0 <= k < i ==> !is_price_usd(#[trigger] d[k].0@),
        decreases d.len() - i,
    {
        let k = vecchars_to_vecbytes(&data[i].0);
        if bytes_eq(k.as_slice(), price_key) {
            assert(is_first_price_usd(d, i as int));
            assert forall|x: int| is_first_price_usd(d, x) implies x == i by {
                if x < i {
                    assert(!is_price_usd(d[x].0@));
                }
                if x > i {
                    assert(!is_price_usd(d[i as int].0@));
                }
            }
            return matches!(data[i].1, JsonValue::String(_));
        }
        i = i + 1;
    }
    assert forall|x: int| !is_first_price_usd(d, x) by {
        if 0 <= x < d.len() {
            assert(!is_price_usd(d[x].0@));
        }
    }
    true
}

/// The indices stored under `key` in `map`, none when absent.
fn ids_in(map: &LinkedMap<Vec<u32>>, key: &Vec<u8>) -> (r: Vec<u32>)
    requires
        map.wf(),
    ensures
        r@ == ids_of(map@, key@),
{
    match map.position(key.as_slice()) {
        Some(i) => slice_to_vec(map.value_at(i).as_slice()),
        None => Vec::new(),
    }
}

/// The counter stored under `key` in `map`, 0 when absent.
fn counter(map: &LinkedMap<u32>, key: &Vec<u8>) -> (c: u32)
    requires
        map.wf(),
    ensures
        c == count_of(map@, key@),
{
    match map.position(key.as_slice()) {
        Some(i) => *map.value_at(i),
        None => 0,
    }
}

/// After appending `id` under `k`, every index in `s` is still below `n`
/// when `id` is.
proof fn lemma_push_id_below(s: Seq<(Seq<u8>, Seq<u32>)>, k: Seq<u8>, id: u32, m: nat, n: nat)
    requires
        keys_unique(s),
        ids_below(s, m),
        m <= n,
        id < n,
    ensures
        ids_below(put(s, k, ids_of(s, k).push(id)), n),
{
    let v = ids_of(s, k).push(id);
    let t = put(s, k, v);
    assert forall|i: int, j: int| 0 <= i < t.len() && 0 <= j < t[i].1.len() implies #[trigger] t[i].1[j]
        < n by {
        if has_key(s, k) {
            let p = key_index(s, k);
            if i == p {
                if j < t[i].1.len() - 1 {
                    assert(t[i].1[j] == s[p].1[j]);
                }
            } else {
                assert(t[i] == s[i]);
            }
        } else {
            if i > 0 {
                assert(t[i] == s[i - 1]);
            } else {
                assert(t[0].1 == Seq::<u32>::empty().push(id));
            }
        }
    }
}

impl PriceFetch {
    /// Records a price of `crypto_info.0` fetched from source `crypto_info.1`
    /// at time `now`: the point gets the next index, which is appended to
    /// the token's and the source's indices, and the token's pending count
    /// grows by one. Only an unsigned transaction may call it; any other
    /// origin is refused and nothing changes. The token and the source must
    /// be UTF-8: they are logged as text, and other bytes stop the call.
    pub fn record_price(
        &mut self,
        origin: Origin,
        _block: BlockNumber,
        crypto_info: (Vec<u8>, Vec<u8>, Vec<u8>),
        price: u64,
        now: Moment,
    ) -> (r: Result<Event, DispatchError>)
        requires
            old(self).wf(),
            origin == Origin::Unsigned ==> {
                &&& old(self).src_points().len() <= u32::MAX
                &&& count_of(old(self).pending(), crypto_info.0@) < u32::MAX
                &&& valid_utf8(crypto_info.0@)
                &&& valid_utf8(crypto_info.1@)
            },
        ensures
            final(self).wf(),
            origin == Origin::Unsigned ==> {
                &&& old(self).records_price(&*final(self), crypto_info.0@, crypto_info.1@, now, price)
                &&& r matches Ok(ev) && ev matches Event::FetchedPrice(s, src, t, p) && s@
                    == crypto_info.0@ && src@ == crypto_info.1@ && t == now && p == price
            },
            origin != Origin::Unsigned ==> r == Err::<Event, DispatchError>(DispatchError::BadOrigin)
                && *final(self) == *old(self),
    {
        ensure_none(origin)?;
        let (sym, remote_src, _remote_url) = crypto_info;
        let ghost old_src = self.token_src();
        let ghost old_pending = self.pending();
        let ghost n = self.src_points().len();
        let pp_id: u32 = self.src_price_pts.len() as u32;
        self.src_price_pts.push((now, price));
        push_id(&mut self.token_src_pp_map, &sym, pp_id);
        push_id(&mut self.remote_src_pp_map, &remote_src, pp_id);
        let freq = counter(&self.update_agg_pp, &sym);
        self.update_agg_pp.put(slice_to_vec(sym.as_slice()), freq + 1);
        proof {
            lemma_push_id_below(old_src, sym@, pp_id, n, n + 1);
            lemma_push_id_below(old(self).remote_src(), remote_src@, pp_id, n, n + 1);
            lemma_put(old_src, sym@, ids_of(old_src, sym@).push(pp_id));
            lemma_put(old_pending, sym@, (freq + 1) as u32);
            assert forall|k: Seq<u8>| #[trigger] count_of(self.pending(), k) <= ids_of(
                self.token_src(),
                k,
            ).len() by {
                assert(count_of(old_pending, k) <= ids_of(old_src, k).len());
            }
        }
        Ok(Event::FetchedPrice(sym, remote_src, now, price))
    }

    /// Records an aggregated price of `sym` at time `now`: the point gets
    /// the next index, which is appended to the token's aggregated indices,
    /// and the token's pending count drops to 0. Any origin may call it. The
    /// token must be UTF-8: it is logged as text, and other bytes stop the
    /// call.
    pub fn record_agg_pp(
        &mut self,
        _origin: Origin,
        _block: BlockNumber,
        sym: Vec<u8>,
        price: u64,
        now: Moment,
    ) -> (ev: Event)
        requires
            old(self).wf(),
            old(self).agg_points().len() <= u32::MAX,
            valid_utf8(sym@),
        ensures
            final(self).wf(),
            old(self).records_agg_pp(&*final(self), sym@, now, price),
            ev matches Event::AggregatedPrice(s, t, p) && s@ == sym@ && t == now && p == price,
    {
        let ghost old_pending = self.pending();
        let ghost n = self.agg_points().len();
        let pp_id: u32 = self.agg_price_pts.len() as u32;
        self.agg_price_pts.push((now, price));
        push_id(&mut self.token_agg_pp_map, &sym, pp_id);
        self.update_agg_pp.put(slice_to_vec(sym.as_slice()), 0);
        proof {
            lemma_push_id_below(old(self).token_agg(), sym@, pp_id, n, n + 1);
            lemma_put(old_pending, sym@, 0u32);
            assert forall|k: Seq<u8>| #[trigger] count_of(self.pending(), k) <= ids_of(
                self.token_src(),
                k,
            ).len() by {
                assert(count_of(old_pending, k) <= ids_of(self.token_src(), k).len());
            }
        }
        Event::AggregatedPrice(sym, now, price)
    }

    /// How many prices of `sym` were recorded since its last aggregation.
    pub fn update_agg_pp(&self, sym: &Vec<u8>) -> (c: u32)
        requires
            self.wf(),
        ensures
            c == count_of(self.pending(), sym@),
    {
        counter(&self.update_agg_pp, sym)
    }

    /// The fetched price points, in the order they were recorded.
    pub fn src_price_pts(&self) -> (r: &Vec<(Moment, u64)>)
        ensures
            r@ == self.src_points(),
    {
        &self.src_price_pts
    }

    /// The aggregated price points, in the order they were recorded.
    pub fn agg_price_pts(&self) -> (r: &Vec<(Moment, u64)>)
        ensures
            r@ == self.agg_points(),
    {
        &self.agg_price_pts
    }

    /// The indices of the fetched points of `sym`.
    pub fn token_src_pp(&self, sym: &Vec<u8>) -> (r: Vec<u32>)
        requires
            self.wf(),
        ensures
            r@ == ids_of(self.token_src(), sym@),
    {
        ids_in(&self.token_src_pp_map, sym)
    }

    /// The indices of the points fetched from `remote_src`.
    pub fn remote_src_pp(&self, remote_src: &Vec<u8>) -> (r: Vec<u32>)
        requires
            self.wf(),
        ensures
            r@ == ids_of(self.remote_src(), remote_src@),
    {
        ids_in(&self.remote_src_pp_map, remote_src)
    }

    /// The indices of the aggregated points of `sym`.
    pub fn token_agg_pp(&self, sym: &Vec<u8>) -> (r: Vec<u32>)
        requires
            self.wf(),
        ensures
            r@ == ids_of(self.token_agg(), sym@),
    {
        ids_in(&self.token_agg_pp_map, sym)
    }

    /// The call that records the aggregate of the last `freq` fetched prices
    /// of `sym` at block `block`; `None` when their sum overflows a `u64`.
    pub fn aggregate_pp(&self, block: BlockNumber, sym: &Vec<u8>, freq: usize) -> (r: Option<Call>)
        requires
            self.wf(),
        ensures
            match aggregate_of(self.src_points(), self.token_src(), sym@, freq as nat) {
                Some(avg) => r is Some && is_record_agg_pp(r->0, block, sym@, avg),
                None => r is None,
            },
    {
        let empty: Vec<u32> = Vec::new();
        let pos = self.token_src_pp_map.position(sym.as_slice());
        let ts_pp_vec: &Vec<u32> = match pos {
            Some(i) => self.token_src_pp_map.value_at(i),
            None => &empty,
        };
        let ghost ids = ts_pp_vec@;
        assert(ids == ids_of(self.token_src(), sym@));
        let ghost pts = self.src_points();
        assert(all_below(ids, pts.len())) by {
            if let Some(i) = pos {
                assert forall|j: int| 0 <= j < ids.len() implies #[trigger] ids[j] < pts.len() by {
                    assert(self.token_src()[i as int].1[j] == ids[j]);
                }
            }
        }
        let len = ts_pp_vec.len();
        let amt: usize = if len > freq { freq } else { len };
        let start = len - amt;
        let ghost sel = ids.subrange(start as int, len as int);
        assert(sel == recent(ids, freq as nat));
        let mut price_sum: u64 = 0;
        let mut i = start;
        while i < len
            invariant
                start <= i <= len,
                len == ids.len(),
                ids == ts_pp_vec@,
                pts == self.src_price_pts@,
                all_below(ids, pts.len()),
                sel == ids.subrange(start as int, len as int),
                ids == ids_of(self.token_src(), sym@),
                sel == recent(ids, freq as nat),
                price_sum == sum_prices(pts, ids.subrange(start as int, i as int)),
            decreases len - i,
        {
            let ind = ts_pp_vec[i];
            let p = self.src_price_pts[ind as usize].1;
            assert(ids.subrange(start as int, i + 1).drop_last() =~= ids.subrange(
                start as int,
                i as int,
            ));
            assert(ids.subrange(start as int, i + 1).last() == ind);
            assert(sum_prices(pts, ids.subrange(start as int, i + 1)) == price_sum + p);
            match price_sum.checked_add(p) {
                Some(s) => {
                    price_sum = s;
                },
                None => {
                    proof {
                        assert(sel.take(i + 1 - start) =~= ids.subrange(start as int, i + 1));
                        lemma_sum_prefix_le(pts, sel, i + 1 - start);
                    }
                    return None;
                },
            }
            i = i + 1;
        }
        assert(ids.subrange(start as int, len as int) =~= sel);
        let price_avg: u64 = if amt == 0 {
            0
        } else {
            proof {
                lemma_sum_between(pts, sel, 0, u64::MAX as nat);
                lemma_mean_between(price_sum as nat, amt as nat, 0, u64::MAX as nat);
            }
            let n = amt as u128;
            ((2 * (price_sum as u128) + n) / (2 * n)) as u64
        };
        Some(Call::RecordAggPp { block, sym: slice_to_vec(sym.as_slice()), price: price_avg })
    }

    /// Which of the known sources `remote_src` names.
    pub fn remote_source(remote_src: &[u8]) -> (r: Result<RemoteSource, FetchError>)
        ensures
            r == (match source_of(remote_src@) {
                Some(src) => Ok::<RemoteSource, FetchError>(src),
                None => Err(FetchError::UnknownRemoteSource),
            }),
    {
        if bytes_eq(remote_src, "coincap".as_bytes()) {
            Ok(RemoteSource::Coincap)
        } else if bytes_eq(remote_src, "cryptocompare".as_bytes()) {
            Ok(RemoteSource::Cryptocompare)
        } else {
            Err(FetchError::UnknownRemoteSource)
        }
    }

    /// The price in a cryptocompare quote: its first member.
    pub fn fetch_price_from_cryptocompare(json_val: &JsonValue) -> (r: NumberValue)
        requires
            cryptocompare_shape(*json_val),
        ensures
            members(*json_val)[0].1 == JsonValue::Number(r),
    {
        match json_val {
            JsonValue::Object(o) => match &o[0].1 {
                JsonValue::Number(n) => *n,
                _ => {
                    proof {
                        assert(false);
                    }
                    NumberValue { integer: 0, fraction: 0, fraction_length: 0, exponent: 0 }
                },
            },
            _ => {
                proof {
                    assert(false);
                }
                NumberValue { integer: 0, fraction: 0, fraction_length: 0, exponent: 0 }
            },
        }
    }

    /// The price text in a coincap quote: the bytes of the first `priceUsd`
    /// member of its first member, or an error when there is none.
    pub fn fetch_price_from_coincap(json_val: &JsonValue) -> (r: Result<Vec<u8>, FetchError>)
        requires
            coincap_shape(*json_val),
        ensures
            match r {
                Ok(b) => exists|i: int|
                    is_first_price_usd(coincap_data(*json_val), i) && b@ == low_bytes(
                        (#[trigger] coincap_data(*json_val)[i]).1->String_0@,
                    ),
                Err(e) => e == FetchError::CoincapFormat && forall|i: int|
                    0 <= i < coincap_data(*json_val).len() ==> !is_price_usd(
                        (#[trigger] coincap_data(*json_val)[i]).0@,
                    ),
            },
    {
        let price_key = "priceUsd".as_bytes();
        let data: &Vec<(Vec<char>, JsonValue)> = match json_val {
            JsonValue::Object(o) => match &o[0].1 {
                JsonValue::Object(d) => d,
                _ => {
                    proof {
                        assert(false);
                    }
                    return Err(FetchError::CoincapFormat);
                },
            },
            _ => {
                proof {
                    assert(false);
                }
                return Err(FetchError::CoincapFormat);
            },
        };
        let ghost d = coincap_data(*json_val);
        assert(data@ == d);
        let mut i: usize = 0;
        while i < data.len()
            invariant
                i <= d.len(),
                data@ == d,
                d == coincap_data(*json_val),
                coincap_shape(*json_val),
                price_key@ == "priceUsd".spec_bytes(),
                forall|j: int| 0 <= j < i ==> !is_price_usd(#[trigger] d[j].0@),
            decreases d.len() - i,
        {
            let k = vecchars_to_vecbytes(&data[i].0);
            if bytes_eq(k.as_slice(), price_key) {
                assert(is_first_price_usd(d, i as int));
                assert(d[i as int].1 is String);
                return Ok(get_bytes(&data[i].1));
            }
            i = i + 1;
        }
        Err(FetchError::CoincapFormat)
    }

    /// Whether a quote from `remote_src` has the shape that its source is
    /// read with.
    pub fn is_quote_readable(remote_src: &[u8], json: &JsonValue) -> (r: bool)
        ensures
            r == quote_readable(remote_src@, *json),
    {
        match Self::remote_source(remote_src) {
            Ok(RemoteSource::Coincap) => coincap_shape_holds(json),
            Ok(RemoteSource::Cryptocompare) => match json {
                JsonValue::Object(o) => o.len() > 0 && matches!(o[0].1, JsonValue::Number(_)),
                _ => false,
            },
            Err(_) => true,
        }
    }

    /// Reads the price in a quote fetched from `remote_src`, by the rules of
    /// that source; an unknown source is an error.
    pub fn price_reading(remote_src: &[u8], json: &JsonValue) -> (r: Result<PriceReading, FetchError>)
        requires
            quote_readable(remote_src@, *json),
        ensures
            match source_of(remote_src@) {
                None => r == Err::<PriceReading, FetchError>(FetchError::UnknownRemoteSource),
                Some(RemoteSource::Cryptocompare) => r matches Ok(PriceReading::Number(n))
                    && members(*json)[0].1 == JsonValue::Number(n),
                Some(RemoteSource::Coincap) => match r {
                    Ok(PriceReading::Decimal(b)) => exists|i: int|
                        is_first_price_usd(coincap_data(*json), i) && b@ == low_bytes(
                            (#[trigger] coincap_data(*json)[i]).1->String_0@,
                        ),
                    Ok(PriceReading::Number(_)) => false,
                    Err(e) => e == FetchError::CoincapFormat && forall|i: int|
                        0 <= i < coincap_data(*json).len() ==> !is_price_usd(
                            (#[trigger] coincap_data(*json)[i]).0@,
                        ),
                },
            },
    {
        match Self::remote_source(remote_src) {
            Ok(RemoteSource::Coincap) => match Self::fetch_price_from_coincap(json) {
                Ok(b) => Ok(PriceReading::Decimal(b)),
                Err(e) => Err(e),
            },
            Ok(RemoteSource::Cryptocompare) => Ok(
                PriceReading::Number(Self::fetch_price_from_cryptocompare(json)),
            ),
            Err(e) => Err(e),
        }
    }

    /// What the offchain worker does at `block`: when fetching is due, fetch
    /// every price of `fetched_cryptos()` in order; then, for every token
    /// with pending prices, in the order storage is walked, aggregate that many of its
    /// latest fetched prices.
    pub fn offchain_worker(&self, block: BlockNumber, duration: BlockNumber) -> (r: Vec<
        OffchainAction,
    >)
        requires
            self.wf(),
        ensures
            ({
                let nf: int = if fetch_due(block, duration) { 6 } else { 0 };
                let pend = pending_tokens(self.pending());
                let due = duration > 0 && block % duration == 0;
                let first: int = if due { 6 } else { 0 };
                &&& r@.len() == nf + pend.len()
                &&& r@.len() == first + pend.len()
                &&& forall|i: int| 0 <= i < first ==> is_fetch(#[trigger] r@[i], fetched_cryptos_spec()[i])
                &&& forall|j: int|
                    0 <= j < pend.len() ==> (#[trigger] pend[j]).1 == count_of(self.pending(), pend[j].0)
                &&& forall|i: int|
                    first <= i < r@.len() ==> averages_window(
                        #[trigger] r@[i],
                        self.src_points(),
                        ids_of(self.token_src(), pend[i - first].0),
                        block,
                        pend[i - first].0,
                        pend[i - first].1 as nat,
                    )
            }),
    {
        let mut actions: Vec<OffchainAction> = Vec::new();
        if duration > 0 && block % duration == 0 {
            let cryptos = fetched_cryptos();
            let mut i: usize = 0;
            while i < cryptos.len()
                invariant
                    i <= cryptos@.len(),
                    cryptos@.map_values(|e| crypto_view(e)) == fetched_cryptos_spec(),
                    actions@.len() == i,
                    forall|k: int| 0 <= k < i ==> is_fetch(#[trigger] actions@[k], fetched_cryptos_spec()[k]),
                decreases cryptos@.len() - i,
            {
                let (sym, remote_src, remote_url) = &cryptos[i];
                assert(crypto_view(cryptos@[i as int]) == fetched_cryptos_spec()[i as int]);
                actions.push(
                    OffchainAction::FetchPrice {
                        sym: slice_to_vec(sym.as_slice()),
                        remote_src: slice_to_vec(remote_src.as_slice()),
                        remote_url: slice_to_vec(remote_url.as_slice()),
                    },
                );
                i = i + 1;
            }
            assert(cryptos@.len() == 6) by {
                assert(cryptos@.map_values(|e| crypto_view(e)).len() == 6);
            }
        }
        let nf = actions.len();
        let ghost pending = self.pending();
        let ghost pred = |e: (Seq<u8>, u32)| e.1 > 0;
        let mut k: usize = 0;
        while k < self.update_agg_pp.len()
            invariant
                self.wf(),
                pending == self.pending(),
                pending == self.update_agg_pp@,
                pred == (|e: (Seq<u8>, u32)| e.1 > 0),
                k <= pending.len(),
                nf <= actions@.len(),
                forall|i: int| 0 <= i < nf ==> is_fetch(#[trigger] actions@[i], fetched_cryptos_spec()[i]),
                actions@.len() == nf + pending.take(k as int).filter(pred).len(),
                forall|j: int|
                    0 <= j < pending.take(k as int).filter(pred).len() ==> is_aggregation(
                        #[trigger] actions@[nf + j],
                        self.src_points(),
                        self.token_src(),
                        block,
                        pending.take(k as int).filter(pred)[j].0,
                        pending.take(k as int).filter(pred)[j].1 as nat,
                    ),
            decreases pending.len() - k,
        {
            let ghost before = actions@;
            let ghost done = pending.take(k as int).filter(pred);
            assert(pending.take(k + 1).drop_last() =~= pending.take(k as int));
            assert(pending.take(k + 1).last() == pending[k as int]);
            let freq = *self.update_agg_pp.value_at(k);
            assert(pending[k as int].1 == freq);
            assert(pending.take(k + 1).len() == k + 1);
            assert(pending.take(k + 1).filter(pred) == if pred(pending[k as int]) {
                done.push(pending[k as int])
            } else {
                done
            }) by {
                reveal_with_fuel(Seq::<_>::filter, 1);
            }
            if freq > 0 {
                let sym = self.update_agg_pp.key_at(k);
                match self.aggregate_pp(block, sym, freq as usize) {
                    Some(call) => actions.push(OffchainAction::SubmitUnsigned(call)),
                    None => actions.push(OffchainAction::AggregateOverflow(slice_to_vec(sym.as_slice()))),
                }
                assert(pending.take(k + 1).filter(pred) == done.push(pending[k as int]));
                assert forall|j: int|
                    0 <= j < pending.take(k + 1).filter(pred).len() implies is_aggregation(
                        #[trigger] actions@[nf + j],
                        self.src_points(),
                        self.token_src(),
                        block,
                        pending.take(k + 1).filter(pred)[j].0,
                        pending.take(k + 1).filter(pred)[j].1 as nat,
                    ) by {
                    if j < done.len() {
                        assert(actions@[nf + j] == before[nf + j]);
                    }
                }
            } else {
                assert(pending.take(k + 1).filter(pred) == done);
            }
            k = k + 1;
        }
        assert(pending.take(pending.len() as int) =~= pending);
        proof {
            let pend = pending_tokens(pending);
            let first: int = if duration > 0 && block % duration == 0 { 6 } else { 0 };
            assert(nf == first);
            assert forall|j: int| 0 <= j < pend.len() implies (#[trigger] pend[j]).1 == count_of(
                self.pending(),
                pend[j].0,
            ) by {
                lemma_pending_entry_count(pending, j);
            }
            assert forall|i: int| first <= i < actions@.len() implies averages_window(
                #[trigger] actions@[i],
                self.src_points(),
                ids_of(self.token_src(), pend[i - first].0),
                block,
                pend[i - first].0,
                pend[i - first].1 as nat,
            ) by {
                let j = i - first;
                assert(actions@[nf + j] == actions@[i]);
                lemma_pending_entry_count(pending, j);
                lemma_pending_window(self, pend[j].0);
                assert(is_aggregation(
                    actions@[nf + j],
                    self.src_points(),
                    self.token_src(),
                    block,
                    pend[j].0,
                    pend[j].1 as nat,
                ));
                lemma_aggregation_averages_latest(
                    actions@[i],
                    self.src_points(),
                    self.token_src(),
                    block,
                    pend[j].0,
                    pend[j].1 as nat,
                );
            }
            assert(pend == pending_tokens(self.pending()));
        }
        actions
    }
}

/// Storing `v` under `k` in an index map changes what `k` reads and
/// nothing else.
proof fn lemma_ids_after_put(s: Seq<(Seq<u8>, Seq<u32>)>, k: Seq<u8>, v: Seq<u32>)
    requires
        keys_unique(s),
    ensures
        ids_of(put(s, k, v), k) == v,
        forall|k2: Seq<u8>| k2 != k ==> #[trigger] ids_of(put(s, k, v), k2) == ids_of(s, k2),
{
    lemma_put(s, k, v);
    assert forall|k2: Seq<u8>| k2 != k implies #[trigger] ids_of(put(s, k, v), k2) == ids_of(s, k2) by {
        assert(lookup(put(s, k, v), k2) == lookup(s, k2));
    }
}

/// Law: a recorded price reads back. It is the last fetched point; its
/// index is the last of the token's and of the source's indices; the
/// token's pending count grows by one; other tokens and sources read as
/// before.
pub proof fn lemma_record_price_reads_back(
    a: &PriceFetch,
    b: &PriceFetch,
    sym: Seq<u8>,
    remote_src: Seq<u8>,
    now: Moment,
    price: u64,
)
    requires
        a.wf(),
        a.src_points().len() <= u32::MAX,
        count_of(a.pending(), sym) < u32::MAX,
        a.records_price(b, sym, remote_src, now, price),
    ensures
        b.src_points().len() == a.src_points().len() + 1,
        b.src_points().last() == (now, price),
        ids_of(b.token_src(), sym) == ids_of(a.token_src(), sym).push(a.src_points().len() as u32),
        ids_of(b.remote_src(), remote_src) == ids_of(a.remote_src(), remote_src).push(
            a.src_points().len() as u32,
        ),
        count_of(b.pending(), sym) == count_of(a.pending(), sym) + 1,
        forall|k: Seq<u8>|
            k != sym ==> #[trigger] ids_of(b.token_src(), k) == ids_of(a.token_src(), k)
                && count_of(b.pending(), k) == count_of(a.pending(), k),
        forall|k: Seq<u8>| k != remote_src ==> #[trigger] ids_of(b.remote_src(), k) == ids_of(a.remote_src(), k),
{
    let id = a.src_points().len() as u32;
    lemma_ids_after_put(a.token_src(), sym, ids_of(a.token_src(), sym).push(id));
    lemma_ids_after_put(a.remote_src(), remote_src, ids_of(a.remote_src(), remote_src).push(id));
    lemma_put(a.pending(), sym, (count_of(a.pending(), sym) + 1) as u32);
    assert forall|k: Seq<u8>| k != sym implies #[trigger] ids_of(b.token_src(), k) == ids_of(
        a.token_src(),
        k,
    ) && count_of(b.pending(), k) == count_of(a.pending(), k) by {
        assert(lookup(b.pending(), k) == lookup(a.pending(), k));
    }
}

/// Law: recording an aggregated price of `sym` reads back as its last
/// aggregated point, and leaves `sym` with no pending prices, so that the
/// next run of the offchain worker does not aggregate it again.
pub proof fn lemma_record_agg_pp_clears_pending(
    a: &PriceFetch,
    b: &PriceFetch,
    sym: Seq<u8>,
    now: Moment,
    price: u64,
)
    requires
        a.wf(),
        a.agg_points().len() <= u32::MAX,
        a.records_agg_pp(b, sym, now, price),
    ensures
        b.agg_points().last() == (now, price),
        ids_of(b.token_agg(), sym) == ids_of(a.token_agg(), sym).push(a.agg_points().len() as u32),
        count_of(b.pending(), sym) == 0,
        forall|j: int|
            0 <= j < pending_tokens(b.pending()).len() ==> (#[trigger] pending_tokens(b.pending())[j]).0
                != sym,
{
    lemma_ids_after_put(a.token_agg(), sym, ids_of(a.token_agg(), sym).push(a.agg_points().len() as u32));
    lemma_put(a.pending(), sym, 0u32);
    let p = b.pending();
    let pred = |e: (Seq<u8>, u32)| e.1 > 0;
    assert forall|j: int| 0 <= j < pending_tokens(p).len() implies (#[trigger] pending_tokens(
        p,
    )[j]).0 != sym by {
        let e = p.filter(pred)[j];
        p.lemma_filter_pred(pred, j);
        assert(p.filter(pred).contains(e));
        p.lemma_filter_contains_rev(pred, e);
        if e.0 == sym {
            let i = choose|i: int| 0 <= i < p.len() && p[i] == e;
            assert(p[i].0 == sym);
            assert(has_key(p, sym));
            let q = key_index(p, sym);
            assert(p[q].0 == sym);
            assert(q == i);
        }
    }
}

/// Law: a token never has more pending prices than fetched points, so the
/// aggregation at the next offchain run averages exactly the prices
/// recorded since the token was last aggregated.
pub proof fn lemma_pending_window(s: &PriceFetch, sym: Seq<u8>)
    requires
        s.wf(),
    ensures
        recent(ids_of(s.token_src(), sym), count_of(s.pending(), sym) as nat)
            == ids_of(s.token_src(), sym).subrange(
            ids_of(s.token_src(), sym).len() - count_of(s.pending(), sym),
            ids_of(s.token_src(), sym).len() as int,
        ),
        recent(ids_of(s.token_src(), sym), count_of(s.pending(), sym) as nat).len() == count_of(
            s.pending(),
            sym,
        ),
{
    let ids = ids_of(s.token_src(), sym);
    let c = count_of(s.pending(), sym);
    assert(c <= ids.len());
    if ids.len() == c {
        assert(ids.subrange(0, ids.len() as int) =~= ids);
    }
}

/// Law: two fetched prices provide the same tag exactly when they agree on
/// block, token, source and price; the URL they were fetched from plays no
/// part. So the pool tells apart every two different price reports.
pub proof fn lemma_record_price_tags_distinct(c1: Call, c2: Call)
    requires
        c1 is RecordPrice,
        c2 is RecordPrice,
        encodable(c1),
        encodable(c2),
    ensures
        unsigned_tag(c1) == unsigned_tag(c2) <==> c1->RecordPrice_block == c2->RecordPrice_block
            && c1->RecordPrice_crypto_info.0@ == c2->RecordPrice_crypto_info.0@
            && c1->RecordPrice_crypto_info.1@ == c2->RecordPrice_crypto_info.1@
            && c1->RecordPrice_price == c2->RecordPrice_price,
{
    let (b1, s1, r1, p1) = (
        c1->RecordPrice_block,
        c1->RecordPrice_crypto_info.0@,
        c1->RecordPrice_crypto_info.1@,
        c1->RecordPrice_price,
    );
    let (b2, s2, r2, p2) = (
        c2->RecordPrice_block,
        c2->RecordPrice_crypto_info.0@,
        c2->RecordPrice_crypto_info.1@,
        c2->RecordPrice_price,
    );
    if unsigned_tag(c1) == unsigned_tag(c2) {
        let t1 = scale_u64(b1) + (scale_bytes(s1) + (scale_bytes(r1) + scale_u64(p1)));
        let t2 = scale_u64(b2) + (scale_bytes(s2) + (scale_bytes(r2) + scale_u64(p2)));
        assert(unsigned_tag(c1) =~= t1);
        assert(unsigned_tag(c2) =~= t2);
        lemma_u64_injective(b1, b2, scale_bytes(s1) + (scale_bytes(r1) + scale_u64(p1)), scale_bytes(s2)
            + (scale_bytes(r2) + scale_u64(p2)));
        lemma_bytes_injective(s1, s2, scale_bytes(r1) + scale_u64(p1), scale_bytes(r2) + scale_u64(p2));
        lemma_bytes_injective(r1, r2, scale_u64(p1), scale_u64(p2));
        assert(scale_u64(p1) + Seq::<u8>::empty() == scale_u64(p2) + Seq::<u8>::empty());
        lemma_u64_injective(p1, p2, Seq::<u8>::empty(), Seq::<u8>::empty());
    }
}

/// Law: two aggregated prices provide the same tag exactly when they agree
/// on block, token and price.
pub proof fn lemma_record_agg_pp_tags_distinct(c1: Call, c2: Call)
    requires
        c1 is RecordAggPp,
        c2 is RecordAggPp,
        encodable(c1),
        encodable(c2),
    ensures
        unsigned_tag(c1) == unsigned_tag(c2) <==> c1->RecordAggPp_block == c2->RecordAggPp_block
            && c1->RecordAggPp_sym@ == c2->RecordAggPp_sym@
            && c1->RecordAggPp_price == c2->RecordAggPp_price,
{
    let (b1, s1, p1) = (c1->RecordAggPp_block, c1->RecordAggPp_sym@, c1->RecordAggPp_price);
    let (b2, s2, p2) = (c2->RecordAggPp_block, c2->RecordAggPp_sym@, c2->RecordAggPp_price);
    if unsigned_tag(c1) == unsigned_tag(c2) {
        assert(unsigned_tag(c1) =~= scale_u64(b1) + (scale_bytes(s1) + scale_u64(p1)));
        assert(unsigned_tag(c2) =~= scale_u64(b2) + (scale_bytes(s2) + scale_u64(p2)));
        lemma_u64_injective(b1, b2, scale_bytes(s1) + scale_u64(p1), scale_bytes(s2) + scale_u64(p2));
        lemma_bytes_injective(s1, s2, scale_u64(p1), scale_u64(p2));
        assert(scale_u64(p1) + Seq::<u8>::empty() == scale_u64(p2) + Seq::<u8>::empty());
        lemma_u64_injective(p1, p2, Seq::<u8>::empty(), Seq::<u8>::empty());
    }
}

/// Each token waiting for aggregation carries its own pending count.
proof fn lemma_pending_entry_count(p: Seq<(Seq<u8>, u32)>, j: int)
    requires
        keys_unique(p),
        0 <= j < pending_tokens(p).len(),
    ensures
        pending_tokens(p)[j].1 == count_of(p, pending_tokens(p)[j].0),
        pending_tokens(p)[j].1 > 0,
{
    let pred = |e: (Seq<u8>, u32)| e.1 > 0;
    let e = p.filter(pred)[j];
    p.lemma_filter_pred(pred, j);
    assert(p.filter(pred).contains(e));
    p.lemma_filter_contains_rev(pred, e);
    let i = choose|i: int| 0 <= i < p.len() && p[i] == e;
    assert(has_key(p, e.0));
    let q = key_index(p, e.0);
    assert(p[q].0 == e.0);
    assert(q == i);
}

/// Law: the aggregation of the last `c` fetched prices of a token that has
/// at least `c` of them takes exactly those `c` latest prices: it records
/// the integer nearest their mean, or reports that they overflow.
pub proof fn lemma_aggregation_averages_latest(
    a: OffchainAction,
    pts: Seq<(Moment, u64)>,
    token_src: Seq<(Seq<u8>, Seq<u32>)>,
    block: BlockNumber,
    sym: Seq<u8>,
    c: nat,
)
    requires
        is_aggregation(a, pts, token_src, block, sym, c),
        c <= ids_of(token_src, sym).len(),
    ensures
        averages_window(a, pts, ids_of(token_src, sym), block, sym, c),
{
    let ids = ids_of(token_src, sym);
    let w = ids.subrange(ids.len() - c, ids.len() as int);
    assert(recent(ids, c) == w) by {
        if ids.len() == c {
            assert(ids.subrange(0, ids.len() as int) =~= ids);
        }
    }
    let sum = sum_prices(pts, w);
    if sum <= u64::MAX && c > 0 {
        let p = (2 * sum + c) / (2 * c);
        assert(2 * c * p <= 2 * sum + c < 2 * c * (p + 1)) by (nonlinear_arith)
            requires
                c > 0,
                p == (2 * sum + c) / (2 * c),
        ;
    }
}

/// Law: the aggregate over the last `freq` fetched prices of a token takes
/// its `n = min(freq, count)` latest prices, and is the integer `p` nearest
/// their mean (`2np <= 2·sum + n < 2n(p + 1)`), 0 when `n` is 0, or nothing
/// when their sum overflows a `u64`.
pub proof fn lemma_aggregate_of_latest(
    pts: Seq<(Moment, u64)>,
    token_src: Seq<(Seq<u8>, Seq<u32>)>,
    sym: Seq<u8>,
    freq: nat,
)
    ensures
        ({
            let ids = ids_of(token_src, sym);
            let n: nat = if freq < ids.len() { freq } else { ids.len() };
            let sum = sum_prices(pts, ids.subrange(ids.len() - n, ids.len() as int));
            &&& aggregate_of(pts, token_src, sym, freq) is None <==> sum > u64::MAX
            &&& aggregate_of(pts, token_src, sym, freq) matches Some(p) ==> (n == 0 ==> p == 0) && (n
                > 0 ==> 2 * n * p <= 2 * sum + n < 2 * n * (p + 1))
        }),
{
    let ids = ids_of(token_src, sym);
    let n: nat = if freq < ids.len() { freq } else { ids.len() };
    let w = ids.subrange(ids.len() - n, ids.len() as int);
    assert(recent(ids, freq) == w) by {
        if ids.len() <= freq {
            assert(ids.subrange(0, ids.len() as int) =~= ids);
        }
    }
    let sum = sum_prices(pts, w);
    if sum <= u64::MAX && n > 0 {
        let p = (2 * sum + n) / (2 * n);
        assert(2 * n * p <= 2 * sum + n < 2 * n * (p + 1)) by (nonlinear_arith)
            requires
                n > 0,
                p == (2 * sum + n) / (2 * n),
        ;
    }
}

/// Law: prices are fetched at every block that is a multiple of a nonzero
/// duration, and at no other block; a zero duration never fetches.
pub proof fn lemma_fetch_schedule(k: u64, d: u64, b: u64)
    requires
        k * d <= u64::MAX,
    ensures
        d > 0 ==> fetch_due((k * d) as u64, d),
        b % d != 0 ==> !fetch_due(b, d),
        !fetch_due(b, 0),
        fetch_due(b, d) ==> d > 0 && (b / d) * d == b,
{
    if d > 0 {
        assert(((k * d) as u64) % d == 0) by (nonlinear_arith)
            requires
                d > 0,
                k * d <= u64::MAX,
        ;
        if b % d == 0 {
            assert((b / d) * d == b) by (nonlinear_arith)
                requires
                    d > 0,
                    b % d == 0,
            ;
        }
    }
}

} // verus!
