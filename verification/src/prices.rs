//! Asset prices by timestamp: the nine-byte request frames, the store of
//! prices, and the mean price over a closed range of timestamps.
use vstd::prelude::*;

verus! {

/// A request frame: one byte of kind, then two big-endian 32-bit integers.
pub type RawMessage = [u8; 9];

/// The error for a frame whose kind byte is neither `I` nor `Q`, or an
/// argument that is not exactly four bytes long.
#[derive(Debug, PartialEq, Eq, Structural)]
pub struct MessageError {}

/// A decoded request frame.
#[derive(Debug, PartialEq, Eq, Structural)]
pub enum Message {
    Insert { timestamp: i32, price: i32 },
    Query { min_time: i32, max_time: i32 },
    Undefined,
}

/// The value of four big-endian bytes read as a two's-complement 32-bit integer.
pub open spec fn be_i32(b0: u8, b1: u8, b2: u8, b3: u8) -> int {
    let u = b0 * 0x100_0000int + b1 * 0x1_0000int + b2 * 0x100int + b3;
    if b0 >= 0x80 {
        u - 0x1_0000_0000int
    } else {
        u
    }
}

/// The value of the four bytes of `s` from index `i` on, big-endian.
pub open spec fn be_i32_at(s: Seq<u8>, i: int) -> int {
    be_i32(s[i], s[i + 1], s[i + 2], s[i + 3])
}

/// What a frame decodes to.
pub open spec fn spec_decode_frame(f: Seq<u8>) -> Result<Message, MessageError> {
    if f[0] == 0x49u8 {
        Ok(Message::Insert { timestamp: be_i32_at(f, 1) as i32, price: be_i32_at(f, 5) as i32 })
    } else if f[0] == 0x51u8 {
        Ok(Message::Query { min_time: be_i32_at(f, 1) as i32, max_time: be_i32_at(f, 5) as i32 })
    } else {
        Err(MessageError {})
    }
}

proof fn lemma_be_i32_range(b0: u8, b1: u8, b2: u8, b3: u8)
    ensures
        i32::MIN <= be_i32(b0, b1, b2, b3) <= i32::MAX,
{
}

/// Reads a big-endian 32-bit integer from a slice of exactly four bytes.
pub fn parse_arg(v: &[u8]) -> (r: Result<i32, MessageError>)
    ensures
        r is Ok <==> v@.len() == 4,
        r matches Ok(x) ==> x == be_i32_at(v@, 0),
        r matches Err(e) ==> e == (MessageError {}),
{
    if v.len() != 4 {
        return Err(MessageError {});
    }
    let u: i64 = (v[0] as i64) * 0x100_0000 + (v[1] as i64) * 0x1_0000 + (v[2] as i64) * 0x100
        + (v[3] as i64);
    let x: i64 = if v[0] >= 0x80 {
        u - 0x1_0000_0000
    } else {
        u
    };
    proof {
        lemma_be_i32_range(v@[0], v@[1], v@[2], v@[3]);
    }
    Ok(x as i32)
}

impl Message {
    /// Decodes a request frame: `I` is an insert of (timestamp, price),
    /// `Q` a query of (min_time, max_time); any other kind byte is an error.
    pub fn try_from(value: RawMessage) -> (r: Result<Message, MessageError>)
        ensures
            r == spec_decode_frame(value@),
    {
        let action = value[0];
        let first_arg = parse_arg(vstd::slice::slice_subrange(value.as_slice(), 1, 5));
        let second_arg = parse_arg(vstd::slice::slice_subrange(value.as_slice(), 5, 9));
        let first_arg = match first_arg {
            Ok(x) => x,
            Err(e) => {
                return Err(e);
            },
        };
        let second_arg = match second_arg {
            Ok(x) => x,
            Err(e) => {
                return Err(e);
            },
        };
        proof {
            lemma_be_i32_range(value@[1], value@[2], value@[3], value@[4]);
            lemma_be_i32_range(value@[5], value@[6], value@[7], value@[8]);
        }
        if action == 0x49u8 {
            Ok(Message::Insert { timestamp: first_arg, price: second_arg })
        } else if action == 0x51u8 {
            Ok(Message::Query { min_time: first_arg, max_time: second_arg })
        } else {
            Err(MessageError {})
        }
    }
}


/// Whether the timestamps of `s` strictly increase.
pub open spec fn increasing(s: Seq<(i32, i32)>) -> bool {
    forall|i: int, j: int| 0 <= i < j < s.len() ==> s[i].0 < s[j].0
}

/// Whether some entry of `s` has timestamp `t`.
pub open spec fn has_timestamp(s: Seq<(i32, i32)>, t: i32) -> bool {
    exists|i: int| 0 <= i < s.len() && s[i].0 == t
}

/// The prices of `s` by timestamp.
pub open spec fn price_map(s: Seq<(i32, i32)>) -> Map<i32, i32> {
    Map::new(
        |t: i32| has_timestamp(s, t),
        |t: i32| s[choose|i: int| 0 <= i < s.len() && s[i].0 == t].1,
    )
}

/// The number of entries of `s` whose timestamp lies in `[lo, hi]`.
pub open spec fn range_count(s: Seq<(i32, i32)>, lo: i32, hi: i32) -> nat
    decreases s.len(),
{
    if s.len() == 0 {
        0
    } else {
        range_count(s.drop_last(), lo, hi) + if lo <= s.last().0 <= hi {
            1nat
        } else {
            0nat
        }
    }
}

/// The sum of the prices of the entries of `s` whose timestamp lies in `[lo, hi]`.
pub open spec fn range_sum(s: Seq<(i32, i32)>, lo: i32, hi: i32) -> int
    decreases s.len(),
{
    if s.len() == 0 {
        0
    } else {
        range_sum(s.drop_last(), lo, hi) + if lo <= s.last().0 <= hi {
            s.last().1 as int
        } else {
            0
        }
    }
}

/// Integer division rounded toward zero, for a positive divisor.
pub open spec fn trunc_div(a: int, b: int) -> int {
    if a >= 0 {
        a / b
    } else {
        -((-a) / b)
    }
}

/// The mean price over the timestamps in `[lo, hi]`, rounded toward zero:
/// zero when the range is empty or holds no price.
pub open spec fn mean_price(s: Seq<(i32, i32)>, lo: i32, hi: i32) -> int {
    if hi < lo || range_count(s, lo, hi) == 0 {
        0
    } else {
        trunc_div(range_sum(s, lo, hi), range_count(s, lo, hi) as int)
    }
}

/// The index of the first entry of `s` at or after `i` whose timestamp is
/// at least `t`, or `s.len()` if there is none.
pub open spec fn lower_bound_from(s: Seq<(i32, i32)>, t: i32, i: int) -> int
    decreases s.len() - i,
{
    if i < 0 || i >= s.len() {
        s.len() as int
    } else if s[i].0 >= t {
        i
    } else {
        lower_bound_from(s, t, i + 1)
    }
}

/// The entries of `s` after `price` is recorded at `timestamp`: the entry at
/// that timestamp gets the new price, or a new entry goes in before the first
/// later timestamp.
pub open spec fn spec_insert(s: Seq<(i32, i32)>, timestamp: i32, price: i32) -> Seq<(i32, i32)> {
    let i = lower_bound_from(s, timestamp, 0);
    if i < s.len() && s[i].0 == timestamp {
        s.update(i, (timestamp, price))
    } else {
        s.insert(i, (timestamp, price))
    }
}

/// The prices a client has inserted, kept in increasing order of timestamp,
/// one price per timestamp. The prices are kept in a sorted `Vec` rather than
/// a `BTreeMap`: vstd specifies no `BTreeMap::range`, and its `iter` yields
/// the entries only as an unnamed sequence, so no contract of the mean could
/// name the prices it sums. The sorted `Vec` holds the same entries in the
/// same order as the map would.
pub struct PriceStore {
    entries: Vec<(i32, i32)>,
}

impl View for PriceStore {
    type V = Seq<(i32, i32)>;

    closed spec fn view(&self) -> Seq<(i32, i32)> {
        self.entries@
    }
}

impl PriceStore {
    #[verifier::type_invariant]
    closed spec fn wf(self) -> bool {
        increasing(self.entries@)
    }

    /// An empty store.
    pub fn new() -> (s: PriceStore)
        ensures
            s@ == Seq::<(i32, i32)>::empty(),
    {
        PriceStore { entries: Vec::new() }
    }

    /// Records `price` at `timestamp`, replacing any price held there.
    pub fn insert(&mut self, timestamp: i32, price: i32)
        ensures
            increasing(final(self)@),
            price_map(final(self)@) == price_map(old(self)@).insert(timestamp, price),
            final(self)@ == spec_insert(old(self)@, timestamp, price),
    {
        proof {
            use_type_invariant(&*self);
        }
        let n = self.entries.len();
        let mut i: usize = 0;
        while i < n && self.entries[i].0 < timestamp
            invariant
                n == self.entries@.len(),
                i <= n,
                increasing(self.entries@),
                forall|j: int| 0 <= j < i ==> self.entries@[j].0 < timestamp,
                lower_bound_from(self.entries@, timestamp, 0) == lower_bound_from(
                    self.entries@,
                    timestamp,
                    i as int,
                ),
            decreases n - i,
        {
            i = i + 1;
        }
        assert(lower_bound_from(self.entries@, timestamp, 0) == i);
        let ghost old_s = self.entries@;
        let mut entries: Vec<(i32, i32)> = Vec::new();
        std::mem::swap(&mut entries, &mut self.entries);
        if i < n && entries[i].0 == timestamp {
            entries.set(i, (timestamp, price));
            proof {
                let s = entries@;
                assert(increasing(s));
                assert forall|t: i32|
                    #![trigger price_map(s).dom().contains(t)]
                    price_map(s).dom().contains(t) == price_map(old_s).insert(timestamp, price).dom().contains(t)
                by {
                    if has_timestamp(old_s, t) {
                        let j = choose|j: int| 0 <= j < old_s.len() && old_s[j].0 == t;
                        assert(s[j].0 == t);
                    }
                    if has_timestamp(s, t) {
                        let j = choose|j: int| 0 <= j < s.len() && s[j].0 == t;
                        if j != i {
                            assert(old_s[j].0 == t);
                        }
                    }
                    assert(s[i as int].0 == timestamp);
                }
                assert forall|t: i32| #[trigger] price_map(s).dom().contains(t)
                    implies price_map(s)[t] == price_map(old_s).insert(timestamp, price)[t]
                by {
                    let j = choose|j: int| 0 <= j < s.len() && s[j].0 == t;
                    if t == timestamp {
                        assert(j == i);
                    } else {
                        assert(j != i);
                        assert(old_s[j].0 == t);
                        let k = choose|k: int| 0 <= k < old_s.len() && old_s[k].0 == t;
                        assert(k == j);
                    }
                }
                assert(price_map(s) =~= price_map(old_s).insert(timestamp, price));
            }
        } else {
            entries.insert(i, (timestamp, price));
            proof {
                let s = entries@;
                assert forall|a: int, b: int| 0 <= a < b < s.len() implies s[a].0 < s[b].0 by {
                    if b < i {
                        assert(s[a] == old_s[a] && s[b] == old_s[b]);
                    } else if b == i {
                        assert(s[a] == old_s[a]);
                    } else if a < i {
                        assert(s[a] == old_s[a] && s[b] == old_s[b - 1]);
                        assert(old_s[i as int].0 >= timestamp);
                    } else if a == i {
                        assert(s[b] == old_s[b - 1]);
                        assert(old_s[i as int].0 > timestamp);
                    } else {
                        assert(s[a] == old_s[a - 1] && s[b] == old_s[b - 1]);
                    }
                }
                assert(increasing(s));
                assert(!has_timestamp(old_s, timestamp)) by {
                    if has_timestamp(old_s, timestamp) {
                        let j = choose|j: int| 0 <= j < old_s.len() && old_s[j].0 == timestamp;
                        if j >= i && i < n {
                            assert(old_s[i as int].0 <= old_s[j].0);
                        }
                    }
                }
                assert forall|t: i32|
                    #![trigger price_map(s).dom().contains(t)]
                    price_map(s).dom().contains(t) == price_map(old_s).insert(timestamp, price).dom().contains(t)
                by {
                    if has_timestamp(old_s, t) {
                        let j = choose|j: int| 0 <= j < old_s.len() && old_s[j].0 == t;
                        if j < i {
                            assert(s[j].0 == t);
                        } else {
                            assert(s[j + 1].0 == t);
                        }
                    }
                    if has_timestamp(s, t) {
                        let j = choose|j: int| 0 <= j < s.len() && s[j].0 == t;
                        if j < i {
                            assert(old_s[j].0 == t);
                        } else if j > i {
                            assert(old_s[j - 1].0 == t);
                        }
                    }
                    assert(s[i as int].0 == timestamp);
                }
                assert forall|t: i32| #[trigger] price_map(s).dom().contains(t)
                    implies price_map(s)[t] == price_map(old_s).insert(timestamp, price)[t]
                by {
                    let j = choose|j: int| 0 <= j < s.len() && s[j].0 == t;
                    if t == timestamp {
                        assert(j == i);
                    } else if j < i {
                        assert(old_s[j].0 == t);
                        let k = choose|k: int| 0 <= k < old_s.len() && old_s[k].0 == t;
                        assert(k == j);
                    } else {
                        assert(old_s[j - 1].0 == t);
                        let k = choose|k: int| 0 <= k < old_s.len() && old_s[k].0 == t;
                        assert(k == j - 1);
                    }
                }
                assert(price_map(s) =~= price_map(old_s).insert(timestamp, price));
            }
        }
        self.entries = entries;
    }
}


proof fn lemma_range_bounds(s: Seq<(i32, i32)>, lo: i32, hi: i32)
    ensures
        range_count(s, lo, hi) <= s.len(),
        i32::MIN * range_count(s, lo, hi) <= range_sum(s, lo, hi) <= i32::MAX * range_count(s, lo, hi),
    decreases s.len(),
{
    if s.len() > 0 {
        lemma_range_bounds(s.drop_last(), lo, hi);
    }
}

proof fn lemma_trunc_div_bounds(a: int, c: int)
    requires
        c > 0,
        i32::MIN * c <= a <= i32::MAX * c,
    ensures
        i32::MIN <= trunc_div(a, c) <= i32::MAX,
{
    if a >= 0 {
        assert(a / c <= i32::MAX) by (nonlinear_arith)
            requires
                c > 0,
                0 <= a <= i32::MAX * c,
        ;
        assert(a / c >= 0) by (nonlinear_arith)
            requires
                c > 0,
                0 <= a,
        ;
    } else {
        assert((-a) / c <= -(i32::MIN as int)) by (nonlinear_arith)
            requires
                c > 0,
                0 < -a <= -(i32::MIN as int) * c,
        ;
        assert((-a) / c >= 0) by (nonlinear_arith)
            requires
                c > 0,
                0 <= -a,
        ;
    }
}

/// The mean of the prices whose timestamps lie in `[min_time, max_time]`,
/// rounded toward zero; zero when the range is empty or holds no price.
pub fn get_mean_from_minmax_time(store: &PriceStore, min_time: i32, max_time: i32) -> (mean: i32)
    ensures
        mean == mean_price(store@, min_time, max_time),
{
    if max_time < min_time {
        return 0;
    }
    let n = store.entries.len();
    let mut count: u64 = 0;
    let mut total: i128 = 0;
    let mut i: usize = 0;
    while i < n
        invariant
            n == store@.len(),
            i <= n,
            count == range_count(store@.take(i as int), min_time, max_time),
            total == range_sum(store@.take(i as int), min_time, max_time),
        decreases n - i,
    {
        proof {
            lemma_range_bounds(store@.take(i as int), min_time, max_time);
            assert(store@.take(i + 1).drop_last() =~= store@.take(i as int));
        }
        let (timestamp, price) = store.entries[i];
        if min_time <= timestamp && timestamp <= max_time {
            assert(total + price <= i32::MAX * (i + 1)) by (nonlinear_arith)
                requires
                    total <= i32::MAX * count,
                    count <= i,
                    price <= i32::MAX,
            ;
            assert(total + price >= i32::MIN * (i + 1)) by (nonlinear_arith)
                requires
                    total >= i32::MIN * count,
                    count <= i,
                    price >= i32::MIN,
            ;
            count = count + 1;
            total = total + price as i128;
        }
        i = i + 1;
    }
    assert(store@.take(n as int) =~= store@);
    if count == 0 {
        return 0;
    }
    proof {
        lemma_range_bounds(store@, min_time, max_time);
        lemma_trunc_div_bounds(total as int, count as int);
    }
    let q: i128 = if total >= 0 {
        (total as u128 / count as u128) as i128
    } else {
        -(((-total) as u128 / count as u128) as i128)
    };
    q as i32
}

/// The four big-endian bytes of a two's-complement 32-bit integer.
#[verifier::spinoff_prover]
pub fn encode_i32_be(x: i32) -> (b: [u8; 4])
    ensures
        be_i32_at(b@, 0) == x,
{
    let u: u32 = if x < 0 {
        (x as i64 + 0x1_0000_0000) as u32
    } else {
        x as u32
    };
    let b0 = (u / 0x100_0000) as u8;
    let b1 = ((u / 0x1_0000) % 0x100) as u8;
    let b2 = ((u / 0x100) % 0x100) as u8;
    let b3 = (u % 0x100) as u8;
    proof {
        assert(u == (u / 0x100_0000) * 0x100_0000 + ((u / 0x1_0000) % 0x100) * 0x1_0000 + ((u
            / 0x100) % 0x100) * 0x100 + u % 0x100) by (bit_vector);
        assert(u / 0x100_0000 < 0x100 && u / 0x100_0000 >= 0x80 <==> u >= 0x8000_0000) by (bit_vector);
        assert(b0 == u / 0x100_0000 && b1 == (u / 0x1_0000) % 0x100 && b2 == (u / 0x100) % 0x100
            && b3 == u % 0x100);
    }
    let b = [b0, b1, b2, b3];
    assert(b@[0] == b0 && b@[1] == b1 && b@[2] == b2 && b@[3] == b3);
    b
}

/// What a client is sent in answer to one frame: the mean, as four
/// big-endian bytes, for a query; nothing otherwise.
pub open spec fn spec_reply(store: Seq<(i32, i32)>, frame: Seq<u8>) -> Option<int> {
    match spec_decode_frame(frame) {
        Ok(Message::Query { min_time, max_time }) => Some(mean_price(store, min_time, max_time)),
        _ => None,
    }
}

/// Handles one request frame of a client session: an insert is recorded in
/// the store, a query is answered with the mean price over its range, and a
/// frame that does not decode is ignored.
pub fn handle_frame(store: &mut PriceStore, frame: RawMessage) -> (reply: Option<[u8; 4]>)
    ensures
        increasing(final(store)@),
        match spec_decode_frame(frame@) {
            Ok(Message::Insert { timestamp, price }) => price_map(final(store)@) == price_map(
                old(store)@,
            ).insert(timestamp, price),
            _ => final(store)@ == old(store)@,
        },
        match spec_reply(old(store)@, frame@) {
            Some(m) => reply matches Some(b) && be_i32_at(b@, 0) == m,
            None => reply is None,
        },
        reply is Some <==> frame@[0] == 0x51u8,
{
    proof {
        use_type_invariant(&*store);
    }
    let message = match Message::try_from(frame) {
        Ok(m) => m,
        Err(_) => Message::Undefined,
    };
    match message {
        Message::Insert { timestamp, price } => {
            store.insert(timestamp, price);
            None
        },
        Message::Query { min_time, max_time } => {
            let mean = get_mean_from_minmax_time(store, min_time, max_time);
            Some(encode_i32_be(mean))
        },
        Message::Undefined => None,
    }
}


proof fn lemma_single_timestamp(s: Seq<(i32, i32)>, t: i32)
    requires
        increasing(s),
    ensures
        range_count(s, t, t) == (if has_timestamp(s, t) { 1nat } else { 0nat }),
        range_sum(s, t, t) == (if has_timestamp(s, t) { price_map(s)[t] as int } else { 0 }),
    decreases s.len(),
{
    if s.len() > 0 {
        let s2 = s.drop_last();
        assert(increasing(s2));
        lemma_single_timestamp(s2, t);
        let n = s.len() - 1;
        if s.last().0 == t {
            assert(has_timestamp(s, t));
            assert(!has_timestamp(s2, t)) by {
                if has_timestamp(s2, t) {
                    let j = choose|j: int| 0 <= j < s2.len() && s2[j].0 == t;
                    assert(s[j].0 < s[n].0);
                }
            }
            let k = choose|k: int| 0 <= k < s.len() && s[k].0 == t;
            assert(k == n);
        } else {
            if has_timestamp(s, t) {
                let k = choose|k: int| 0 <= k < s.len() && s[k].0 == t;
                assert(k < n);
                assert(s2[k].0 == t);
                let k2 = choose|k2: int| 0 <= k2 < s2.len() && s2[k2].0 == t;
                assert(k2 == k);
            }
            if has_timestamp(s2, t) {
                let k2 = choose|k2: int| 0 <= k2 < s2.len() && s2[k2].0 == t;
                assert(s[k2].0 == t);
            }
        }
    }
}

/// A query of the single timestamp `t` answers the price stored at `t`, or
/// zero when none is.
pub proof fn law_single_timestamp_query(s: Seq<(i32, i32)>, t: i32)
    requires
        increasing(s),
    ensures
        mean_price(s, t, t) == if price_map(s).dom().contains(t) {
            price_map(s)[t] as int
        } else {
            0
        },
{
    lemma_single_timestamp(s, t);
}

/// After `price` is inserted at `timestamp`, a query of exactly that
/// timestamp answers `price`, whatever was stored there before.
pub proof fn law_query_after_insert(before: Seq<(i32, i32)>, after: Seq<(i32, i32)>, timestamp: i32, price: i32)
    requires
        increasing(after),
        price_map(after) == price_map(before).insert(timestamp, price),
    ensures
        mean_price(after, timestamp, timestamp) == price,
{
    lemma_single_timestamp(after, timestamp);
    assert(price_map(after).dom().contains(timestamp));
    assert(price_map(after)[timestamp] == price);
    assert(trunc_div(price as int, 1) == price);
}

/// A query whose range is empty (`max_time < min_time`) answers zero.
pub proof fn law_empty_range_mean_is_zero(s: Seq<(i32, i32)>, min_time: i32, max_time: i32)
    requires
        max_time < min_time,
    ensures
        mean_price(s, min_time, max_time) == 0,
{
}

/// Four bytes are determined by the integer they encode: decoding is
/// one-to-one, so encoding the decoded value gives back the same bytes.
pub proof fn law_be_i32_injective(b: Seq<u8>, c: Seq<u8>)
    requires
        b.len() == 4,
        c.len() == 4,
        be_i32_at(b, 0) == be_i32_at(c, 0),
    ensures
        b == c,
{
    let ub = b[0] * 0x100_0000int + b[1] * 0x1_0000int + b[2] * 0x100int + b[3];
    let uc = c[0] * 0x100_0000int + c[1] * 0x1_0000int + c[2] * 0x100int + c[3];
    assert(ub == uc);
    assert(b[0] == c[0] && b[1] == c[1] && b[2] == c[2] && b[3] == c[3]) by (nonlinear_arith)
        requires
            ub == uc,
            ub == b[0] * 0x100_0000int + b[1] * 0x1_0000int + b[2] * 0x100int + b[3],
            uc == c[0] * 0x100_0000int + c[1] * 0x1_0000int + c[2] * 0x100int + c[3],
            0 <= b[0] < 256,
            0 <= b[1] < 256,
            0 <= b[2] < 256,
            0 <= b[3] < 256,
            0 <= c[0] < 256,
            0 <= c[1] < 256,
            0 <= c[2] < 256,
            0 <= c[3] < 256,
    ;
    assert(b =~= c);
}


proof fn lemma_range_sum_between(s: Seq<(i32, i32)>, lo: i32, hi: i32, low: int, high: int)
    requires
        forall|i: int| 0 <= i < s.len() && lo <= s[i].0 <= hi ==> low <= #[trigger] s[i].1 <= high,
    ensures
        low * range_count(s, lo, hi) <= range_sum(s, lo, hi) <= high * range_count(s, lo, hi),
    decreases s.len(),
{
    if s.len() > 0 {
        let s2 = s.drop_last();
        assert forall|i: int| 0 <= i < s2.len() && lo <= s2[i].0 <= hi implies low <= #[trigger] s2[i].1 <= high by {
            assert(s2[i] == s[i]);
        }
        lemma_range_sum_between(s2, lo, hi, low, high);
        assert(s.last() == s[s.len() - 1]);
        let c2 = range_count(s2, lo, hi) as int;
        let a2 = range_sum(s2, lo, hi);
        if lo <= s.last().0 <= hi {
            let x = s[s.len() - 1].1 as int;
            assert(low <= x <= high);
            assert(range_count(s, lo, hi) == c2 + 1);
            assert(range_sum(s, lo, hi) == a2 + x);
            assert(low * (c2 + 1) <= a2 + x <= high * (c2 + 1)) by (nonlinear_arith)
                requires
                    low * c2 <= a2 <= high * c2,
                    low <= x <= high,
            ;
        } else {
            assert(range_count(s, lo, hi) == c2);
            assert(range_sum(s, lo, hi) == a2);
        }
    } else {
        assert(range_count(s, lo, hi) == 0);
        assert(low * 0 == 0 && high * 0 == 0);
    }
}

/// The mean over a range that holds prices lies between the lowest and the
/// highest price in the range (given as bounds `low` and `high`).
pub proof fn law_mean_between_prices(s: Seq<(i32, i32)>, lo: i32, hi: i32, low: int, high: int)
    requires
        lo <= hi,
        range_count(s, lo, hi) > 0,
        forall|i: int| 0 <= i < s.len() && lo <= s[i].0 <= hi ==> low <= #[trigger] s[i].1 <= high,
    ensures
        low <= mean_price(s, lo, hi) <= high,
{
    lemma_range_sum_between(s, lo, hi, low, high);
    let a = range_sum(s, lo, hi);
    let c = range_count(s, lo, hi) as int;
    if a >= 0 {
        assert(low <= a / c <= high) by (nonlinear_arith)
            requires
                c > 0,
                0 <= a,
                low * c <= a <= high * c,
        ;
    } else {
        assert(low <= -((-a) / c) <= high) by (nonlinear_arith)
            requires
                c > 0,
                a < 0,
                low * c <= a <= high * c,
        ;
    }
}


proof fn lemma_lower_bound_range(s: Seq<(i32, i32)>, t: i32, i: int)
    requires
        0 <= i,
    ensures
        i <= s.len() ==> i <= lower_bound_from(s, t, i) <= s.len(),
    decreases s.len() - i,
{
    if 0 <= i < s.len() && s[i].0 < t {
        lemma_lower_bound_range(s, t, i + 1);
    }
}

proof fn lemma_range_concat(a: Seq<(i32, i32)>, b: Seq<(i32, i32)>, lo: i32, hi: i32)
    ensures
        range_count(a + b, lo, hi) == range_count(a, lo, hi) + range_count(b, lo, hi),
        range_sum(a + b, lo, hi) == range_sum(a, lo, hi) + range_sum(b, lo, hi),
    decreases b.len(),
{
    if b.len() == 0 {
        assert(a + b =~= a);
    } else {
        lemma_range_concat(a, b.drop_last(), lo, hi);
        assert((a + b).drop_last() =~= a + b.drop_last());
        assert((a + b).last() == b.last());
    }
}

/// Recording a price at a timestamp outside `[lo, hi]` leaves the mean over
/// `[lo, hi]` as it was.
pub proof fn law_out_of_range_insert_keeps_mean(s: Seq<(i32, i32)>, timestamp: i32, price: i32, lo: i32, hi: i32)
    requires
        timestamp < lo || hi < timestamp,
    ensures
        mean_price(spec_insert(s, timestamp, price), lo, hi) == mean_price(s, lo, hi),
{
    let i = lower_bound_from(s, timestamp, 0);
    lemma_lower_bound_range(s, timestamp, 0);
    let e = seq![(timestamp, price)];
    assert(range_count(e, lo, hi) == 0 && range_sum(e, lo, hi) == 0) by {
        assert(e.drop_last() =~= Seq::<(i32, i32)>::empty());
        assert(e.last() == (timestamp, price));
        assert(range_count(e.drop_last(), lo, hi) == 0);
        assert(range_sum(e.drop_last(), lo, hi) == 0);
    }
    if i < s.len() && s[i].0 == timestamp {
        let old_e = seq![s[i]];
        assert(range_count(old_e, lo, hi) == 0 && range_sum(old_e, lo, hi) == 0) by {
            assert(old_e.drop_last() =~= Seq::<(i32, i32)>::empty());
            assert(old_e.last() == s[i]);
            assert(range_count(old_e.drop_last(), lo, hi) == 0);
            assert(range_sum(old_e.drop_last(), lo, hi) == 0);
        }
        let a = s.take(i);
        let b = s.skip(i + 1);
        assert(s =~= a + old_e + b);
        assert(s.update(i, (timestamp, price)) =~= a + e + b);
        lemma_range_concat(a, old_e, lo, hi);
        lemma_range_concat(a + old_e, b, lo, hi);
        lemma_range_concat(a, e, lo, hi);
        lemma_range_concat(a + e, b, lo, hi);
    } else {
        let a = s.take(i);
        let b = s.skip(i);
        assert(s =~= a + b);
        assert(s.insert(i, (timestamp, price)) =~= a + e + b);
        lemma_range_concat(a, b, lo, hi);
        lemma_range_concat(a, e, lo, hi);
        lemma_range_concat(a + e, b, lo, hi);
    }
}


/// Every query frame is answered, whatever the store holds: with the mean
/// over the frame's two timestamps, and with zero by a store that holds no
/// price yet. No other frame is answered.
pub proof fn law_every_query_answered(s: Seq<(i32, i32)>, f: Seq<u8>)
    requires
        f.len() == 9,
    ensures
        f[0] == 0x51u8 ==> spec_reply(s, f) == Some(
            mean_price(s, be_i32_at(f, 1) as i32, be_i32_at(f, 5) as i32),
        ),
        f[0] == 0x51u8 && s.len() == 0 ==> spec_reply(s, f) == Some(0int),
        f[0] != 0x51u8 ==> spec_reply(s, f) is None,
{
    if s.len() == 0 {
        let lo = be_i32_at(f, 1) as i32;
        let hi = be_i32_at(f, 5) as i32;
        assert(range_count(s, lo, hi) == 0);
    }
}


/// The mean is the quotient of the sum of the prices in range by their
/// number, rounded toward zero: for a nonnegative sum it is the largest
/// integer whose multiple by the count does not exceed the sum, for a
/// negative sum the smallest whose multiple is not below it.
pub proof fn law_mean_rounds_toward_zero(s: Seq<(i32, i32)>, lo: i32, hi: i32)
    requires
        lo <= hi,
        range_count(s, lo, hi) > 0,
    ensures
        ({
            let m = mean_price(s, lo, hi);
            let a = range_sum(s, lo, hi);
            let c = range_count(s, lo, hi) as int;
            &&& a >= 0 ==> m * c <= a < (m + 1) * c
            &&& a < 0 ==> (m - 1) * c < a <= m * c
        }),
{
    let m = mean_price(s, lo, hi);
    let a = range_sum(s, lo, hi);
    let c = range_count(s, lo, hi) as int;
    if a >= 0 {
        assert(m == a / c);
        assert((a / c) * c <= a < (a / c + 1) * c) by (nonlinear_arith)
            requires
                c > 0,
                a >= 0,
        ;
    } else {
        assert(m == -((-a) / c));
        assert((-((-a) / c) - 1) * c < a <= (-((-a) / c)) * c) by (nonlinear_arith)
            requires
                c > 0,
                a < 0,
        ;
    }
}

} // verus!
