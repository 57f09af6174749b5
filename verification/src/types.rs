//! Core trading types.
//!
//! Prices and quantities are exact fixed-point decimals stored as integer
//! counts of a minimal unit (a tick of price, a lot of quantity), so that all
//! monetary arithmetic is exact integer arithmetic; no floating point appears
//! anywhere. Identifiers are 128-bit integers; the unverified edge converts
//! them from and to UUID values.

use vstd::prelude::*;

verus! {

/// Relies on `String::push`: appends one character to the end of the string.
pub assume_specification[ String::push ](s: &mut String, ch: char)
    ensures
        final(s)@ == old(s)@.push(ch),
;

/// Side of an order: bid or offer.
#[derive(Clone, Copy, Debug, PartialEq, Eq, Structural)]
pub enum Side {
    Buy,
    Sell,
}

impl Side {
    /// The side a taker matches against.
    pub fn opposite(&self) -> (s: Side)
        ensures
            s == self.spec_opposite(),
    {
        match self {
            Side::Buy => Side::Sell,
            Side::Sell => Side::Buy,
        }
    }

    pub open spec fn spec_opposite(self) -> Side {
        match self {
            Side::Buy => Side::Sell,
            Side::Sell => Side::Buy,
        }
    }
}

/// Order type. Stop orders are carried in the data model but their
/// triggering is not defined here; intake rejects them as unsupported.
#[derive(Clone, Copy, Debug, PartialEq, Eq, Structural)]
pub enum OrderType {
    Market,
    Limit,
    StopLimit,
    StopMarket,
}

/// Time in force: how long an order remains active.
#[derive(Clone, Copy, Debug, PartialEq, Eq, Structural)]
pub enum TimeInForce {
    /// Good till cancel: rests until filled or cancelled.
    GTC,
    /// Immediate or cancel: fill what is possible, cancel the rest.
    IOC,
    /// Fill or kill: fill completely or reject without side effects.
    FOK,
    /// Good till date: like GTC; expiry is driven by an external scheduler.
    GTD,
}

/// Order status in the matching engine.
#[derive(Clone, Copy, Debug, PartialEq, Eq, Structural)]
pub enum OrderStatus {
    Pending,
    Open,
    PartiallyFilled,
    Filled,
    Cancelled,
    Rejected,
    Expired,
}

/// ASCII uppercase of one character; other characters are unchanged.
pub open spec fn spec_upper_char(c: char) -> char {
    if 'a' <= c && c <= 'z' {
        (c as u32 - 32) as char
    } else {
        c
    }
}

/// ASCII uppercase of a character sequence.
pub open spec fn spec_upper(s: Seq<char>) -> Seq<char> {
    s.map_values(|c: char| spec_upper_char(c))
}

/// Whether every character of the text is ASCII.
pub open spec fn ascii_only(s: Seq<char>) -> bool {
    forall|i: int| 0 <= i < s.len() ==> (#[trigger] s[i]) < 128
}

/// The Unicode uppercase mapping of a text.
pub uninterp spec fn upper_of(s: Seq<char>) -> Seq<char>;

/// Relies on `str::to_uppercase`: the Unicode uppercase mapping of the
/// text, a function of the characters alone. On ASCII text it equals the
/// ASCII mapping `spec_upper`, as std documents: ASCII letters map to
/// their ASCII uppercase and other ASCII characters are unchanged.
#[verifier::external_body]
fn uppercase(s: &str) -> (r: String)
    ensures
        r@ == upper_of(s@),
        ascii_only(s@) ==> r@ == spec_upper(s@),
{
    s.to_uppercase()
}

/// Canonical trading-pair identifier, `BASE-QUOTE`, uppercase.
#[derive(Debug, Clone, Eq, Hash)]
pub struct Symbol(pub String);

impl View for Symbol {
    type V = Seq<char>;

    open spec fn view(&self) -> Seq<char> {
        self.0@
    }
}

impl PartialEq for Symbol {
    fn eq(&self, other: &Symbol) -> (r: bool)
        ensures
            r == (self@ == other@),
    {
        self.0 == other.0
    }
}

impl vstd::std_specs::cmp::PartialEqSpecImpl for Symbol {
    open spec fn obeys_eq_spec() -> bool {
        true
    }

    open spec fn eq_spec(&self, other: &Symbol) -> bool {
        self@ == other@
    }
}

impl Symbol {
    /// Builds the canonical `BASE-QUOTE` form, uppercasing both parts per
    /// Unicode; on ASCII parts that is exactly the ASCII mapping.
    pub fn new(base: &str, quote: &str) -> (s: Symbol)
        ensures
            s@ == upper_of(base@) + seq!['-'] + upper_of(quote@),
            ascii_only(base@) && ascii_only(quote@) ==> s@ == spec_upper(base@) + seq!['-']
                + spec_upper(quote@),
    {
        let mut t = uppercase(base);
        t.push('-');
        let uq = uppercase(quote);
        t.append(uq.as_str());
        Symbol(t)
    }

    /// A copy of this symbol, equal to this one.
    pub fn duplicate(&self) -> (s: Symbol)
        ensures
            s@ == self@,
    {
        Symbol(self.0.clone())
    }

    /// The characters before the first `-`, or the whole text if none.
    pub fn base(&self) -> (r: String)
        ensures
            r@ == self.spec_base(),
    {
        let s = self.0.as_str();
        let n: usize = s.unicode_len();
        let mut i: usize = 0;
        while i < n
            invariant
                i <= n,
                n == self@.len(),
                s@ == self@,
                forall|k: int| 0 <= k < i ==> self@[k] != '-',
            decreases n - i,
        {
            if s.get_char(i) == '-' {
                proof {
                    lemma_first_dash(self@, i as int);
                }
                return substring_copy(s, 0, i);
            }
            i = i + 1;
        }
        proof {
            lemma_first_dash(self@, n as int);
        }
        substring_copy(s, 0, n)
    }

    /// The characters after the first `-`, or the empty string if none.
    pub fn quote(&self) -> (r: String)
        ensures
            r@ == self.spec_quote(),
    {
        let s = self.0.as_str();
        let n: usize = s.unicode_len();
        let mut i: usize = 0;
        while i < n
            invariant
                i <= n,
                n == self@.len(),
                s@ == self@,
                forall|k: int| 0 <= k < i ==> self@[k] != '-',
            decreases n - i,
        {
            if s.get_char(i) == '-' {
                proof {
                    lemma_first_dash(self@, i as int);
                }
                return substring_copy(s, i + 1, n);
            }
            i = i + 1;
        }
        proof {
            lemma_first_dash(self@, n as int);
        }
        String::new()
    }

    /// Position of the first `-`, or the length if none occurs.
    pub open spec fn spec_dash_pos(&self) -> int {
        first_dash(self@)
    }

    pub open spec fn spec_base(&self) -> Seq<char> {
        self@.subrange(0, self.spec_dash_pos())
    }

    pub open spec fn spec_quote(&self) -> Seq<char> {
        if self.spec_dash_pos() == self@.len() {
            Seq::empty()
        } else {
            self@.subrange(self.spec_dash_pos() + 1, self@.len() as int)
        }
    }
}

/// Position of the first `-` in `s`, or `s.len()` if none occurs.
pub open spec fn first_dash(s: Seq<char>) -> int
    decreases s.len(),
{
    if s.len() == 0 {
        0
    } else if s[0] == '-' {
        0
    } else {
        1 + first_dash(s.drop_first())
    }
}

/// `first_dash` names the position of the earliest `-`.
pub proof fn lemma_first_dash(s: Seq<char>, i: int)
    requires
        0 <= i <= s.len(),
        forall|k: int| 0 <= k < i ==> s[k] != '-',
        i < s.len() ==> s[i] == '-',
    ensures
        first_dash(s) == i,
    decreases i,
{
    if s.len() == 0 {
    } else if i == 0 {
    } else {
        assert(s[0] != '-');
        let t = s.drop_first();
        assert(forall|k: int| 0 <= k < i - 1 ==> t[k] == s[k + 1] && t[k] != '-');
        lemma_first_dash(t, i - 1);
    }
}

/// A canonical order. Prices and quantities are integer counts of the
/// minimal unit; `fill_value` accumulates the exact quote value of all fills
/// (the sum of `price * quantity` over the order's trades), so that the
/// average fill price is the exact ratio `fill_value / filled_quantity`.
#[derive(Debug, Clone)]
pub struct Order {
    pub id: u128,
    pub client_order_id: String,
    pub user_id: u128,
    pub symbol: Symbol,
    pub side: Side,
    pub order_type: OrderType,
    pub time_in_force: TimeInForce,
    pub status: OrderStatus,
    /// Limit price; absent for market orders.
    pub price: Option<u64>,
    /// Stop trigger price; absent unless the order type has a stop prefix.
    pub stop_price: Option<u64>,
    pub quantity: u64,
    pub filled_quantity: u64,
    pub remaining_quantity: u64,
    /// Exact quote value of all fills so far.
    pub fill_value: u128,
    /// Sequence number for time priority, assigned by the book.
    pub sequence: u64,
    pub created_at: i64,
    pub updated_at: i64,
}

impl Order {
    pub fn is_buy(&self) -> (r: bool)
        ensures
            r == (self.side == Side::Buy),
    {
        self.side == Side::Buy
    }

    /// Whether the order is in a terminal state.
    pub fn is_complete(&self) -> (r: bool)
        ensures
            r == self.spec_is_complete(),
    {
        matches!(
            self.status,
            OrderStatus::Filled
                | OrderStatus::Cancelled
                | OrderStatus::Rejected
                | OrderStatus::Expired
        )
    }

    pub open spec fn spec_is_complete(&self) -> bool {
        self.status == OrderStatus::Filled || self.status == OrderStatus::Cancelled
            || self.status == OrderStatus::Rejected || self.status == OrderStatus::Expired
    }

    /// Whether the order is live on the book and may still match.
    pub fn can_match(&self) -> (r: bool)
        ensures
            r == self.spec_can_match(),
    {
        matches!(self.status, OrderStatus::Open | OrderStatus::PartiallyFilled)
    }

    pub open spec fn spec_can_match(&self) -> bool {
        self.status == OrderStatus::Open || self.status == OrderStatus::PartiallyFilled
    }

    /// Quantity bookkeeping that holds of every order observed outside the
    /// matching critical section.
    pub open spec fn quantities_ok(&self) -> bool {
        &&& self.quantity > 0
        &&& self.filled_quantity <= self.quantity
        &&& self.remaining_quantity == self.quantity - self.filled_quantity
        &&& (self.status == OrderStatus::Filled <==> self.remaining_quantity == 0)
        &&& (self.fill_value == 0 <==> self.filled_quantity == 0)
    }
}

/// An executed trade; immutable once created.
#[derive(Debug, Clone)]
pub struct Trade {
    pub id: u128,
    /// Monotonic per book.
    pub trade_id: u64,
    pub symbol: Symbol,
    /// The resting order.
    pub maker_order_id: u128,
    pub maker_user_id: u128,
    /// The incoming order.
    pub taker_order_id: u128,
    pub taker_user_id: u128,
    pub price: u64,
    pub quantity: u64,
    /// Exactly `price * quantity`.
    pub quote_quantity: u128,
    pub taker_side: Side,
    pub executed_at: i64,
}

impl Trade {
    /// The exact-product and self-trade-prevention facts that hold of every
    /// trade the book emits.
    pub open spec fn wf(&self) -> bool {
        &&& self.quote_quantity == self.price as u128 * self.quantity as u128
        &&& self.maker_user_id != self.taker_user_id
        &&& self.quantity > 0
    }
}

/// One line of a depth snapshot: a price level's price, total resting
/// quantity, and order count.
#[derive(Debug, Clone, Copy)]
pub struct PriceLevel {
    pub price: u64,
    pub quantity: u128,
    pub order_count: usize,
}

pub(crate) fn substring_copy(s: &str, from: usize, to: usize) -> (r: String)
    requires
        from <= to <= s@.len(),
    ensures
        r@ == s@.subrange(from as int, to as int),
{
    let mut t = String::new();
    let mut i: usize = from;
    while i < to
        invariant
            from <= i <= to <= s@.len(),
            t@ == s@.subrange(from as int, i as int),
        decreases to - i,
    {
        t.push(s.get_char(i));
        i = i + 1;
        assert(s@.subrange(from as int, i as int)
            == s@.subrange(from as int, i - 1).push(s@[i - 1]));
    }
    t
}

} // verus!

