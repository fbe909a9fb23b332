//! Orders as the books hold them.

use vstd::prelude::*;
use vstd::string::*;

use crate::coin::Coin;
use crate::text::{bool_text, decimal, decimal_text, flag_text, option_text, quote, quoted, wrap_option};

verus! {

/// The account behind an order or a fill: twenty bytes.
#[derive(Debug, Clone, Copy, PartialEq, Eq)]
pub struct Address {
    pub bytes: [u8; 20],
}

impl View for Address {
    type V = Seq<u8>;

    open spec fn view(&self) -> Seq<u8> {
        self.bytes@
    }
}

/// The lower-case hexadecimal digit of a number below sixteen.
pub open spec fn hex_digit(d: nat) -> char {
    seq!['0', '1', '2', '3', '4', '5', '6', '7', '8', '9', 'a', 'b', 'c', 'd', 'e', 'f'][d as int]
}

/// `0x` and two hexadecimal digits for each byte.
pub open spec fn address_text(bytes: Seq<u8>) -> Seq<char> {
    seq!['0', 'x'] + Seq::new(
        2 * bytes.len(),
        |i: int|
            if i % 2 == 0 {
                hex_digit((bytes[i / 2] / 16) as nat)
            } else {
                hex_digit((bytes[i / 2] % 16) as nat)
            },
    )
}

/// `{:?}` of `alloy::primitives::Address`: `0x` and the lower-case hexadecimal digits of the
/// twenty bytes, without the mixed-case checksum that `{}` would print.
#[verifier::external_body]
fn debug_address(bytes: &[u8; 20]) -> (r: String)
    ensures
        r@ == address_text(bytes@),
{
    format!("{:?}", alloy::primitives::Address::new(*bytes))
}

impl Address {
    pub fn new(bytes: [u8; 20]) -> (r: Address)
        ensures
            r@ == bytes@,
    {
        Address { bytes }
    }

    fn same(&self, other: &Address) -> (r: bool)
        ensures
            r == (self@ == other@),
    {
        let mut i: usize = 0;
        while i < 20
            invariant
                i <= 20,
                forall|j: int| 0 <= j < i ==> self.bytes@[j] == other.bytes@[j],
            decreases 20 - i,
        {
            if self.bytes[i] != other.bytes[i] {
                return false;
            }
            i = i + 1;
        }
        assert(self@ =~= other@);
        true
    }
}

/// The side of the book an order rests on.
#[derive(Debug, Clone, Copy, PartialEq, Eq, Structural)]
pub enum Side {
    Ask,
    Bid,
}

pub open spec fn side_text(side: Side) -> Seq<char> {
    match side {
        Side::Ask => "Ask"@,
        Side::Bid => "Bid"@,
    }
}

pub(crate) fn side_name(side: Side) -> (r: String)
    ensures
        r@ == side_text(side),
{
    match side {
        Side::Ask => "Ask".to_owned(),
        Side::Bid => "Bid".to_owned(),
    }
}

/// A price in units of a hundred millionth.
#[derive(Debug, Clone, Copy, PartialEq, Eq, Structural)]
pub struct Px(pub u64);

impl Px {
    pub fn new(value: u64) -> (r: Px)
        ensures
            r.0 == value,
    {
        Px(value)
    }
}

/// A size in units of a hundred millionth.
#[derive(Debug, Clone, Copy, PartialEq, Eq, Structural)]
pub struct Sz(pub u64);

impl Sz {
    pub fn new(value: u64) -> (r: Sz)
        ensures
            r.0 == value,
    {
        Sz(value)
    }
}

/// The number by which the node identifies an order.
pub type Oid = u64;

/// A resting order with everything the node says of it.
#[derive(Debug)]
pub struct InnerL4Order {
    pub user: Address,
    pub coin: Coin,
    pub side: Side,
    pub limit_px: Px,
    pub sz: Sz,
    pub oid: Oid,
    pub timestamp: u64,
    pub trigger_condition: String,
    pub is_trigger: bool,
    pub trigger_px: String,
    pub is_position_tpsl: bool,
    pub reduce_only: bool,
    pub order_type: String,
    pub tif: Option<String>,
    pub cloid: Option<String>,
}

/// An order by the contents of its fields.
pub struct OrderModel {
    pub user: Seq<u8>,
    pub coin: Seq<char>,
    pub side: Side,
    pub limit_px: Px,
    pub sz: Sz,
    pub oid: Oid,
    pub timestamp: u64,
    pub trigger_condition: Seq<char>,
    pub is_trigger: bool,
    pub trigger_px: Seq<char>,
    pub is_position_tpsl: bool,
    pub reduce_only: bool,
    pub order_type: Seq<char>,
    pub tif: Option<Seq<char>>,
    pub cloid: Option<Seq<char>>,
}

pub open spec fn text_of(s: Option<String>) -> Option<Seq<char>> {
    match s {
        Some(t) => Some(t@),
        None => None,
    }
}

impl View for InnerL4Order {
    type V = OrderModel;

    open spec fn view(&self) -> OrderModel {
        OrderModel {
            user: self.user@,
            coin: self.coin@,
            side: self.side,
            limit_px: self.limit_px,
            sz: self.sz,
            oid: self.oid,
            timestamp: self.timestamp,
            trigger_condition: self.trigger_condition@,
            is_trigger: self.is_trigger,
            trigger_px: self.trigger_px@,
            is_position_tpsl: self.is_position_tpsl,
            reduce_only: self.reduce_only,
            order_type: self.order_type@,
            tif: text_of(self.tif),
            cloid: text_of(self.cloid),
        }
    }
}

pub(crate) fn copy_text(s: &Option<String>) -> (r: Option<String>)
    ensures
        r == *s,
{
    match s {
        Some(t) => Some(t.clone()),
        None => None,
    }
}

fn same_optional(a: &Option<String>, b: &Option<String>) -> (r: bool)
    ensures
        r == (text_of(*a) == text_of(*b)),
{
    match (a, b) {
        (Some(x), Some(y)) => *x == *y,
        (None, None) => true,
        _ => false,
    }
}

impl Clone for InnerL4Order {
    fn clone(&self) -> (r: Self)
        ensures
            r == *self,
    {
        InnerL4Order {
            user: self.user,
            coin: self.coin.clone(),
            side: self.side,
            limit_px: self.limit_px,
            sz: self.sz,
            oid: self.oid,
            timestamp: self.timestamp,
            trigger_condition: self.trigger_condition.clone(),
            is_trigger: self.is_trigger,
            trigger_px: self.trigger_px.clone(),
            is_position_tpsl: self.is_position_tpsl,
            reduce_only: self.reduce_only,
            order_type: self.order_type.clone(),
            tif: copy_text(&self.tif),
            cloid: copy_text(&self.cloid),
        }
    }
}

impl PartialEq for InnerL4Order {
    fn eq(&self, other: &Self) -> (r: bool) {
        self.user.same(&other.user) && self.coin.0 == other.coin.0 && self.side == other.side
            && self.limit_px == other.limit_px && self.sz == other.sz && self.oid == other.oid
            && self.timestamp == other.timestamp && self.trigger_condition == other.trigger_condition
            && self.is_trigger == other.is_trigger && self.trigger_px == other.trigger_px
            && self.is_position_tpsl == other.is_position_tpsl && self.reduce_only == other.reduce_only
            && self.order_type == other.order_type && same_optional(&self.tif, &other.tif)
            && same_optional(&self.cloid, &other.cloid)
    }
}

impl vstd::std_specs::cmp::PartialEqSpecImpl for InnerL4Order {
    open spec fn obeys_eq_spec() -> bool {
        true
    }

    open spec fn eq_spec(&self, other: &Self) -> bool {
        self@ == other@
    }
}

/// An order as the diagnostics print it.
pub open spec fn order_text(o: OrderModel) -> Seq<char> {
    "InnerL4Order { user: "@ + address_text(o.user) + ", coin: Coin("@ + quoted(o.coin) + "), side: "@
        + side_text(o.side) + ", limit_px: Px("@ + decimal(o.limit_px.0 as nat) + "), sz: Sz("@ + decimal(
        o.sz.0 as nat,
    ) + "), oid: "@ + decimal(o.oid as nat) + ", timestamp: "@ + decimal(o.timestamp as nat)
        + ", trigger_condition: "@ + quoted(o.trigger_condition) + ", is_trigger: "@ + bool_text(
        o.is_trigger,
    ) + ", trigger_px: "@ + quoted(o.trigger_px) + ", is_position_tpsl: "@ + bool_text(
        o.is_position_tpsl,
    ) + ", reduce_only: "@ + bool_text(o.reduce_only) + ", order_type: "@ + quoted(o.order_type)
        + ", tif: "@ + optional_quoted(o.tif) + ", cloid: "@ + optional_quoted(o.cloid) + " }"@
}

/// An optional string as `Some("..")` or `None`.
pub open spec fn optional_quoted(s: Option<Seq<char>>) -> Seq<char> {
    option_text(
        match s {
            Some(t) => Some(quoted(t)),
            None => None,
        },
    )
}

fn quote_optional(s: &Option<String>) -> (r: String)
    ensures
        r@ == optional_quoted(text_of(*s)),
{
    match s {
        Some(t) => wrap_option(Some(quote(t.as_str()))),
        None => wrap_option(None),
    }
}

impl InnerL4Order {
    /// The order as the diagnostics print it.
    pub fn debug_text(&self) -> (r: String)
        ensures
            r@ == order_text(self@),
    {
        let mut s = "InnerL4Order { user: ".to_owned();
        s.append(debug_address(&self.user.bytes).as_str());
        s.append(", coin: Coin(");
        s.append(quote(self.coin.0.as_str()).as_str());
        s.append("), side: ");
        s.append(side_name(self.side).as_str());
        s.append(", limit_px: Px(");
        s.append(decimal_text(self.limit_px.0).as_str());
        s.append("), sz: Sz(");
        s.append(decimal_text(self.sz.0).as_str());
        s.append("), oid: ");
        s.append(decimal_text(self.oid).as_str());
        s.append(", timestamp: ");
        s.append(decimal_text(self.timestamp).as_str());
        s.append(", trigger_condition: ");
        s.append(quote(self.trigger_condition.as_str()).as_str());
        s.append(", is_trigger: ");
        s.append(flag_text(self.is_trigger).as_str());
        s.append(", trigger_px: ");
        s.append(quote(self.trigger_px.as_str()).as_str());
        s.append(", is_position_tpsl: ");
        s.append(flag_text(self.is_position_tpsl).as_str());
        s.append(", reduce_only: ");
        s.append(flag_text(self.reduce_only).as_str());
        s.append(", order_type: ");
        s.append(quote(self.order_type.as_str()).as_str());
        s.append(", tif: ");
        s.append(quote_optional(&self.tif).as_str());
        s.append(", cloid: ");
        s.append(quote_optional(&self.cloid).as_str());
        s.append(" }");
        s
    }

    pub fn oid(&self) -> (r: Oid)
        ensures
            r == self@.oid,
    {
        self.oid
    }
}

/// The number that a hexadecimal digit stands for, in lower case.
pub open spec fn hex_value(c: char) -> int {
    if '0' <= c <= '9' {
        c as int - '0' as int
    } else {
        c as int - 'a' as int + 10
    }
}

/// An address in words is `0x` and two lower-case hexadecimal digits for each byte, in the order of the
/// bytes, the higher digit first.
pub proof fn law_address_reads_back(bytes: Seq<u8>, i: int)
    ensures
        address_text(bytes).len() == 2 + 2 * bytes.len(),
        address_text(bytes)[0] == '0',
        address_text(bytes)[1] == 'x',
        0 <= i < bytes.len() ==> {
            let high = address_text(bytes)[2 + 2 * i];
            let low = address_text(bytes)[3 + 2 * i];
            &&& '0' <= high <= '9' || 'a' <= high <= 'f'
            &&& '0' <= low <= '9' || 'a' <= low <= 'f'
            &&& 16 * hex_value(high) + hex_value(low) == bytes[i]
        },
{
    if 0 <= i < bytes.len() {
        let rest = Seq::new(
            2 * bytes.len(),
            |j: int|
                if j % 2 == 0 {
                    hex_digit((bytes[j / 2] / 16) as nat)
                } else {
                    hex_digit((bytes[j / 2] % 16) as nat)
                },
        );
        assert(address_text(bytes)[2 + 2 * i] == rest[2 * i]);
        assert(address_text(bytes)[3 + 2 * i] == rest[2 * i + 1]);
        assert((2 * i) / 2 == i && (2 * i + 1) / 2 == i);
        assert(bytes[i] / 16 < 16 && bytes[i] % 16 < 16);
    }
}

/// An order in words names each of its fields before what it holds.
pub proof fn law_order_in_words(o: OrderModel)
    ensures
        ({
            let account = "InnerL4Order { user: "@ + address_text(o.user) + ", coin: Coin("@ + quoted(o.coin);
            let place = account + "), side: "@ + side_text(o.side) + ", limit_px: Px("@ + decimal(
                o.limit_px.0 as nat,
            ) + "), sz: Sz("@ + decimal(o.sz.0 as nat) + "), oid: "@ + decimal(o.oid as nat) + ", timestamp: "@
                + decimal(o.timestamp as nat);
            let trigger = place + ", trigger_condition: "@ + quoted(o.trigger_condition) + ", is_trigger: "@
                + bool_text(o.is_trigger) + ", trigger_px: "@ + quoted(o.trigger_px) + ", is_position_tpsl: "@
                + bool_text(o.is_position_tpsl) + ", reduce_only: "@ + bool_text(o.reduce_only);
            order_text(o) == trigger + ", order_type: "@ + quoted(o.order_type) + ", tif: "@ + optional_quoted(o.tif)
                + ", cloid: "@ + optional_quoted(o.cloid) + " }"@
        }),
        optional_quoted(o.cloid) == (match o.cloid {
            Some(t) => "Some("@ + quoted(t) + ")"@,
            None => "None"@,
        }),
        side_text(Side::Bid) == "Bid"@,
        side_text(Side::Ask) == "Ask"@,
{
}

} // verus!
