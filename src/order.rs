use vstd::prelude::*;

use vstd::utf8::encode_utf8;

use crate::error::EngineError;

verus! {

pub const BID: bool = true;

pub const ASK: bool = false;

/// The decimal digit for `d < 10`.
pub open spec fn digit_char(d: nat) -> char {
    seq!['0', '1', '2', '3', '4', '5', '6', '7', '8', '9'][d as int]
}

/// Decimal text of a natural number, without leading zeros.
pub open spec fn nat_text(n: nat) -> Seq<char>
    decreases n,
{
    if n < 10 {
        seq![digit_char(n)]
    } else {
        nat_text(n / 10).push(digit_char(n % 10))
    }
}

/// Decimal text of an integer, with a leading `-` when negative.
pub open spec fn int_text(n: int) -> Seq<char> {
    if n < 0 {
        seq!['-'] + nat_text((-n) as nat)
    } else {
        nat_text(n as nat)
    }
}

pub open spec fn bool_text(b: bool) -> Seq<char> {
    if b {
        seq!['t', 'r', 'u', 'e']
    } else {
        seq!['f', 'a', 'l', 's', 'e']
    }
}

/// The one-character text of a decimal digit.
fn digit_str(d: u128) -> (r: &'static str)
    requires
        d < 10,
    ensures
        r@ == seq![digit_char(d as nat)],
{
    proof {
        reveal_strlit("0");
        reveal_strlit("1");
        reveal_strlit("2");
        reveal_strlit("3");
        reveal_strlit("4");
        reveal_strlit("5");
        reveal_strlit("6");
        reveal_strlit("7");
        reveal_strlit("8");
        reveal_strlit("9");
    }
    if d == 0 {
        "0"
    } else if d == 1 {
        "1"
    } else if d == 2 {
        "2"
    } else if d == 3 {
        "3"
    } else if d == 4 {
        "4"
    } else if d == 5 {
        "5"
    } else if d == 6 {
        "6"
    } else if d == 7 {
        "7"
    } else if d == 8 {
        "8"
    } else {
        "9"
    }
}

/// Appends the decimal text of `n` to `s`.
fn append_decimal(s: &mut String, n: u128)
    ensures
        final(s)@ == old(s)@ + nat_text(n as nat),
    decreases n,
{
    if n >= 10 {
        append_decimal(s, n / 10);
    }
    s.append(digit_str(n % 10));
    proof {
        if n >= 10 {
            assert(final(s)@ =~= old(s)@ + nat_text((n / 10) as nat).push(digit_char((n % 10) as nat)));
        } else {
            assert(final(s)@ =~= old(s)@ + nat_text(n as nat));
        }
    }
}

/// Appends the decimal text of `n` to `s`, signed.
fn append_signed_decimal(s: &mut String, n: i128)
    ensures
        final(s)@ == old(s)@ + int_text(n as int),
{
    if n < 0 {
        s.append("-");
        let magnitude: u128 = (-(n + 1)) as u128 + 1;
        append_decimal(s, magnitude);
        proof {
            reveal_strlit("-");
            assert(final(s)@ =~= old(s)@ + int_text(n as int));
        }
    } else {
        append_decimal(s, n as u128);
    }
}

/// The text an order's id is hashed from: target, timestamp, price, size, side.
pub open spec fn order_key(t: i128, c: Seq<char>, sd: bool, p: u128, sz: u128) -> Seq<char> {
    c + int_text(t as int) + nat_text(p as nat) + nat_text(sz as nat) + bool_text(sd)
}

/// The big-endian value of a byte string.
pub open spec fn be_value(s: Seq<u8>) -> nat
    decreases s.len(),
{
    if s.len() == 0 {
        0
    } else {
        be_value(s.drop_last()) * 256 + s.last() as nat
    }
}

/// The id an order takes from a digest of its key: the digest's first 16
/// bytes, big-endian.
pub open spec fn id_of_digest(digest: Seq<u8>) -> nat {
    be_value(digest.subrange(0, 16))
}

proof fn lemma_be_value_bound(s: Seq<u8>)
    ensures
        be_value(s) < pow256(s.len()),
    decreases s.len(),
{
    if s.len() > 0 {
        lemma_be_value_bound(s.drop_last());
        let a = be_value(s.drop_last());
        let b = pow256((s.len() - 1) as nat);
        let l = s.last() as nat;
        assert(a * 256 + l < b * 256) by (nonlinear_arith)
            requires
                a < b,
                l < 256,
        ;
    }
}

pub open spec fn pow256(n: nat) -> nat
    decreases n,
{
    if n == 0 {
        1
    } else {
        pow256((n - 1) as nat) * 256
    }
}

/// The big-endian `u128` of the first 16 bytes.
fn be_u128(b: &Vec<u8>) -> (r: u128)
    requires
        b@.len() >= 16,
    ensures
        r as nat == be_value(b@.subrange(0, 16)),
{
    let mut acc: u128 = 0;
    let mut i: usize = 0;
    while i < 16
        invariant
            i <= 16 <= b@.len(),
            acc as nat == be_value(b@.subrange(0, i as int)),
        decreases 16 - i,
    {
        proof {
            assert(b@.subrange(0, i as int + 1).drop_last() =~= b@.subrange(0, i as int));
            lemma_be_value_bound(b@.subrange(0, i as int));
            lemma_pow256_mono(i as nat, 15);
            reveal_with_fuel(pow256, 16);
            assert(pow256(15) == 1329227995784915872903807060280344576);
            let x = acc as int;
            let y = b[i as int] as int;
            assert(x * 256 + y <= 0xffff_ffff_ffff_ffff_ffff_ffff_ffff_ffff) by (nonlinear_arith)
                requires
                    x < 1329227995784915872903807060280344576,
                    0 <= y < 256,
            ;
        }
        acc = acc * 256 + b[i] as u128;
        i = i + 1;
    }
    acc
}

proof fn lemma_pow256_mono(a: nat, b: nat)
    requires
        a <= b,
    ensures
        pow256(a) <= pow256(b),
    decreases b,
{
    if a < b {
        lemma_pow256_mono(a, (b - 1) as nat);
    }
}

/// An order of the book: a bid (`side == BID`) or an ask at a price level.
pub struct LimitOrder {
    pub timestamp: i128,
    /// The account that placed the order.
    pub address: String,
    /// The settlement target; empty when the order settles without one.
    pub callable: String,
    pub id: u128,
    pub side: bool,
    pub price: u128,
    pub size: u128,
    pub status: bool,
    /// Set once the order takes part in a match.
    pub pending: bool,
}

impl Clone for LimitOrder {
    fn clone(&self) -> (r: Self)
        ensures
            r == *self,
    {
        LimitOrder {
            timestamp: self.timestamp,
            address: self.address.clone(),
            callable: self.callable.clone(),
            id: self.id,
            side: self.side,
            price: self.price,
            size: self.size,
            status: self.status,
            pending: self.pending,
        }
    }
}

impl Default for LimitOrder {
    /// An ask of size zero at price zero, with id zero and no owner or target.
    fn default() -> (r: Self)
        ensures
            r.timestamp == 0,
            r.address@.len() == 0,
            r.callable@.len() == 0,
            r.id == 0,
            !r.side,
            r.price == 0,
            r.size == 0,
            !r.status,
            !r.pending,
    {
        LimitOrder {
            timestamp: 0,
            address: String::new(),
            callable: String::new(),
            id: 0,
            side: false,
            price: 0,
            size: 0,
            status: false,
            pending: false,
        }
    }
}

impl LimitOrder {
    /// A new unlocked order of `owner`. Its id is taken from `digest`, the
    /// hash of the order's key bytes (see `key_bytes`) that the host computes.
    pub fn new(t: i128, c: String, sd: bool, p: u128, sz: u128, owner: String, digest: &Vec<u8>) -> (r: Self)
        requires
            digest@.len() >= 16,
        ensures
            r.timestamp == t,
            r.address == owner,
            r.callable == c,
            r.id as nat == id_of_digest(digest@),
            r.side == sd,
            r.price == p,
            r.size == sz,
            !r.status,
            !r.pending,
    {
        let id = be_u128(digest);
        LimitOrder {
            timestamp: t,
            address: owner,
            callable: c,
            id,
            side: sd,
            price: p,
            size: sz,
            status: false,
            pending: false,
        }
    }

    /// The UTF-8 bytes of the key an order's id is hashed from: target,
    /// timestamp, price, size and side, as decimal text one after another.
    pub fn key_bytes(t: i128, c: &String, sd: bool, p: u128, sz: u128) -> (r: Vec<u8>)
        ensures
            r@ == encode_utf8(order_key(t, c@, sd, p, sz)),
    {
        let mut key = c.clone();
        append_signed_decimal(&mut key, t);
        append_decimal(&mut key, p);
        append_decimal(&mut key, sz);
        if sd {
            key.append("true");
        } else {
            key.append("false");
        }
        proof {
            reveal_strlit("true");
            reveal_strlit("false");
            assert(key@ =~= order_key(t, c@, sd, p, sz));
        }
        key.as_str().as_bytes_vec()
    }

    /// Marks the order as taking part in a match; idempotent.
    pub fn lock(&mut self)
        ensures
            *final(self) == (LimitOrder { pending: true, ..*old(self) }),
    {
        self.pending = true;
    }

    /// Takes `a` off the order's size; fails with `Underflow`, changing
    /// nothing, when `a` exceeds it.
    pub fn sub(&mut self, a: u128) -> (r: Result<(), EngineError>)
        ensures
            a <= old(self).size ==> r is Ok && *final(self) == (LimitOrder {
                size: (old(self).size - a) as u128,
                ..*old(self)
            }),
            a > old(self).size ==> r == Err::<(), EngineError>(EngineError::Underflow)
                && *final(self) == *old(self),
    {
        if a > self.size {
            return Err(EngineError::Underflow);
        }
        self.size = self.size - a;
        Ok(())
    }
}

} // verus!
