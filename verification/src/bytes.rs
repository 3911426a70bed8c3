//! Unsigned numbers as bytes, in either byte order.

use vstd::prelude::*;

verus! {

/// The order in which a machine stores the bytes of a number.
#[derive(Clone, Copy, Debug, PartialEq, Eq, Structural)]
pub enum ByteOrder {
    Little,
    Big,
}

/// The number that bytes stand for, most significant byte first.
pub open spec fn be_value(s: Seq<u8>) -> nat
    decreases s.len(),
{
    if s.len() == 0 {
        0
    } else {
        be_value(s.drop_last()) * 256 + s.last() as nat
    }
}

/// The number that bytes stand for in the given order.
pub open spec fn word(s: Seq<u8>, order: ByteOrder) -> nat {
    match order {
        ByteOrder::Big => be_value(s),
        ByteOrder::Little => be_value(s.reverse()),
    }
}

/// `256` to the power of `n`.
pub open spec fn pow256(n: nat) -> nat
    decreases n,
{
    if n == 0 {
        1
    } else {
        256 * pow256((n - 1) as nat)
    }
}

/// `n` bytes hold numbers below `256` to the power of `n`.
pub proof fn lemma_be_bound(s: Seq<u8>)
    ensures
        be_value(s) < pow256(s.len()),
    decreases s.len(),
{
    if s.len() > 0 {
        lemma_be_bound(s.drop_last());
    }
}

/// Byte strings of one length that stand for the same number are the same.
pub proof fn lemma_be_injective(s: Seq<u8>, t: Seq<u8>)
    requires
        s.len() == t.len(),
        be_value(s) == be_value(t),
    ensures
        s == t,
    decreases s.len(),
{
    if s.len() > 0 {
        lemma_be_injective(s.drop_last(), t.drop_last());
        assert(s =~= s.drop_last().push(s.last()));
        assert(t =~= t.drop_last().push(t.last()));
    } else {
        assert(s =~= t);
    }
}

/// As `lemma_be_injective`, in either order.
pub proof fn lemma_word_injective(s: Seq<u8>, t: Seq<u8>, order: ByteOrder)
    requires
        s.len() == t.len(),
        word(s, order) == word(t, order),
    ensures
        s == t,
{
    match order {
        ByteOrder::Big => lemma_be_injective(s, t),
        ByteOrder::Little => {
            lemma_be_injective(s.reverse(), t.reverse());
            assert(s =~= s.reverse().reverse());
            assert(t =~= t.reverse().reverse());
        },
    }
}

/// The first place at which two byte strings differ decides: `s` comes before
/// `t` in the order of `[u8]`.
pub open spec fn lex_less(s: Seq<u8>, t: Seq<u8>) -> bool {
    exists|k: int|
        0 <= k < s.len() && k < t.len() && s.take(k) == t.take(k) && #[trigger] s[k] < t[k]
}

/// For byte strings of one length, their order as `[u8]` is the order of the
/// numbers they stand for, most significant byte first.
pub proof fn law_lex_order_is_numeric(s: Seq<u8>, t: Seq<u8>)
    requires
        s.len() == t.len(),
    ensures
        lex_less(s, t) <==> be_value(s) < be_value(t),
    decreases s.len(),
{
    if s.len() > 0 {
        let n = s.len() - 1;
        let (a, b) = (s.drop_last(), t.drop_last());
        law_lex_order_is_numeric(a, b);
        if lex_less(s, t) {
            let k = choose|k: int|
                0 <= k < s.len() && k < t.len() && s.take(k) == t.take(k) && #[trigger] s[k] < t[k];
            if k < n {
                assert(a.take(k) =~= s.take(k));
                assert(b.take(k) =~= t.take(k));
                assert(a[k] < b[k]);
                assert(lex_less(a, b));
            } else {
                assert(a =~= s.take(n));
                assert(b =~= t.take(n));
            }
        }
        if be_value(s) < be_value(t) {
            if be_value(a) < be_value(b) {
                let k = choose|k: int|
                    0 <= k < a.len() && k < b.len() && a.take(k) == b.take(k) && #[trigger] a[k]
                        < b[k];
                assert(a.take(k) =~= s.take(k));
                assert(b.take(k) =~= t.take(k));
                assert(s[k] < t[k]);
            } else {
                assert(be_value(a) == be_value(b));
                lemma_be_injective(a, b);
                assert(a =~= s.take(n));
                assert(b =~= t.take(n));
                assert(s[n] < t[n]);
            }
        }
    }
}

/// The `width` bytes of `v`, most significant byte first.
pub fn be_bytes(v: u128, width: usize) -> (r: Vec<u8>)
    requires
        v < pow256(width as nat),
    ensures
        r@.len() == width,
        be_value(r@) == v,
    decreases width,
{
    if width == 0 {
        return Vec::new();
    }
    let mut out = be_bytes(v / 256, width - 1);
    let ghost head = out@;
    out.push((v % 256) as u8);
    assert(out@.drop_last() =~= head);
    out
}

/// Appends the `width` bytes of `v` in the given order.
pub fn put_word(out: &mut Vec<u8>, v: u128, width: usize, order: ByteOrder)
    requires
        v < pow256(width as nat),
    ensures
        final(out)@.len() == old(out)@.len() + width,
        final(out)@.take(old(out)@.len() as int) == old(out)@,
        word(final(out)@.skip(old(out)@.len() as int), order) == v,
{
    let bytes = be_bytes(v, width);
    let ghost start = out@;
    let mut i: usize = 0;
    while i < width
        invariant
            i <= width == bytes@.len(),
            out@ == start + (match order {
                ByteOrder::Big => bytes@,
                ByteOrder::Little => bytes@.reverse(),
            }).take(i as int),
        decreases width - i,
    {
        let b: u8 = match order {
            ByteOrder::Big => bytes[i],
            ByteOrder::Little => bytes[width - 1 - i],
        };
        out.push(b);
        i += 1;
        assert(out@ =~= start + (match order {
            ByteOrder::Big => bytes@,
            ByteOrder::Little => bytes@.reverse(),
        }).take(i as int));
    }
    proof {
        assert(out@.take(start.len() as int) =~= start);
        match order {
            ByteOrder::Big => assert(out@.skip(start.len() as int) =~= bytes@),
            ByteOrder::Little => {
                assert(out@.skip(start.len() as int) =~= bytes@.reverse());
                assert(bytes@.reverse().reverse() =~= bytes@);
            },
        }
    }
}

/// Reads the number at `from..to` in the given order.
pub fn get_word(bytes: &[u8], from: usize, to: usize, order: ByteOrder) -> (r: u128)
    requires
        from <= to <= bytes@.len(),
        to - from <= 8,
    ensures
        r == word(bytes@.subrange(from as int, to as int), order),
        r < pow256((to - from) as nat),
{
    let n: usize = to - from;
    let ghost whole = match order {
        ByteOrder::Big => bytes@.subrange(from as int, to as int),
        ByteOrder::Little => bytes@.subrange(from as int, to as int).reverse(),
    };
    let mut acc: u128 = 0;
    let mut i: usize = 0;
    while i < n
        invariant
            from <= to <= bytes@.len(),
            n == to - from,
            i <= n <= 8,
            whole == (match order {
                ByteOrder::Big => bytes@.subrange(from as int, to as int),
                ByteOrder::Little => bytes@.subrange(from as int, to as int).reverse(),
            }),
            acc == be_value(whole.take(i as int)),
        decreases n - i,
    {
        let b: u8 = match order {
            ByteOrder::Big => bytes[from + i],
            ByteOrder::Little => bytes[to - 1 - i],
        };
        proof {
            lemma_be_bound(whole.take(i as int));
            reveal_with_fuel(pow256, 9);
            assert(whole.take(i + 1).drop_last() =~= whole.take(i as int));
            assert(whole.take(i + 1).last() == b);
        }
        acc = acc * 256 + b as u128;
        i += 1;
    }
    proof {
        assert(whole.take(n as int) =~= whole);
        lemma_be_bound(whole);
    }
    acc
}

/// The byte order of the machine, whichever it is.
pub open spec fn native_order() -> ByteOrder {
    match vstd::endian::endianness() {
        vstd::endian::Endian::Little => ByteOrder::Little,
        vstd::endian::Endian::Big => ByteOrder::Big,
    }
}

/// `bytemuck::bytes_of` hands out the bytes of a number as the machine stores
/// them, that is, in the byte order of the machine. Which order that is stays
/// open.
#[verifier::external_body]
fn stored_bytes(v: u32) -> (r: Vec<u8>)
    ensures
        r@.len() == 4,
        word(r@, native_order()) == v,
{
    bytemuck::bytes_of(&v).to_vec()
}

/// Four bytes do not hold the number one in both orders.
proof fn lemma_one_order(s: Seq<u8>)
    requires
        s.len() == 4,
    ensures
        word(s, ByteOrder::Little) != 1 || word(s, ByteOrder::Big) != 1,
{
    reveal_with_fuel(be_value, 5);
}

impl ByteOrder {
    /// The order in which the four bytes hold the number one.
    pub fn of_one(stored: &Vec<u8>) -> (r: ByteOrder)
        requires
            stored@.len() == 4,
            word(stored@, ByteOrder::Little) == 1 || word(stored@, ByteOrder::Big) == 1,
        ensures
            word(stored@, r) == 1,
    {
        proof {
            reveal_with_fuel(be_value, 5);
        }
        if stored[0] == 1 {
            ByteOrder::Little
        } else {
            ByteOrder::Big
        }
    }

    /// The byte order of the machine.
    pub fn native() -> (r: ByteOrder)
        ensures
            r == native_order(),
    {
        let stored = stored_bytes(1);
        proof {
            lemma_one_order(stored@);
        }
        ByteOrder::of_one(&stored)
    }
}

/// Numbers from bytes: one byte is its own number, and a number that is followed by
/// another is shifted by as many bytes as the other has.
pub proof fn law_numbers_of_bytes(s: Seq<u8>, t: Seq<u8>, b: u8)
    ensures
        be_value(Seq::empty()) == 0,
        be_value(seq![b]) == b,
        be_value(s + t) == be_value(s) * pow256(t.len()) + be_value(t),
        pow256(0) == 1,
        pow256(t.len() + 1) == 256 * pow256(t.len()),
    decreases t.len(),
{
    assert(seq![b].drop_last() =~= Seq::empty());
    assert(be_value(seq![b]) == be_value(Seq::<u8>::empty()) * 256 + b);
    if t.len() == 0 {
        assert(s + t =~= s);
        assert(be_value(s) * pow256(0) == be_value(s)) by (nonlinear_arith)
            requires
                pow256(0) == 1,
        ;
    } else {
        let u = t.drop_last();
        law_numbers_of_bytes(s, u, b);
        assert((s + t).drop_last() =~= s + u);
        let a = be_value(s) as int;
        let p = pow256(u.len()) as int;
        let q = be_value(u) as int;
        assert((a * p + q) * 256 == a * (256 * p) + q * 256) by (nonlinear_arith);
    }
}

/// The two orders: the most significant byte comes first in the one and last in the
/// other, so that either reads what the other wrote backwards.
pub proof fn law_byte_orders(s: Seq<u8>, b: u8)
    ensures
        word(Seq::empty(), ByteOrder::Big) == 0,
        word(Seq::empty(), ByteOrder::Little) == 0,
        word(s.push(b), ByteOrder::Big) == word(s, ByteOrder::Big) * 256 + b,
        word(seq![b] + s, ByteOrder::Little) == word(s, ByteOrder::Little) * 256 + b,
        word(s, ByteOrder::Little) == word(s.reverse(), ByteOrder::Big),
{
    assert(Seq::<u8>::empty().reverse() =~= Seq::empty());
    assert(s.push(b).drop_last() =~= s);
    assert((seq![b] + s).reverse() =~= s.reverse().push(b));
    assert(s.reverse().push(b).drop_last() =~= s.reverse());
}

} // verus!
