//! Order-preserving byte forms of the parts of a key: fixed-width big-endian
//! integers, and byte strings that are escaped and closed by a terminator.
use vstd::prelude::*;
use crate::storage::lex::{lemma_lex_lt_common_prefix, lemma_lex_lt_push, lex_lt};

verus! {

/// The number of values that `width` bytes can hold.
pub open spec fn radix_bound(width: nat) -> nat
    decreases width,
{
    if width == 0 {
        1
    } else {
        256 * radix_bound((width - 1) as nat)
    }
}

/// The `width` lowest base-256 digits of `value`, most significant first.
pub open spec fn be_bytes(value: nat, width: nat) -> Seq<u8>
    decreases width,
{
    if width == 0 {
        Seq::empty()
    } else {
        be_bytes(value / 256, (width - 1) as nat).push((value % 256) as u8)
    }
}

/// The number whose base-256 digits, most significant first, are `bytes`.
pub open spec fn be_value(bytes: Seq<u8>) -> nat
    decreases bytes.len(),
{
    if bytes.len() == 0 {
        0
    } else {
        be_value(bytes.drop_last()) * 256 + bytes.last() as nat
    }
}

/// The eight bytes of a 64-bit integer, most significant first.
pub open spec fn be_u64(value: u64) -> Seq<u8> {
    be_bytes(value as nat, 8)
}

pub proof fn lemma_radix_bound_u64()
    ensures
        radix_bound(8) == 0x1_0000_0000_0000_0000,
{
    reveal_with_fuel(radix_bound, 9);
}

pub proof fn lemma_be_bytes_len(value: nat, width: nat)
    ensures
        be_bytes(value, width).len() == width,
    decreases width,
{
    if width > 0 {
        lemma_be_bytes_len(value / 256, (width - 1) as nat);
    }
}

pub proof fn lemma_be_value_of_bytes(value: nat, width: nat)
    requires
        value < radix_bound(width),
    ensures
        be_value(be_bytes(value, width)) == value,
    decreases width,
{
    if width > 0 {
        let front = be_bytes(value / 256, (width - 1) as nat);
        lemma_be_value_of_bytes(value / 256, (width - 1) as nat);
        assert(front.push((value % 256) as u8).drop_last() =~= front);
    }
}

pub proof fn lemma_be_bytes_of_value(bytes: Seq<u8>)
    ensures
        be_value(bytes) < radix_bound(bytes.len()),
        be_bytes(be_value(bytes), bytes.len()) == bytes,
    decreases bytes.len(),
{
    if bytes.len() > 0 {
        lemma_be_bytes_of_value(bytes.drop_last());
        let value = be_value(bytes);
        assert(value / 256 == be_value(bytes.drop_last()));
        assert(value % 256 == bytes.last() as nat);
        assert(bytes.drop_last().push(bytes.last()) =~= bytes);
    } else {
        assert(be_bytes(0, 0) =~= bytes);
    }
}

/// Big-endian bytes of one width sort as the numbers they stand for.
pub proof fn lemma_be_bytes_order(a: nat, b: nat, width: nat)
    requires
        a < radix_bound(width),
        b < radix_bound(width),
    ensures
        lex_lt(be_bytes(a, width), be_bytes(b, width)) == (a < b),
        (be_bytes(a, width) == be_bytes(b, width)) == (a == b),
    decreases width,
{
    if width > 0 {
        let rest = (width - 1) as nat;
        lemma_be_bytes_order(a / 256, b / 256, rest);
        lemma_be_bytes_len(a / 256, rest);
        lemma_be_bytes_len(b / 256, rest);
        lemma_lex_lt_push(
            be_bytes(a / 256, rest),
            be_bytes(b / 256, rest),
            (a % 256) as u8,
            (b % 256) as u8,
        );
        lemma_be_value_of_bytes(a, width);
        lemma_be_value_of_bytes(b, width);
    }
}

pub proof fn lemma_be_u64_order(a: u64, b: u64)
    ensures
        be_u64(a).len() == 8,
        lex_lt(be_u64(a), be_u64(b)) == (a < b),
        (be_u64(a) == be_u64(b)) == (a == b),
        be_value(be_u64(a)) == a,
{
    lemma_radix_bound_u64();
    lemma_be_bytes_len(a as nat, 8);
    lemma_be_bytes_order(a as nat, b as nat, 8);
    lemma_be_value_of_bytes(a as nat, 8);
}

pub proof fn lemma_be_u64_of_value(bytes: Seq<u8>)
    requires
        bytes.len() == 8,
    ensures
        be_value(bytes) <= u64::MAX,
        be_u64(be_value(bytes) as u64) == bytes,
{
    lemma_radix_bound_u64();
    lemma_be_bytes_of_value(bytes);
}

/// Appends the big-endian bytes of `value`.
pub fn push_be_u64(out: &mut Vec<u8>, value: u64)
    ensures
        final(out)@ == old(out)@ + be_u64(value),
{
    let mut digits: [u8; 8] = [0; 8];
    let mut rest: u64 = value;
    let mut i: usize = 8;
    while i > 0
        invariant
            i <= 8,
            be_u64(value) == be_bytes(rest as nat, i as nat) + digits@.subrange(i as int, 8),
        decreases i,
    {
        let ghost before = digits@;
        i = i - 1;
        digits[i] = (rest % 256) as u8;
        proof {
            assert(digits@.subrange(i as int, 8) =~= seq![(rest % 256) as u8] + before.subrange(
                i + 1,
                8,
            ));
            assert(be_bytes(rest as nat, (i + 1) as nat) + before.subrange(i + 1, 8) =~= be_bytes(
                (rest / 256) as nat,
                i as nat,
            ) + digits@.subrange(i as int, 8));
        }
        rest = rest / 256;
    }
    let mut j: usize = 0;
    while j < 8
        invariant
            j <= 8,
            out@ == old(out)@ + digits@.subrange(0, j as int),
        decreases 8 - j,
    {
        out.push(digits[j]);
        proof {
            assert(digits@.subrange(0, j + 1) =~= digits@.subrange(0, j as int).push(
                digits@[j as int],
            ));
        }
        j = j + 1;
    }
    proof {
        assert(be_bytes(rest as nat, 0) =~= Seq::<u8>::empty());
        assert(digits@.subrange(0, 8) =~= be_u64(value));
    }
}

/// Reads the eight bytes from `at` on as a big-endian integer.
pub fn read_be_u64(bytes: &[u8], at: usize) -> (value: u64)
    requires
        at + 8 <= bytes@.len(),
    ensures
        value == be_value(bytes@.subrange(at as int, at + 8)),
{
    let len: usize = bytes.len();
    let mut value: u64 = 0;
    let mut i: usize = 0;
    while i < 8
        invariant
            i <= 8,
            at + 8 <= len,
            len == bytes@.len(),
            value == be_value(bytes@.subrange(at as int, at + i)),
            value < radix_bound(i as nat),
        decreases 8 - i,
    {
        proof {
            lemma_radix_bound_u64();
            reveal_with_fuel(radix_bound, 9);
            let taken = bytes@.subrange(at as int, at + i + 1);
            assert(taken.drop_last() =~= bytes@.subrange(at as int, at + i));
            assert(taken.last() == bytes@[at + i]);
        }
        value = value * 256 + bytes[at + i] as u64;
        i = i + 1;
    }
    value
}

/// A byte string with each zero byte followed by `0xff`, so that two zero
/// bytes in a row never occur inside it.
pub open spec fn escaped(bytes: Seq<u8>) -> Seq<u8>
    decreases bytes.len(),
{
    if bytes.len() == 0 {
        Seq::empty()
    } else if bytes[0] == 0 {
        seq![0u8, 0xffu8] + escaped(bytes.drop_first())
    } else {
        seq![bytes[0]] + escaped(bytes.drop_first())
    }
}

/// An escaped byte string closed by two zero bytes.
pub open spec fn terminated(bytes: Seq<u8>) -> Seq<u8> {
    escaped(bytes) + seq![0u8, 0u8]
}

/// Reads a terminated byte string from the front of `input`: the byte string
/// and the number of bytes that it took, or `None` where `input` does not
/// begin with one.
pub open spec fn parse_terminated(input: Seq<u8>) -> Option<(Seq<u8>, int)>
    decreases input.len(),
{
    if input.len() == 0 {
        None
    } else if input[0] != 0 {
        match parse_terminated(input.drop_first()) {
            Some((bytes, taken)) => Some((seq![input[0]] + bytes, taken + 1)),
            None => None,
        }
    } else if input.len() < 2 {
        None
    } else if input[1] == 0 {
        Some((Seq::empty(), 2))
    } else if input[1] == 0xff {
        match parse_terminated(input.skip(2)) {
            Some((bytes, taken)) => Some((seq![0u8] + bytes, taken + 2)),
            None => None,
        }
    } else {
        None
    }
}

pub proof fn lemma_escaped_concat(a: Seq<u8>, b: Seq<u8>)
    ensures
        escaped(a + b) == escaped(a) + escaped(b),
    decreases a.len(),
{
    if a.len() == 0 {
        assert(a + b =~= b);
        assert(escaped(a) + escaped(b) =~= escaped(b));
    } else {
        assert((a + b).drop_first() =~= a.drop_first() + b);
        lemma_escaped_concat(a.drop_first(), b);
        if a[0] == 0 {
            assert(seq![0u8, 0xffu8] + (escaped(a.drop_first()) + escaped(b)) =~= (seq![
                0u8,
                0xffu8,
            ] + escaped(a.drop_first())) + escaped(b));
        } else {
            assert(seq![a[0]] + (escaped(a.drop_first()) + escaped(b)) =~= (seq![a[0]]
                + escaped(a.drop_first())) + escaped(b));
        }
    }
}

/// Parsing undoes `terminated`, whatever follows the terminator.
pub proof fn lemma_parse_terminated(bytes: Seq<u8>, rest: Seq<u8>)
    ensures
        parse_terminated(terminated(bytes) + rest) == Some((bytes, terminated(bytes).len() as int)),
    decreases bytes.len(),
{
    let input = terminated(bytes) + rest;
    if bytes.len() == 0 {
        assert(terminated(bytes) =~= seq![0u8, 0u8]);
        assert(input[0] == 0 && input[1] == 0);
        assert(bytes =~= Seq::<u8>::empty());
    } else {
        let tail = bytes.drop_first();
        lemma_parse_terminated(tail, rest);
        if bytes[0] == 0 {
            assert(input =~= seq![0u8, 0xffu8] + (terminated(tail) + rest));
            assert(input.skip(2) =~= terminated(tail) + rest);
            assert(terminated(bytes).len() == terminated(tail).len() + 2);
        } else {
            assert(input =~= seq![bytes[0]] + (terminated(tail) + rest));
            assert(input.drop_first() =~= terminated(tail) + rest);
            assert(terminated(bytes).len() == terminated(tail).len() + 1);
        }
        assert(bytes =~= seq![bytes[0]] + tail);
    }
}

/// What parsing accepts is a terminated byte string at the front of the input.
pub proof fn lemma_parse_terminated_sound(input: Seq<u8>)
    ensures
        parse_terminated(input) matches Some((bytes, taken)) ==> 0 <= taken <= input.len()
            && input.subrange(0, taken) == terminated(bytes),
    decreases input.len(),
{
    if input.len() == 0 {
    } else if input[0] != 0 {
        lemma_parse_terminated_sound(input.drop_first());
        if let Some((bytes, taken)) = parse_terminated(input.drop_first()) {
            let whole = seq![input[0]] + bytes;
            assert(whole.drop_first() =~= bytes);
            assert(input.subrange(0, taken + 1) =~= seq![input[0]] + input.drop_first().subrange(
                0,
                taken,
            ));
            assert(terminated(whole) =~= seq![input[0]] + terminated(bytes));
        }
    } else if input.len() >= 2 {
        if input[1] == 0 {
            assert(input.subrange(0, 2) =~= seq![0u8, 0u8]);
            assert(terminated(Seq::<u8>::empty()) =~= seq![0u8, 0u8]);
        } else if input[1] == 0xff {
            lemma_parse_terminated_sound(input.skip(2));
            if let Some((bytes, taken)) = parse_terminated(input.skip(2)) {
                let whole = seq![0u8] + bytes;
                assert(whole.drop_first() =~= bytes);
                assert(input.subrange(0, taken + 2) =~= seq![0u8, 0xffu8] + input.skip(
                    2,
                ).subrange(0, taken));
                assert(terminated(whole) =~= seq![0u8, 0xffu8] + terminated(bytes));
            }
        }
    }
}

/// An escaped byte string begins a terminated one only where the byte string
/// itself begins the other.
pub proof fn lemma_escaped_prefix(prefix: Seq<u8>, bytes: Seq<u8>, rest: Seq<u8>)
    ensures
        escaped(prefix).is_prefix_of(terminated(bytes) + rest) == prefix.is_prefix_of(bytes),
    decreases prefix.len(),
{
    let whole = terminated(bytes) + rest;
    if prefix.len() == 0 {
    } else if bytes.len() == 0 {
        assert(whole[0] == 0 && whole[1] == 0);
        if escaped(prefix).is_prefix_of(whole) {
            assert(escaped(prefix)[0] == whole[0]);
            assert(escaped(prefix)[1] == whole[1]);
        }
    } else {
        let p = prefix.drop_first();
        let b = bytes.drop_first();
        lemma_escaped_prefix(p, b, rest);
        let inner = terminated(b) + rest;
        if bytes[0] == 0 {
            assert(whole =~= seq![0u8, 0xffu8] + inner);
        } else {
            assert(whole =~= seq![bytes[0]] + inner);
        }
        if prefix[0] == bytes[0] {
            if bytes[0] == 0 {
                assert(escaped(prefix) =~= seq![0u8, 0xffu8] + escaped(p));
                assert(whole.skip(2) =~= inner);
                assert(escaped(prefix).skip(2) =~= escaped(p));
                if escaped(prefix).is_prefix_of(whole) {
                    assert(escaped(p) =~= inner.subrange(0, escaped(p).len() as int)) by {
                        assert forall|i: int| 0 <= i < escaped(p).len() implies escaped(p)[i]
                            == inner[i] by {
                            assert(escaped(prefix)[i + 2] == whole[i + 2]);
                        }
                    }
                }
                if escaped(p).is_prefix_of(inner) {
                    assert(escaped(prefix) =~= whole.subrange(0, escaped(prefix).len() as int));
                }
            } else {
                assert(escaped(prefix) =~= seq![bytes[0]] + escaped(p));
                assert(whole.drop_first() =~= inner);
                if escaped(prefix).is_prefix_of(whole) {
                    assert(escaped(p) =~= inner.subrange(0, escaped(p).len() as int)) by {
                        assert forall|i: int| 0 <= i < escaped(p).len() implies escaped(p)[i]
                            == inner[i] by {
                            assert(escaped(prefix)[i + 1] == whole[i + 1]);
                        }
                    }
                }
                if escaped(p).is_prefix_of(inner) {
                    assert(escaped(prefix) =~= whole.subrange(0, escaped(prefix).len() as int));
                }
            }
            if prefix.is_prefix_of(bytes) {
                assert(p =~= b.subrange(0, p.len() as int));
            }
            if p.is_prefix_of(b) {
                assert forall|i: int| 0 <= i < prefix.len() implies prefix[i] == bytes[i] by {
                    if i > 0 {
                        assert(prefix[i] == p[i - 1]);
                        assert(p[i - 1] == b.subrange(0, p.len() as int)[i - 1]);
                    }
                }
                assert(prefix =~= bytes.subrange(0, prefix.len() as int));
            }
        } else {
            if escaped(prefix).is_prefix_of(whole) {
                assert(escaped(prefix)[0] == whole[0]);
            }
            if prefix.is_prefix_of(bytes) {
                assert(prefix[0] == bytes.subrange(0, prefix.len() as int)[0]);
            }
        }
    }
}

/// Terminated byte strings sort as the byte strings they stand for,
/// whatever follows their terminators.
pub proof fn lemma_terminated_order(a: Seq<u8>, b: Seq<u8>, after_a: Seq<u8>, after_b: Seq<u8>)
    requires
        a != b,
    ensures
        lex_lt(terminated(a) + after_a, terminated(b) + after_b) == lex_lt(a, b),
    decreases a.len(),
{
    let x = terminated(a) + after_a;
    let y = terminated(b) + after_b;
    if a.len() == 0 {
        assert(b.len() > 0) by {
            if b.len() == 0 {
                assert(a =~= b);
            }
        }
        assert(x[0] == 0 && x[1] == 0);
        if b[0] == 0 {
            assert(y[0] == 0 && y[1] == 0xff);
            assert(x.drop_first()[0] == 0 && y.drop_first()[0] == 0xff);
            assert(lex_lt(x.drop_first(), y.drop_first()));
        } else {
            assert(y[0] == b[0]);
        }
        assert(lex_lt(x, y));
    } else if b.len() == 0 {
        assert(y[0] == 0 && y[1] == 0);
        if a[0] == 0 {
            assert(x[0] == 0 && x[1] == 0xff);
            assert(x.drop_first()[0] == 0xff && y.drop_first()[0] == 0);
            assert(!lex_lt(x.drop_first(), y.drop_first()));
        } else {
            assert(x[0] == a[0]);
        }
        assert(!lex_lt(x, y));
    } else {
        let rest_a = terminated(a.drop_first()) + after_a;
        let rest_b = terminated(b.drop_first()) + after_b;
        if a[0] == 0 {
            assert(x =~= seq![0u8, 0xffu8] + rest_a);
        } else {
            assert(x =~= seq![a[0]] + rest_a);
        }
        if b[0] == 0 {
            assert(y =~= seq![0u8, 0xffu8] + rest_b);
        } else {
            assert(y =~= seq![b[0]] + rest_b);
        }
        assert(x[0] == a[0] && y[0] == b[0]);
        if a[0] == b[0] {
            assert(a.drop_first() != b.drop_first()) by {
                if a.drop_first() == b.drop_first() {
                    assert(a =~= seq![a[0]] + a.drop_first());
                    assert(b =~= seq![b[0]] + b.drop_first());
                }
            }
            lemma_terminated_order(a.drop_first(), b.drop_first(), after_a, after_b);
            if a[0] == 0 {
                lemma_lex_lt_common_prefix(seq![0u8, 0xffu8], rest_a, rest_b);
            } else {
                lemma_lex_lt_common_prefix(seq![a[0]], rest_a, rest_b);
            }
        }
    }
}

/// Appends the escaped form of `bytes`.
pub fn push_escaped(out: &mut Vec<u8>, bytes: &[u8])
    ensures
        final(out)@ == old(out)@ + escaped(bytes@),
{
    let mut i: usize = 0;
    proof {
        assert(bytes@.subrange(0, 0) =~= Seq::<u8>::empty());
        assert(old(out)@ + escaped(Seq::<u8>::empty()) =~= old(out)@);
    }
    while i < bytes.len()
        invariant
            i <= bytes@.len(),
            out@ == old(out)@ + escaped(bytes@.subrange(0, i as int)),
        decreases bytes@.len() - i,
    {
        let byte: u8 = bytes[i];
        proof {
            let done = bytes@.subrange(0, i as int);
            lemma_escaped_concat(done, seq![byte]);
            assert(done + seq![byte] =~= bytes@.subrange(0, i + 1));
            assert(seq![byte].drop_first() =~= Seq::<u8>::empty());
            assert(escaped(Seq::<u8>::empty()) =~= Seq::<u8>::empty());
            assert(escaped(seq![byte]) =~= if byte == 0 {
                seq![0u8, 0xffu8]
            } else {
                seq![byte]
            });
        }
        out.push(byte);
        if byte == 0 {
            out.push(0xff);
        }
        i = i + 1;
        proof {
            let done = bytes@.subrange(0, i - 1);
            if byte == 0 {
                assert(out@ =~= old(out)@ + (escaped(done) + seq![0u8, 0xffu8]));
            } else {
                assert(out@ =~= old(out)@ + (escaped(done) + seq![byte]));
            }
        }
    }
    proof {
        assert(bytes@.subrange(0, i as int) =~= bytes@);
    }
}

/// Appends the terminated form of `bytes`.
pub fn push_terminated(out: &mut Vec<u8>, bytes: &[u8])
    ensures
        final(out)@ == old(out)@ + terminated(bytes@),
{
    push_escaped(out, bytes);
    out.push(0);
    out.push(0);
    proof {
        assert(out@ =~= old(out)@ + terminated(bytes@));
    }
}

/// What `parse_terminated` gives after `front` has been read and `taken` bytes
/// have been consumed.
pub open spec fn parse_resumed(front: Seq<u8>, taken: int, rest: Option<(Seq<u8>, int)>) -> Option<
    (Seq<u8>, int),
> {
    match rest {
        Some((bytes, more)) => Some((front + bytes, taken + more)),
        None => None,
    }
}

/// Reads a terminated byte string that starts at `at`: the byte string and
/// the position after its terminator.
pub fn read_terminated(input: &[u8], at: usize) -> (r: Option<(Vec<u8>, usize)>)
    requires
        at <= input@.len(),
    ensures
        match parse_terminated(input@.skip(at as int)) {
            Some((bytes, taken)) => r matches Some((read, end)) && read@ == bytes && end == at
                + taken,
            None => r is None,
        },
{
    let len: usize = input.len();
    let mut read: Vec<u8> = Vec::new();
    let mut i: usize = at;
    proof {
        let whole = parse_terminated(input@.skip(at as int));
        assert(parse_resumed(read@, 0, whole) == whole) by {
            if let Some((bytes, taken)) = whole {
                assert(read@ + bytes =~= bytes);
            }
        }
    }
    while i < len
        invariant
            at <= i <= len,
            len == input@.len(),
            parse_terminated(input@.skip(at as int)) == parse_resumed(
                read@,
                i - at,
                parse_terminated(input@.skip(i as int)),
            ),
        decreases len - i,
    {
        let ghost rest = input@.skip(i as int);
        let ghost front = read@;
        let byte: u8 = input[i];
        proof {
            assert(rest[0] == byte);
            lemma_parse_terminated_sound(input@.skip(at as int));
        }
        if byte != 0 {
            read.push(byte);
            i = i + 1;
            proof {
                assert(rest.drop_first() =~= input@.skip(i as int));
                if let Some((bytes, taken)) = parse_terminated(input@.skip(i as int)) {
                    assert(front + (seq![byte] + bytes) =~= read@ + bytes);
                }
            }
        } else if i + 1 >= len {
            return None;
        } else if input[i + 1] == 0 {
            proof {
                assert(rest[1] == 0);
                assert(front + Seq::<u8>::empty() =~= front);
            }
            return Some((read, i + 2));
        } else if input[i + 1] == 0xff {
            proof {
                assert(rest[1] == 0xff);
            }
            read.push(0);
            i = i + 2;
            proof {
                assert(rest.skip(2) =~= input@.skip(i as int));
                if let Some((bytes, taken)) = parse_terminated(input@.skip(i as int)) {
                    assert(front + (seq![0u8] + bytes) =~= read@ + bytes);
                }
            }
        } else {
            proof {
                assert(rest[1] == input@[i + 1]);
            }
            return None;
        }
    }
    proof {
        assert(input@.skip(i as int).len() == 0);
    }
    None
}

} // verus!
