//! Variable-length size encoding: little-endian base 128, seven payload bits
//! per byte, high bit set on every byte except the last.

use vstd::prelude::*;

verus! {

/// The bytes that encode `n`.
pub open spec fn encode_size(n: nat) -> Seq<u8>
    decreases n,
{
    if n < 128 {
        seq![n as u8]
    } else {
        seq![(128 + n % 128) as u8] + encode_size(n / 128)
    }
}

/// The value that the front of `bytes` encodes and the number of bytes that
/// the encoding occupies, or `None` where `bytes` ends before a terminating
/// byte.
pub open spec fn decode_size(bytes: Seq<u8>) -> Option<(nat, nat)>
    decreases bytes.len(),
{
    if bytes.len() == 0 {
        None
    } else if bytes[0] < 128 {
        Some((bytes[0] as nat, 1nat))
    } else {
        match decode_size(bytes.skip(1)) {
            Some((rest, used)) => Some((((bytes[0] - 128) + 128 * rest) as nat, used + 1)),
            None => None,
        }
    }
}

/// An encoding is never empty, and only its last byte has the high bit clear.
pub proof fn lemma_encode_size_shape(n: nat)
    ensures
        encode_size(n).len() >= 1,
        encode_size(n).last() < 128,
        forall|i: int| 0 <= i < encode_size(n).len() - 1 ==> #[trigger] encode_size(n)[i] >= 128,
    decreases n,
{
    if n >= 128 {
        lemma_encode_size_shape(n / 128);
        let rest = encode_size(n / 128);
        let all = encode_size(n);
        assert(all =~= seq![(128 + n % 128) as u8] + rest);
        assert forall|i: int| 0 <= i < all.len() - 1 implies #[trigger] all[i] >= 128 by {
            if i > 0 {
                assert(all[i] == rest[i - 1]);
            }
        }
    }
}

/// Decoding the encoding of `n`, whatever follows it, gives `n` back and
/// consumes exactly the encoding.
pub proof fn lemma_size_round_trip(n: nat, rest: Seq<u8>)
    ensures
        decode_size(encode_size(n) + rest) == Some((n, encode_size(n).len())),
    decreases n,
{
    let all = encode_size(n) + rest;
    if n < 128 {
        assert(all[0] == n as u8);
    } else {
        lemma_size_round_trip(n / 128, rest);
        let head = (128 + n % 128) as u8;
        assert(all[0] == head);
        assert(all.skip(1) =~= encode_size(n / 128) + rest);
        assert((head - 128) + 128 * (n / 128) == n);
    }
}

/// Appends the encoding of `size_to_write` to `out`.
pub fn write_size(size_to_write: usize, out: &mut Vec<u8>)
    ensures
        final(out)@ == old(out)@ + encode_size(size_to_write as nat),
{
    let mut size: usize = size_to_write;
    let ghost before = out@;
    while size >= 128
        invariant
            before + encode_size(size_to_write as nat) == out@ + encode_size(size as nat),
        decreases size,
    {
        let low: u8 = (size % 128) as u8;
        proof {
            assert(out@.push((128 + low) as u8) + encode_size((size / 128) as nat) =~= out@ + (
            seq![(128 + size % 128) as u8] + encode_size((size / 128) as nat)));
        }
        out.push(128 + low);
        size = size / 128;
    }
    proof {
        assert(out@.push(size as u8) =~= out@ + encode_size(size as nat));
    }
    out.push(size as u8);
}

/// Reads one encoded size from `data`, starting at `pos`. Returns the value
/// and the number of bytes read. The result is `None` where `data` ends
/// before a terminating byte, or where the value does not fit in a `usize`.
pub fn read_size(data: &[u8], pos: usize) -> (r: Option<(usize, usize)>)
    requires
        pos <= data@.len(),
    ensures
        match decode_size(data@.skip(pos as int)) {
            Some((value, used)) => if value <= usize::MAX {
                r == Some((value as usize, used as usize))
            } else {
                r.is_none()
            },
            None => r.is_none(),
        },
{
    let mut acc: usize = 0;
    // `scale` is 128 to the power of the number of bytes read, while that fits.
    let mut scale: usize = 1;
    let mut scale_fits: bool = true;
    let mut i: usize = pos;
    let ghost whole = decode_size(data@.skip(pos as int));
    while i < data.len()
        invariant
            pos <= i <= data@.len(),
            whole == decode_size(data@.skip(pos as int)),
            scale >= 1,
            scale_fits ==> acc < scale,
            carries_over(whole, decode_size(data@.skip(i as int)), acc, scale, scale_fits, i - pos),
        decreases data@.len() - i,
    {
        let byte: u8 = data[i];
        let chunk: u8 = byte % 128;
        let ghost tail = data@.skip(i as int);
        let ghost next = data@.skip(i + 1);
        let ghost rest = decode_size(next);
        proof {
            assert(tail[0] == byte);
            assert(tail.skip(1) =~= next);
            assert(chunk == 0 ==> scale * chunk == 0) by (nonlinear_arith);
            if byte >= 128 && rest.is_some() {
                assert(chunk == byte - 128);
                assert(decode_size(tail) == Some(
                    ((chunk + 128 * rest.unwrap().0) as nat, rest.unwrap().1 + 1),
                ));
                assert(scale * (chunk + 128 * rest.unwrap().0) == scale * chunk + (scale * 128)
                    * rest.unwrap().0) by (nonlinear_arith);
                if rest.unwrap().0 > 0 {
                    assert((scale * 128) * rest.unwrap().0 >= scale * 128) by (nonlinear_arith)
                        requires
                            rest.unwrap().0 >= 1,
                            scale >= 1,
                    ;
                }
            }
        }
        if chunk != 0 {
            if !scale_fits {
                return None;
            }
            let term: Option<usize> = scale.checked_mul(chunk as usize);
            let sum: Option<usize> = match term {
                Some(t) => acc.checked_add(t),
                None => None,
            };
            match sum {
                Some(s) => {
                    acc = s;
                },
                None => {
                    proof {
                        if byte >= 128 && rest.is_some() {
                            assert((scale * 128) * rest.unwrap().0 >= 0) by (nonlinear_arith)
                                requires
                                    rest.unwrap().0 >= 0,
                                    scale >= 1,
                            ;
                        }
                    }
                    return None;
                },
            }
        }
        if byte < 128 {
            return Some((acc, i + 1 - pos));
        }
        if scale_fits {
            proof {
                assert(acc < scale * 128) by (nonlinear_arith)
                    requires
                        acc < scale + scale * chunk,
                        chunk < 128,
                        scale >= 1,
                ;
            }
            match scale.checked_mul(128) {
                Some(bigger) => {
                    scale = bigger;
                },
                None => {
                    scale_fits = false;
                },
            }
        }
        i = i + 1;
    }
    proof {
        assert(data@.skip(i as int).len() == 0);
    }
    None
}

/// How what the whole input decodes to follows from what its unread part
/// decodes to, after `read` bytes with the payload `acc` so far. `scale` is
/// the weight of the next payload while `scale_fits`; after that the weight
/// exceeds every `usize`.
spec fn carries_over(
    whole: Option<(nat, nat)>,
    unread: Option<(nat, nat)>,
    acc: usize,
    scale: usize,
    scale_fits: bool,
    read: int,
) -> bool {
    match unread {
        None => whole.is_none(),
        Some((value, used)) => {
            &&& whole.is_some()
            &&& whole.unwrap().1 == used + read
            &&& scale_fits ==> whole.unwrap().0 == acc + scale * value
            &&& !scale_fits && value == 0 ==> whole.unwrap().0 == acc
            &&& !scale_fits && value > 0 ==> whole.unwrap().0 > usize::MAX
        },
    }
}

} // verus!
