//! Lengths of byte values.

use bytes::Bytes;
use vstd::prelude::*;
use vstd::seq_lib::*;

use crate::octets;
use crate::octets::bytes_len;

verus! {

/// Total length of the chunks of one byte value, unless it overflows.
pub fn try_byte_chunks_len(chunks: &[Bytes]) -> (len: Option<usize>)
    ensures
        len is Some <==> octets::all_octets(chunks@).flatten().len() <= usize::MAX,
        len matches Some(n) ==> n == octets::all_octets(chunks@).flatten().len(),
{
    let ghost all = octets::all_octets(chunks@);
    let mut total: usize = 0;
    let mut i: usize = 0;
    proof {
        assert(all.take(0) =~= Seq::<Seq<u8>>::empty());
    }
    while i < chunks.len()
        invariant
            i <= chunks@.len(),
            all == octets::all_octets(chunks@),
            total == all.take(i as int).flatten().len(),
        decreases chunks@.len() - i,
    {
        proof {
            assert(all.take(i + 1) =~= all.take(i as int).push(all[i as int]));
            all.take(i as int).lemma_flatten_push(all[i as int]);
            lemma_flatten_concat(all.take(i + 1), all.skip(i + 1));
            assert(all.take(i + 1) + all.skip(i + 1) =~= all);
        }
        total = match total.checked_add(bytes_len(&chunks[i])) {
            Some(sum) => sum,
            None => return None,
        };
        i += 1;
    }
    proof {
        assert(all.take(i as int) =~= all);
    }
    Some(total)
}

} // verus!
