//! Values laid out as the user sees them, and split over the pieces of user
//! memory they are copied to: a user buffer may cross a page boundary, so the
//! kernel reaches it as several chunks, one per page.
use vstd::prelude::*;
use crate::process::TimeVal;

verus! {

/// The `n` low bytes of `x`, least significant first.
pub open spec fn le_bytes(x: nat, n: nat) -> Seq<u8>
    decreases n,
{
    if n == 0 {
        Seq::empty()
    } else {
        seq![(x % 256) as u8] + le_bytes(x / 256, (n - 1) as nat)
    }
}

/// The 8 bytes of a 64-bit word, least significant first.
pub fn word_bytes(x: u64) -> (r: Vec<u8>)
    ensures
        r@ == le_bytes(x as nat, 8),
{
    let mut out: Vec<u8> = Vec::new();
    let mut v: u64 = x;
    let mut i: usize = 0;
    while i < 8
        invariant
            i <= 8,
            out@ + le_bytes(v as nat, (8 - i) as nat) == le_bytes(x as nat, 8),
        decreases 8 - i,
    {
        let ghost before = out@;
        out.push((v % 256) as u8);
        proof {
            let k = (8 - i) as nat;
            assert(le_bytes(v as nat, k) == seq![(v as nat % 256) as u8] + le_bytes(v as nat / 256, (k - 1) as nat));
            assert(out@ =~= before + seq![(v as nat % 256) as u8]);
            assert(out@ + le_bytes(v as nat / 256, (k - 1) as nat) =~= before + le_bytes(v as nat, k));
        }
        v = v / 256;
        i = i + 1;
    }
    proof {
        assert(le_bytes(v as nat, 0) =~= Seq::<u8>::empty());
        assert(out@ + Seq::<u8>::empty() =~= out@);
    }
    out
}

/// The bytes of a `TimeVal` as a 64-bit user reads it: the seconds, then the
/// microseconds, each 8 bytes, least significant first.
pub fn time_val_bytes(tv: &TimeVal) -> (r: Vec<u8>)
    ensures
        r@ == le_bytes(tv.sec as nat, 8) + le_bytes(tv.usec as nat, 8),
{
    let mut out = word_bytes(tv.sec as u64);
    let mut rest = word_bytes(tv.usec as u64);
    out.append(&mut rest);
    proof {
        assert(tv.sec as u64 as nat == tv.sec as nat);
        assert(tv.usec as u64 as nat == tv.usec as nat);
    }
    out
}

/// The chunks one after the other.
pub open spec fn concat(cs: Seq<Seq<u8>>) -> Seq<u8>
    decreases cs.len(),
{
    if cs.len() == 0 {
        Seq::empty()
    } else {
        concat(cs.drop_last()) + cs.last()
    }
}

/// The chunk lengths added up.
pub open spec fn total(lens: Seq<usize>) -> nat
    decreases lens.len(),
{
    if lens.len() == 0 {
        0
    } else {
        total(lens.drop_last()) + lens.last() as nat
    }
}

/// Splits `bytes` into chunks of the lengths `lens`, in order: chunk `i` is
/// what goes to the `i`-th piece of user memory.
pub fn split_into_chunks(bytes: &Vec<u8>, lens: &Vec<usize>) -> (r: Vec<Vec<u8>>)
    requires
        total(lens@) == bytes.len(),
    ensures
        r.len() == lens.len(),
        forall|i: int| 0 <= i < r.len() ==> #[trigger] r@[i]@.len() == lens@[i],
        concat(r@.map_values(|c: Vec<u8>| c@)) == bytes@,
{
    let mut out: Vec<Vec<u8>> = Vec::new();
    let mut pos: usize = 0;
    let mut i: usize = 0;
    proof {
        lemma_total_prefix(lens@, 0);
        assert(lens@.take(0) =~= Seq::<usize>::empty());
        assert(out@.map_values(|c: Vec<u8>| c@) =~= Seq::<Seq<u8>>::empty());
    }
    while i < lens.len()
        invariant
            i <= lens.len(),
            out.len() == i,
            total(lens@) == bytes.len(),
            pos == total(lens@.take(i as int)),
            pos <= bytes.len(),
            forall|k: int| 0 <= k < i ==> #[trigger] out@[k]@.len() == lens@[k],
            concat(out@.map_values(|c: Vec<u8>| c@)) == bytes@.subrange(0, pos as int),
        decreases lens.len() - i,
    {
        proof {
            assert(lens@.take(i + 1).drop_last() =~= lens@.take(i as int));
            lemma_total_prefix(lens@, i + 1);
        }
        let n = lens[i];
        let mut chunk: Vec<u8> = Vec::new();
        let mut j: usize = 0;
        while j < n
            invariant
                j <= n,
                pos + n <= bytes.len(),
                chunk@ =~= bytes@.subrange(pos as int, pos + j),
            decreases n - j,
        {
            chunk.push(bytes[pos + j]);
            j = j + 1;
        }
        let ghost prev = out@.map_values(|c: Vec<u8>| c@);
        out.push(chunk);
        proof {
            let now = out@.map_values(|c: Vec<u8>| c@);
            assert(now.drop_last() =~= prev);
            assert(now.last() == bytes@.subrange(pos as int, pos + n));
            assert(bytes@.subrange(0, pos as int) + bytes@.subrange(pos as int, pos + n) =~= bytes@.subrange(0, pos + n));
        }
        pos = pos + n;
        i = i + 1;
    }
    proof {
        assert(lens@.take(lens.len() as int) =~= lens@);
        assert(bytes@.subrange(0, pos as int) =~= bytes@);
    }
    out
}

/// A prefix of the lengths adds up to no more than all of them.
proof fn lemma_total_prefix(lens: Seq<usize>, i: int)
    requires
        0 <= i <= lens.len(),
    ensures
        total(lens.take(i)) <= total(lens),
        i > 0 ==> total(lens.take(i)) == total(lens.take(i - 1)) + lens[i - 1],
    decreases lens.len() - i,
{
    if i < lens.len() {
        lemma_total_prefix(lens, i + 1);
        assert(lens.take(i + 1).drop_last() =~= lens.take(i));
    } else {
        assert(lens.take(i) =~= lens);
    }
    if i > 0 {
        assert(lens.take(i).drop_last() =~= lens.take(i - 1));
    }
}

} // verus!
