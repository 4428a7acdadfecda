use vstd::prelude::*;

use crate::DIM;

verus! {

/// The starting state of the 64-bit FNV-1a hash.
pub const FNV_OFFSET: u64 = 0xcbf2_9ce4_8422_2325;

/// The multiplier of the 64-bit FNV-1a hash.
pub const FNV_PRIME: u64 = 0x100_0000_01b3;

/// One FNV-1a step: mix the word `w` into the state `h`.
pub open spec fn fnv_mix(h: u64, w: u64) -> u64 {
    ((((h ^ w) as nat) * (FNV_PRIME as nat)) % 0x1_0000_0000_0000_0000) as u64
}

/// The FNV-1a state after the bytes of `s`, one at a time, from `h`.
pub open spec fn fnv_bytes(h: u64, s: Seq<u8>) -> u64
    decreases s.len(),
{
    if s.len() == 0 {
        h
    } else {
        fnv_mix(fnv_bytes(h, s.drop_last()), s.last() as u64)
    }
}

/// The hash of the window `w` that starts at position `pos`: FNV-1a over its
/// bytes, then over the position as one word, so that the same bytes hash
/// differently at different positions.
pub open spec fn window_hash(w: Seq<u8>, pos: int) -> u64 {
    fnv_mix(fnv_bytes(FNV_OFFSET, w), pos as u64)
}

/// Hashes the bytes `lo..hi` of `s` as a window at position `pos`.
pub fn hash_window(s: &[u8], lo: usize, hi: usize, pos: usize) -> (r: u64)
    requires
        lo <= hi <= s@.len(),
    ensures
        r == window_hash(s@.subrange(lo as int, hi as int), pos as int),
{
    let mut h: u64 = FNV_OFFSET;
    let mut i = lo;
    while i < hi
        invariant
            lo <= i <= hi <= s@.len(),
            h == fnv_bytes(FNV_OFFSET, s@.subrange(lo as int, i as int)),
        decreases hi - i,
    {
        assert(s@.subrange(lo as int, i + 1).drop_last() =~= s@.subrange(lo as int, i as int));
        h = (h ^ (s[i] as u64)).wrapping_mul(FNV_PRIME);
        i = i + 1;
    }
    (h ^ (pos as u64)).wrapping_mul(FNV_PRIME)
}

/// How many sub-rounds each window hash is spread over.
pub const ROUNDS: usize = 16;

/// The width of the sliding window over a text of `n` bytes: 3, or the
/// whole text where it is shorter.
pub open spec fn window_width(n: int) -> int {
    if n < 3 { n } else { 3 }
}

/// How many windows a text of `n` bytes has: none for the empty text.
pub open spec fn window_count(n: int) -> int {
    if n <= 0 { 0 } else { n - window_width(n) + 1 }
}

/// The window of `s` at position `i`.
pub open spec fn window_at(s: Seq<u8>, i: int) -> Seq<u8> {
    s.subrange(i, i + window_width(s.len() as int))
}

/// The dimension that sub-round `j` of the window at `i` with hash `h` hits.
pub open spec fn round_slot(h: u64, i: int, j: int) -> int {
    ((h >> ((4 * j) as u64)) as int + i * 17) % (DIM as int)
}

/// The direction of sub-round `j` of a window with hash `h`: bit `j + 48`
/// clear is up, set is down.
pub open spec fn round_sign(h: u64, j: int) -> int {
    if (h >> ((j + 48) as u64)) & 1 == 0 { 1 } else { -1 }
}

/// What sub-rounds `0..j` of the window at `i` with hash `h` add to
/// dimension `k`, in units: each adds two units up or down.
pub open spec fn rounds_weight(h: u64, i: int, j: int, k: int) -> int
    decreases j,
{
    if j <= 0 {
        0
    } else {
        rounds_weight(h, i, j - 1, k) + if round_slot(h, i, j - 1) == k {
            2 * round_sign(h, j - 1)
        } else {
            0int
        }
    }
}

/// What the windows at positions `0..w` of `s` add to dimension `k`, in units.
pub open spec fn windows_weight(s: Seq<u8>, w: int, k: int) -> int
    decreases w,
{
    if w <= 0 {
        0
    } else {
        windows_weight(s, w - 1, k) + rounds_weight(
            window_hash(window_at(s, w - 1), w - 1),
            w - 1,
            ROUNDS as int,
            k,
        )
    }
}

/// The dimension that the byte `b` at position `i` hits.
pub open spec fn byte_slot(b: u8, i: int) -> int {
    (b as int * 4 + i) % (DIM as int)
}

/// What the bytes at positions `0..n` of `s` add to dimension `k`, in
/// units: each adds one unit.
pub open spec fn bytes_weight(s: Seq<u8>, n: int, k: int) -> int
    decreases n,
{
    if n <= 0 {
        0
    } else {
        bytes_weight(s, n - 1, k) + if byte_slot(s[n - 1], n - 1) == k {
            1int
        } else {
            0int
        }
    }
}

/// The fingerprint of `s` before normalisation, in units of 0.05: for each
/// dimension, what its windows and then its bytes add to it.
pub open spec fn weights_of(s: Seq<u8>) -> Seq<int> {
    Seq::new(
        DIM as nat,
        |k: int| windows_weight(s, window_count(s.len() as int), k) + bytes_weight(s, s.len() as int, k),
    )
}

/// The values of `v` as integers.
pub open spec fn as_ints(v: Seq<i128>) -> Seq<int> {
    v.map_values(|x: i128| x as int)
}

/// The fingerprint of `text` before normalisation, in units of 0.05 (a
/// window sub-round moves a dimension by two units, a byte by one). Scaled
/// by the unit and divided by its Euclidean norm, where that is not zero,
/// it is the text's embedding vector.
pub fn embedding_weights(text: &[u8]) -> (r: Vec<i128>)
    ensures
        as_ints(r@) == weights_of(text@),
        r@.len() == DIM,
        text@.len() == 0 ==> forall|k: int| 0 <= k < DIM ==> r@[k] == 0,
{
    let n = text.len();
    let mut acc: Vec<i128> = Vec::new();
    let mut k: usize = 0;
    while k < DIM
        invariant
            k <= DIM,
            acc@.len() == k,
            forall|x: int| 0 <= x < k ==> acc@[x] == 0,
        decreases DIM - k,
    {
        acc.push(0);
        k = k + 1;
    }
    let width = if n < 3 { n } else { 3 };
    let windows = if n == 0 { 0 } else { n - width + 1 };
    let mut i: usize = 0;
    while i < windows
        invariant
            n == text@.len(),
            width == window_width(n as int),
            windows == window_count(n as int),
            i <= windows,
            acc@.len() == DIM,
            forall|x: int| 0 <= x < DIM ==> acc@[x] == windows_weight(text@, i as int, x),
            forall|x: int| 0 <= x < DIM ==> -32 * i <= #[trigger] acc@[x] <= 32 * i,
        decreases windows - i,
    {
        let h = hash_window(text, i, i + width, i);
        let mut j: usize = 0;
        while j < ROUNDS
            invariant
                n == text@.len(),
                i < windows,
                j <= ROUNDS,
                acc@.len() == DIM,
                h == window_hash(window_at(text@, i as int), i as int),
                forall|x: int|
                    0 <= x < DIM ==> acc@[x] == windows_weight(text@, i as int, x) + rounds_weight(
                        h,
                        i as int,
                        j as int,
                        x,
                    ),
                forall|x: int| 0 <= x < DIM ==> -32 * i - 2 * j <= #[trigger] acc@[x] <= 32 * i + 2 * j,
            decreases ROUNDS - j,
        {
            let slot = (((h >> (4 * j as u64)) as u128 + (i as u128) * 17) % 1024) as usize;
            let up = (h >> (j as u64 + 48)) & 1 == 0;
            let old_v = acc[slot];
            let new_v = if up { old_v + 2 } else { old_v - 2 };
            acc.set(slot, new_v);
            assert(slot == round_slot(h, i as int, j as int));
            j = j + 1;
        }
        i = i + 1;
    }
    let mut i: usize = 0;
    while i < n
        invariant
            n == text@.len(),
            i <= n,
            acc@.len() == DIM,
            forall|x: int|
                0 <= x < DIM ==> acc@[x] == windows_weight(text@, window_count(n as int), x)
                    + bytes_weight(text@, i as int, x),
            forall|x: int|
                0 <= x < DIM ==> -32 * window_count(n as int) - i <= #[trigger] acc@[x] <= 32
                    * window_count(n as int) + i,
        decreases n - i,
    {
        let slot = (((text[i] as u128) * 4 + i as u128) % 1024) as usize;
        let old_v = acc[slot];
        acc.set(slot, old_v + 1);
        i = i + 1;
    }
    assert(as_ints(acc@) =~= weights_of(text@));
    acc
}

/// The fingerprints of `texts` before normalisation, one per text, in order:
/// each is what `embedding_weights` gives for that text alone.
pub fn embedding_weights_batch(texts: &Vec<Vec<u8>>) -> (r: Vec<Vec<i128>>)
    ensures
        r@.len() == texts@.len(),
        forall|i: int| 0 <= i < texts@.len() ==> as_ints(#[trigger] r@[i]@) == weights_of(texts@[i]@),
{
    let mut out: Vec<Vec<i128>> = Vec::new();
    let mut i: usize = 0;
    while i < texts.len()
        invariant
            i <= texts@.len(),
            out@.len() == i,
            forall|x: int| 0 <= x < i ==> as_ints(#[trigger] out@[x]@) == weights_of(texts@[x]@),
        decreases texts@.len() - i,
    {
        out.push(embedding_weights(texts[i].as_slice()));
        i = i + 1;
    }
    out
}

/// A fingerprint depends on the bytes of the text alone: equal texts have
/// equal fingerprints, whenever and however often they are made.
pub proof fn weights_deterministic(a: Seq<u8>, b: Seq<u8>)
    requires
        a == b,
    ensures
        weights_of(a) == weights_of(b),
{
}

/// Every fingerprint has `DIM` dimensions.
pub proof fn weights_dimension(s: Seq<u8>)
    ensures
        weights_of(s).len() == DIM,
{
}

/// The empty text has the all-zero fingerprint.
pub proof fn weights_of_empty(s: Seq<u8>)
    requires
        s.len() == 0,
    ensures
        weights_of(s) == Seq::new(DIM as nat, |k: int| 0int),
{
    assert(weights_of(s) =~= Seq::new(DIM as nat, |k: int| 0int));
}

/// The sum of `f(x)` over the dimensions `0..k`.
pub open spec fn dims_sum(f: spec_fn(int) -> int, k: int) -> int
    decreases k,
{
    if k <= 0 {
        0
    } else {
        dims_sum(f, k - 1) + f(k - 1)
    }
}

proof fn lemma_rounds_even(h: u64, i: int, j: int, k: int)
    ensures
        rounds_weight(h, i, j, k) % 2 == 0,
    decreases j,
{
    if j > 0 {
        lemma_rounds_even(h, i, j - 1, k);
    }
}

proof fn lemma_windows_even(s: Seq<u8>, w: int, k: int)
    ensures
        windows_weight(s, w, k) % 2 == 0,
    decreases w,
{
    if w > 0 {
        lemma_windows_even(s, w - 1, k);
        lemma_rounds_even(window_hash(window_at(s, w - 1), w - 1), w - 1, ROUNDS as int, k);
    }
}

proof fn lemma_even_sum(f: spec_fn(int) -> int, k: int)
    requires
        forall|x: int| 0 <= x < k ==> #[trigger] f(x) % 2 == 0,
    ensures
        dims_sum(f, k) % 2 == 0,
    decreases k,
{
    if k > 0 {
        lemma_even_sum(f, k - 1);
    }
}

proof fn lemma_sum_add(f: spec_fn(int) -> int, g: spec_fn(int) -> int, k: int)
    ensures
        dims_sum(|x: int| f(x) + g(x), k) == dims_sum(f, k) + dims_sum(g, k),
    decreases k,
{
    if k > 0 {
        lemma_sum_add(f, g, k - 1);
    }
}

proof fn lemma_sum_one_hit(t: int, k: int)
    ensures
        dims_sum(|x: int| if t == x { 1int } else { 0int }, k) == if 0 <= t < k { 1int } else { 0int },
    decreases k,
{
    if k > 0 {
        lemma_sum_one_hit(t, k - 1);
    }
}

proof fn lemma_bytes_total(s: Seq<u8>, n: int)
    requires
        0 <= n <= s.len(),
    ensures
        dims_sum(|x: int| bytes_weight(s, n, x), DIM as int) == n,
    decreases n,
{
    if n > 0 {
        lemma_bytes_total(s, n - 1);
        let t = byte_slot(s[n - 1], n - 1);
        let before = |x: int| bytes_weight(s, n - 1, x);
        let hit = |x: int| if t == x { 1int } else { 0int };
        lemma_sum_add(before, hit, DIM as int);
        lemma_sum_one_hit(t, DIM as int);
        assert((|x: int| bytes_weight(s, n, x)) =~= (|x: int| before(x) + hit(x)));
    } else {
        lemma_zero_sum(|x: int| bytes_weight(s, n, x), DIM as int);
    }
}

proof fn lemma_zero_sum(f: spec_fn(int) -> int, k: int)
    requires
        forall|x: int| 0 <= x < k ==> #[trigger] f(x) == 0,
    ensures
        dims_sum(f, k) == 0,
    decreases k,
{
    if k > 0 {
        lemma_zero_sum(f, k - 1);
    }
}

/// A text of odd length has a fingerprint with a non-zero dimension, so that
/// it can be scaled to unit length: its weights sum to its length plus an
/// even number, since each window sub-round moves a dimension by two units
/// and each byte moves one by one unit.
pub proof fn odd_length_weights_nonzero(s: Seq<u8>)
    requires
        s.len() % 2 == 1,
    ensures
        exists|k: int| 0 <= k < DIM && weights_of(s)[k] != 0,
{
    let n = s.len() as int;
    let w = window_count(n);
    let win = |x: int| windows_weight(s, w, x);
    let byt = |x: int| bytes_weight(s, n, x);
    let all = |x: int| win(x) + byt(x);
    assert forall|x: int| 0 <= x < DIM implies #[trigger] win(x) % 2 == 0 by {
        lemma_windows_even(s, w, x);
    }
    lemma_even_sum(win, DIM as int);
    lemma_bytes_total(s, n);
    lemma_sum_add(win, byt, DIM as int);
    if forall|k: int| 0 <= k < DIM ==> weights_of(s)[k] == 0 {
        assert forall|x: int| 0 <= x < DIM implies #[trigger] all(x) == 0 by {
            assert(weights_of(s)[x] == all(x));
        }
        lemma_zero_sum(all, DIM as int);
        assert(false);
    }
}

} // verus!
