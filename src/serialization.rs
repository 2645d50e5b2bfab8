use vstd::prelude::*;

verus! {

/// Bytes in the length prefix of each operand.
pub const LEN_BYTES: usize = 8;

/// Bytes per element.
pub const WORD_BYTES: usize = 4;

pub open spec fn pow256(n: nat) -> nat
    decreases n,
{
    if n == 0 {
        1
    } else {
        256 * pow256((n - 1) as nat)
    }
}

/// The `count` low bytes of `x`, least significant first.
pub open spec fn le_bytes(x: nat, count: nat) -> Seq<u8>
    decreases count,
{
    if count == 0 {
        Seq::empty()
    } else {
        seq![(x % 256) as u8] + le_bytes(x / 256, (count - 1) as nat)
    }
}

/// The number whose little-endian bytes are `bytes`.
pub open spec fn from_le(bytes: Seq<u8>) -> nat
    decreases bytes.len(),
{
    if bytes.len() == 0 {
        0
    } else {
        bytes[0] as nat + 256 * from_le(bytes.drop_first())
    }
}

/// Each element as four little-endian bytes, in order.
pub open spec fn word_bytes(words: Seq<u32>) -> Seq<u8>
    decreases words.len(),
{
    if words.len() == 0 {
        Seq::empty()
    } else {
        le_bytes(words[0] as nat, 4) + word_bytes(words.drop_first())
    }
}

/// One operand on the wire: its element count as eight little-endian bytes,
/// then its elements.
pub open spec fn encoded(words: Seq<u32>) -> Seq<u8> {
    le_bytes(words.len(), 8) + word_bytes(words)
}

/// The input payload of a binary operation: operand A in full, then operand B.
pub open spec fn serialized(a: Seq<u32>, b: Seq<u32>) -> Seq<u8> {
    encoded(a) + encoded(b)
}

/// The little-endian number in `count` bytes of `bytes` from `pos` on.
pub open spec fn read_le(bytes: Seq<u8>, pos: int, count: int) -> nat {
    from_le(bytes.subrange(pos, pos + count))
}

/// `n` elements read from `pos` on.
pub open spec fn read_words(bytes: Seq<u8>, pos: int, n: nat) -> Seq<u32> {
    Seq::new(n, |i: int| read_le(bytes, pos + 4 * i, 4) as u32)
}

/// The two operands that a payload holds, if it is exactly two length-prefixed
/// element runs.
pub open spec fn parsed(bytes: Seq<u8>) -> Option<(Seq<u32>, Seq<u32>)> {
    if bytes.len() < 8 {
        None
    } else {
        let n = read_le(bytes, 0, 8);
        let second = (8 + 4 * n) as int;
        if second + 8 > bytes.len() {
            None
        } else {
            let m = read_le(bytes, second, 8);
            if second + 8 + 4 * m != bytes.len() {
                None
            } else {
                Some((read_words(bytes, 8, n), read_words(bytes, second + 8, m)))
            }
        }
    }
}

proof fn lemma_le_bytes_len(x: nat, count: nat)
    ensures
        le_bytes(x, count).len() == count,
    decreases count,
{
    if count > 0 {
        lemma_le_bytes_len(x / 256, (count - 1) as nat);
    }
}

proof fn lemma_le_round_trip(x: nat, count: nat)
    requires
        x < pow256(count),
    ensures
        from_le(le_bytes(x, count)) == x,
    decreases count,
{
    if count > 0 {
        let rest = le_bytes(x / 256, (count - 1) as nat);
        assert(x / 256 < pow256((count - 1) as nat)) by (nonlinear_arith)
            requires
                x < 256 * pow256((count - 1) as nat),
        ;
        lemma_le_round_trip(x / 256, (count - 1) as nat);
        assert((seq![(x % 256) as u8] + rest).drop_first() =~= rest);
        assert(x == x % 256 + 256 * (x / 256)) by (nonlinear_arith);
    }
}

proof fn lemma_from_le_bound(bytes: Seq<u8>)
    ensures
        from_le(bytes) < pow256(bytes.len()),
    decreases bytes.len(),
{
    if bytes.len() > 0 {
        lemma_from_le_bound(bytes.drop_first());
        let r = from_le(bytes.drop_first());
        let p = pow256((bytes.len() - 1) as nat);
        assert(bytes[0] as nat + 256 * r < 256 * p) by (nonlinear_arith)
            requires
                r < p,
                bytes[0] < 256,
        ;
    }
}

proof fn lemma_word_bytes(words: Seq<u32>)
    ensures
        word_bytes(words).len() == 4 * words.len(),
        forall|i: int|
            0 <= i < words.len() ==> #[trigger] word_bytes(words).subrange(4 * i, 4 * i + 4)
                == le_bytes(words[i] as nat, 4),
    decreases words.len(),
{
    if words.len() > 0 {
        let rest = words.drop_first();
        lemma_word_bytes(rest);
        lemma_le_bytes_len(words[0] as nat, 4);
        let all = word_bytes(words);
        let head = le_bytes(words[0] as nat, 4);
        assert forall|i: int| 0 <= i < words.len() implies #[trigger] all.subrange(4 * i, 4 * i + 4)
            == le_bytes(words[i] as nat, 4) by {
            if i == 0 {
                assert(all.subrange(0, 4) =~= head);
            } else {
                assert(all.subrange(4 * i, 4 * i + 4) =~= word_bytes(rest).subrange(
                    4 * (i - 1),
                    4 * (i - 1) + 4,
                ));
            }
        }
    }
}

proof fn lemma_pow256_facts()
    ensures
        pow256(4) == 0x1_0000_0000,
        pow256(8) == 0x1_0000_0000_0000_0000,
{
    reveal_with_fuel(pow256, 9);
}

proof fn lemma_read_encoded(bytes: Seq<u8>, pos: int, words: Seq<u32>)
    requires
        0 <= pos,
        pos + encoded(words).len() <= bytes.len(),
        bytes.subrange(pos, pos + encoded(words).len()) == encoded(words),
        words.len() < pow256(8),
    ensures
        encoded(words).len() == 8 + 4 * words.len(),
        read_le(bytes, pos, 8) == words.len(),
        read_words(bytes, pos + 8, words.len()) == words,
{
    let enc = encoded(words);
    lemma_le_bytes_len(words.len(), 8);
    lemma_word_bytes(words);
    lemma_pow256_facts();
    assert(bytes.subrange(pos, pos + 8) =~= enc.subrange(0, 8));
    assert(enc.subrange(0, 8) =~= le_bytes(words.len(), 8));
    lemma_le_round_trip(words.len(), 8);
    let wb = word_bytes(words);
    assert forall|j: int| 0 <= j < wb.len() implies bytes[pos + 8 + j] == #[trigger] wb[j] by {
        assert(bytes.subrange(pos, pos + enc.len())[8 + j] == enc[8 + j]);
    }
    assert forall|i: int| 0 <= i < words.len() implies #[trigger] read_words(
        bytes,
        pos + 8,
        words.len(),
    )[i] == words[i] by {
        assert(bytes.subrange(pos + 8 + 4 * i, pos + 8 + 4 * i + 4) =~= word_bytes(words).subrange(
            4 * i,
            4 * i + 4,
        ));
        lemma_le_round_trip(words[i] as nat, 4);
    }
    assert(read_words(bytes, pos + 8, words.len()) =~= words);
}

/// Decoding a serialized payload gives back the two operands it was made from.
pub proof fn lemma_serialize_round_trip(a: Seq<u32>, b: Seq<u32>)
    requires
        a.len() <= usize::MAX,
        b.len() <= usize::MAX,
    ensures
        parsed(serialized(a, b)) == Some((a, b)),
{
    let bytes = serialized(a, b);
    lemma_pow256_facts();
    lemma_le_bytes_len(a.len(), 8);
    lemma_word_bytes(a);
    lemma_le_bytes_len(b.len(), 8);
    lemma_word_bytes(b);
    let la = encoded(a).len() as int;
    assert(bytes.subrange(0, la) =~= encoded(a));
    assert(bytes.subrange(la, la + encoded(b).len()) =~= encoded(b));
    lemma_read_encoded(bytes, 0, a);
    lemma_read_encoded(bytes, la, b);
}

fn push_le(out: &mut Vec<u8>, x: u64, count: usize)
    ensures
        final(out)@ == old(out)@ + le_bytes(x as nat, count as nat),
{
    let ghost start = old(out)@;
    let mut v: u64 = x;
    let mut k: usize = 0;
    while k < count
        invariant
            k <= count,
            start + le_bytes(x as nat, count as nat) == out@ + le_bytes(
                v as nat,
                (count - k) as nat,
            ),
        decreases count - k,
    {
        let ghost before = out@;
        let ghost r = (count - k) as nat;
        assert(le_bytes(v as nat, r) == seq![(v as nat % 256) as u8] + le_bytes(
            v as nat / 256,
            (r - 1) as nat,
        ));
        out.push((v % 256) as u8);
        assert(before + le_bytes(v as nat, r) =~= out@ + le_bytes(v as nat / 256, (r - 1) as nat));
        v = v / 256;
        k = k + 1;
    }
    assert(out@ + le_bytes(v as nat, 0) =~= out@);
}

fn read_le_at(bytes: &Vec<u8>, pos: usize, count: usize) -> (r: u64)
    requires
        pos + count <= bytes@.len(),
        count <= 8,
    ensures
        r as nat == read_le(bytes@, pos as int, count as int),
{
    proof {
        lemma_pow256_facts();
    }
    let blen = bytes.len();
    let mut acc: u64 = 0;
    let mut k: usize = count;
    while k > 0
        invariant
            blen == bytes@.len(),
            k <= count,
            count <= 8,
            pos + count <= bytes@.len(),
            pow256(8) == 0x1_0000_0000_0000_0000,
            acc as nat == from_le(bytes@.subrange(pos + k, pos + count)),
        decreases k,
    {
        let ghost tail = bytes@.subrange(pos + k, pos + count);
        let ghost longer = bytes@.subrange(pos + k - 1, pos + count);
        assert(longer.drop_first() =~= tail);
        proof {
            lemma_from_le_bound(longer);
            lemma_pow_mono((count - k + 1) as nat, 8);
        }
        let b = bytes[pos + k - 1];
        assert(from_le(longer) == b as nat + 256 * (acc as nat));
        acc = (b as u64) + 256 * acc;
        k = k - 1;
    }
    acc
}

proof fn lemma_pow_mono(i: nat, j: nat)
    requires
        i <= j,
    ensures
        pow256(i) <= pow256(j),
    decreases j,
{
    if i < j {
        lemma_pow_mono(i, (j - 1) as nat);
    }
}

fn push_words(out: &mut Vec<u8>, words: &Vec<u32>)
    ensures
        final(out)@ == old(out)@ + word_bytes(words@),
{
    let ghost start = old(out)@;
    let n = words.len();
    assert(words@.subrange(0, n as int) =~= words@);
    let mut i: usize = 0;
    while i < n
        invariant
            i <= n,
            n == words@.len(),
            start + word_bytes(words@) == out@ + word_bytes(words@.subrange(i as int, n as int)),
        decreases n - i,
    {
        let ghost rest = words@.subrange(i as int, n as int);
        assert(rest.drop_first() =~= words@.subrange(i + 1, n as int));
        let ghost before = out@;
        push_le(out, words[i] as u64, WORD_BYTES);
        assert(before + word_bytes(rest) =~= out@ + word_bytes(words@.subrange(i + 1, n as int)));
        i = i + 1;
    }
    assert(out@ + word_bytes(words@.subrange(n as int, n as int)) =~= out@);
}

/// Encodes the two expanded operands as the runner's input payload: for each
/// operand in turn (A, then B), its element count as eight little-endian
/// bytes followed by each element as four little-endian bytes.
pub fn serialize_inputs_binary_op(expanded_a: Vec<u32>, expanded_b: Vec<u32>) -> (r: Vec<u8>)
    ensures
        r@ == serialized(expanded_a@, expanded_b@),
{
    let mut out: Vec<u8> = Vec::new();
    push_le(&mut out, expanded_a.len() as u64, LEN_BYTES);
    push_words(&mut out, &expanded_a);
    push_le(&mut out, expanded_b.len() as u64, LEN_BYTES);
    push_words(&mut out, &expanded_b);
    assert(out@ =~= serialized(expanded_a@, expanded_b@));
    out
}

fn read_words_at(bytes: &Vec<u8>, pos: usize, n: usize) -> (r: Vec<u32>)
    requires
        pos + 4 * n <= bytes@.len(),
    ensures
        r@ == read_words(bytes@, pos as int, n as nat),
{
    proof {
        lemma_pow256_facts();
    }
    let blen = bytes.len();
    let mut r: Vec<u32> = Vec::new();
    let mut i: usize = 0;
    while i < n
        invariant
            blen == bytes@.len(),
            i <= n,
            pos + 4 * n <= bytes@.len(),
            pow256(4) == 0x1_0000_0000,
            r@ =~= read_words(bytes@, pos as int, i as nat),
        decreases n - i,
    {
        assert(4 * i + 4 <= 4 * n) by (nonlinear_arith)
            requires
                i < n,
        ;
        let ghost word = bytes@.subrange(pos + 4 * i, pos + 4 * i + 4);
        proof {
            lemma_from_le_bound(word);
        }
        let w = read_le_at(bytes, pos + 4 * i, WORD_BYTES);
        r.push(w as u32);
        i = i + 1;
    }
    r
}

/// Decodes a payload made by `serialize_inputs_binary_op` back into its two
/// operands; `None` when the bytes are not exactly two length-prefixed runs.
pub fn deserialize_inputs_binary_op(bytes: &Vec<u8>) -> (r: Option<(Vec<u32>, Vec<u32>)>)
    ensures
        match parsed(bytes@) {
            None => r is None,
            Some((a, b)) => r matches Some((x, y)) && x@ == a && y@ == b,
        },
{
    let len = bytes.len();
    if len < LEN_BYTES {
        return None;
    }
    let n = read_le_at(bytes, 0, LEN_BYTES);
    let rest = len - LEN_BYTES;
    if n > (rest / 4) as u64 {
        assert(4 * (n as nat) > rest) by (nonlinear_arith)
            requires
                n > rest / 4,
        ;
        return None;
    }
    let n = n as usize;
    let second = LEN_BYTES + 4 * n;
    if len - second < LEN_BYTES {
        return None;
    }
    let m = read_le_at(bytes, second, LEN_BYTES);
    let rest2 = len - second - LEN_BYTES;
    if m > (rest2 / 4) as u64 {
        assert(4 * (m as nat) > rest2) by (nonlinear_arith)
            requires
                m > rest2 / 4,
        ;
        return None;
    }
    let m = m as usize;
    if 4 * m != rest2 {
        return None;
    }
    let a = read_words_at(bytes, LEN_BYTES, n);
    let b = read_words_at(bytes, second + LEN_BYTES, m);
    Some((a, b))
}

} // verus!
