use vstd::prelude::*;

verus! {

/// Number of bytes in a genome.
pub const GENOME_LEN: usize = 16;

/// The bit-level selection rule for one byte of genome: each bit of
/// `selector` picks the corresponding bit of `dna1` (when set) or of
/// `dna2` (when clear).
pub open spec fn select_byte(dna1: u8, dna2: u8, selector: u8) -> u8 {
    (selector & dna1) | (!selector & dna2)
}

/// The genome obtained by applying `select_byte` at every position.
pub open spec fn combined(a: Seq<u8>, b: Seq<u8>, mask: Seq<u8>) -> Seq<u8> {
    Seq::new(a.len(), |i: int| select_byte(a[i], b[i], mask[i]))
}

/// Combines one byte of each parent's genome under a selector byte.
pub fn combine_dna(dna1: u8, dna2: u8, selector: u8) -> (r: u8)
    ensures
        r == select_byte(dna1, dna2, selector),
{
    (selector & dna1) | (!selector & dna2)
}

/// Combines two parent genomes under a mask, byte by byte.
pub fn combine(a: &[u8; 16], b: &[u8; 16], mask: &[u8; 16]) -> (r: [u8; 16])
    ensures
        r@ == combined(a@, b@, mask@),
{
    let mut out: [u8; 16] = [0u8; 16];
    let mut i: usize = 0;
    while i < GENOME_LEN
        invariant
            i <= GENOME_LEN,
            a@.len() == GENOME_LEN,
            b@.len() == GENOME_LEN,
            mask@.len() == GENOME_LEN,
            out@.len() == GENOME_LEN,
            forall|j: int| 0 <= j < i ==> out@[j] == select_byte(a@[j], b@[j], mask@[j]),
        decreases GENOME_LEN - i,
    {
        let v = combine_dna(a[i], b[i], mask[i]);
        out[i] = v;
        i = i + 1;
    }
    assert(out@ =~= combined(a@, b@, mask@));
    out
}

proof fn lemma_select_byte_extremes(x: u8, y: u8)
    ensures
        select_byte(x, y, 0xffu8) == x,
        select_byte(x, y, 0u8) == y,
{
    assert((0xffu8 & x) | (!0xffu8 & y) == x) by (bit_vector);
    assert((0u8 & x) | (!0u8 & y) == y) by (bit_vector);
}

/// An all-ones mask yields the first parent and an all-zeros mask yields
/// the second.
pub proof fn lemma_combine_masks(a: Seq<u8>, b: Seq<u8>, mask: Seq<u8>)
    requires
        a.len() == GENOME_LEN,
        b.len() == GENOME_LEN,
        mask.len() == GENOME_LEN,
    ensures
        (forall|i: int| 0 <= i < GENOME_LEN ==> mask[i] == 0xffu8) ==> combined(a, b, mask) == a,
        (forall|i: int| 0 <= i < GENOME_LEN ==> mask[i] == 0u8) ==> combined(a, b, mask) == b,
{
    assert forall|i: int| 0 <= i < GENOME_LEN implies select_byte(a[i], b[i], 0xffu8) == a[i]
        && select_byte(a[i], b[i], 0u8) == b[i] by {
        lemma_select_byte_extremes(a[i], b[i]);
    }
    if forall|i: int| 0 <= i < GENOME_LEN ==> mask[i] == 0xffu8 {
        assert(combined(a, b, mask) =~= a);
    }
    if forall|i: int| 0 <= i < GENOME_LEN ==> mask[i] == 0u8 {
        assert(combined(a, b, mask) =~= b);
    }
}

} // verus!
