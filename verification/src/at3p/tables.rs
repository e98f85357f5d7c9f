//! Tables of ATRAC3plus and its code tables.

use vstd::prelude::*;
use vstd::arithmetic::power2::*;
use vstd::arithmetic::div_mod::*;

verus! {

/// A code word and its length in bits.
#[derive(Debug, Clone, Copy, PartialEq, Eq, Structural)]
pub struct VlcElement {
    pub code: i16,
    pub len: i16,
}

impl VlcElement {
    /// The entry of a symbol without a code.
    pub open spec fn none() -> Self {
        VlcElement { code: 0, len: 0 }
    }
}

impl Default for VlcElement {
    fn default() -> (e: Self)
        ensures
            e == VlcElement::none(),
    {
        VlcElement { code: 0, len: 0 }
    }
}

/// Number of subbands.
pub const NUM_QMF: usize = 16;

/// Largest number of quantisation units.
pub const MAX_BFUS: usize = 32;

pub const BLOCKS_PER_BAND: [u32; 17] = [
    0, 8, 12, 16, 18, 20, 22, 23, 24, 25, 26, 27, 28, 29, 30, 31, 32,
];

/// Lines of each quantisation unit.
pub const SPECS_PER_BLOCK: [u32; 32] = [
    16, 16, 16, 16, 16, 16, 16, 16, 32, 32, 32, 32, 32, 32, 32, 32, 64, 64, 64, 64, 64, 64, 128, 128,
    128, 128, 128, 128, 128, 128, 128, 128,
];

/// Where the lines of each quantisation unit start.
pub const BLOCK_SIZE_TAB: [u32; 33] = [
    0, 16, 32, 48, 64, 80, 96, 112, 128, 160, 192, 224, 256, 288, 320, 352, 384, 448, 512, 576, 640,
    704, 768, 896, 1024, 1152, 1280, 1408, 1536, 1664, 1792, 1920, 2048,
];

pub const SPECS_START_SHORT: [u32; 33] = BLOCK_SIZE_TAB;

pub const SPECS_START_LONG: [u32; 33] = BLOCK_SIZE_TAB;

/// How the lines of a unit are cut up for a code table: `num_coeffs` lines share
/// a code word, `bits` bits each, and `group_size` code words share a flag.
#[derive(Debug, Clone, Copy, PartialEq, Eq, Structural)]
pub struct SpectraTab {
    pub group_size: u8,
    pub num_coeffs: u8,
    pub bits: u8,
    pub is_signed: bool,
}

/// The constants that define the code tables: how many code words there are of
/// each length from 1 to 12, and the symbols in the order of their code words.
/// A spectrum row whose first count is negative stands for an earlier row.
pub struct CodeBooks {
    pub tone_cbs: [u8; 12],
    pub tone_xlats: Vec<u8>,
    pub wl_cbs: [[u8; 12]; 4],
    pub ct_cbs: [[u8; 12]; 4],
    pub wl_ct_xlats: Vec<u8>,
    pub spectra_cbs: Vec<[i8; 12]>,
    pub spectra_xlats: Vec<u8>,
    pub spectra_tabs: Vec<SpectraTab>,
    pub qu_to_subband: [u8; 32],
    pub subband_to_num_powgrps: [u8; 16],
}

/// Number of code words of at most `b` bits.
pub open spec fn words_upto(cb: Seq<u8>, b: nat) -> nat
    decreases b,
{
    if b == 0 {
        0
    } else {
        words_upto(cb, (b - 1) as nat) + cb[b - 1] as nat
    }
}

/// The first code word of `b` bits: twice what follows the last one of `b - 1`
/// bits.
pub open spec fn first_code(cb: Seq<u8>, b: nat) -> nat
    decreases b,
{
    if b <= 1 {
        0
    } else {
        2 * (first_code(cb, (b - 1) as nat) + cb[b - 2] as nat)
    }
}

/// The length of code word number `k`, at least `b`.
pub open spec fn word_len_from(cb: Seq<u8>, k: nat, b: nat) -> nat
    decreases 12 - b,
{
    if b >= 12 || k < words_upto(cb, b) {
        b
    } else {
        word_len_from(cb, k, b + 1)
    }
}

/// The value of code word number `k`: words are numbered by length, and count up
/// within one.
pub open spec fn word_value(cb: Seq<u8>, k: nat) -> int {
    let b = word_len_from(cb, k, 1);
    first_code(cb, b) + k - words_upto(cb, (b - 1) as nat)
}

/// Code word number `k`.
pub open spec fn word(cb: Seq<u8>, k: nat) -> VlcElement {
    VlcElement { code: word_value(cb, k) as i16, len: word_len_from(cb, k, 1) as i16 }
}

/// `table` with the first `n` code words given to their symbols.
pub open spec fn with_words(
    cb: Seq<u8>,
    xlat: Seq<u8>,
    table: Seq<VlcElement>,
    n: nat,
) -> Seq<VlcElement>
    decreases n,
{
    if n == 0 {
        table
    } else {
        with_words(cb, xlat, table, (n - 1) as nat).update(
            xlat[n - 1] as int,
            word(cb, (n - 1) as nat),
        )
    }
}

/// There is a symbol in the table for every code word.
pub open spec fn book_wf(cb: Seq<u8>, xlat: Seq<u8>, size: int) -> bool {
    &&& cb.len() >= 12
    &&& words_upto(cb, 12) <= xlat.len()
    &&& forall|k: int| 0 <= k < words_upto(cb, 12) ==> (#[trigger] xlat[k]) < size
}

proof fn lemma_words_upto(cb: Seq<u8>, a: nat, b: nat)
    requires
        a <= b <= 12,
        cb.len() >= 12,
    ensures
        words_upto(cb, a) <= words_upto(cb, b),
        words_upto(cb, b) <= 255 * b,
    decreases b,
{
    if b > 0 {
        if a < b {
            lemma_words_upto(cb, a, (b - 1) as nat);
        } else {
            lemma_words_upto(cb, (b - 1) as nat, (b - 1) as nat);
        }
    }
}

proof fn lemma_word_len(cb: Seq<u8>, k: nat, b: nat, from: nat)
    requires
        cb.len() >= 12,
        1 <= from <= b <= 12,
        words_upto(cb, (b - 1) as nat) <= k < words_upto(cb, b),
    ensures
        word_len_from(cb, k, from) == b,
    decreases b - from,
{
    if from < b {
        lemma_words_upto(cb, from, (b - 1) as nat);
        lemma_word_len(cb, k, b, from + 1);
    }
}

proof fn lemma_first_code_bound(cb: Seq<u8>, b: nat)
    requires
        cb.len() >= 12,
        1 <= b <= 13,
    ensures
        b == 1 ==> first_code(cb, b) == 0,
        b == 2 ==> first_code(cb, b) <= 510,
        b == 3 ==> first_code(cb, b) <= 1530,
        b == 4 ==> first_code(cb, b) <= 3570,
        b == 5 ==> first_code(cb, b) <= 7650,
        b == 6 ==> first_code(cb, b) <= 15810,
        b == 7 ==> first_code(cb, b) <= 32130,
        first_code(cb, b) <= 0x20_0000,
        b == 8 ==> first_code(cb, b) <= 64770,
        b == 9 ==> first_code(cb, b) <= 130050,
        b == 10 ==> first_code(cb, b) <= 260610,
        b == 11 ==> first_code(cb, b) <= 521730,
        b == 12 ==> first_code(cb, b) <= 1043970,
        b == 13 ==> first_code(cb, b) <= 2088450,
    decreases b,
{
    if b > 1 {
        lemma_first_code_bound(cb, (b - 1) as nat);
    }
}

/// Gives code words to symbols: canonical codes, shorter ones first, in the order
/// of `xlat`. Returns the number of symbols used up.
pub fn gen_huffman_enc_table(cb: &[u8], xlat: &[u8], out: &mut Vec<VlcElement>) -> (n: usize)
    requires
        book_wf(cb@, xlat@, old(out)@.len() as int),
    ensures
        n == words_upto(cb@, 12),
        final(out)@ == with_words(cb@, xlat@, old(out)@, n as nat),
        final(out)@.len() == old(out)@.len(),
{
    let ghost c = cb@;
    let ghost x = xlat@;
    let ghost size = out@.len();
    let mut index: usize = 0;
    let mut code: i32 = 0;
    let mut b: i16 = 1;
    while b <= 12
        invariant
            1 <= b <= 13,
            c == cb@,
            x == xlat@,
            book_wf(c, x, size as int),
            out@.len() == size,
            size == old(out)@.len(),
            index == words_upto(c, (b - 1) as nat),
            code == first_code(c, b as nat),
            out@ == with_words(c, x, old(out)@, index as nat),
        decreases 13 - b,
    {
        let ghost before = index as int;
        let ghost first = code as int;
        let mut count: u8 = cb[(b - 1) as usize];
        proof {
            lemma_words_upto(c, b as nat, 12);
            lemma_words_upto(c, (b - 1) as nat, 12);
            lemma_first_code_bound(c, b as nat);
        }
        while count > 0
            invariant
                1 <= b <= 12,
                c == cb@,
                x == xlat@,
                book_wf(c, x, size as int),
                out@.len() == size,
                before == words_upto(c, (b - 1) as nat),
                words_upto(c, b as nat) == before + c[b - 1],
                words_upto(c, b as nat) <= words_upto(c, 12),
                words_upto(c, 12) <= x.len(),
                first == first_code(c, b as nat),
                0 <= first <= 0x20_0000,
                index + count == before + c[b - 1],
                index >= before,
                code == first + (index - before),
                out@ == with_words(c, x, old(out)@, index as nat),
            decreases count,
        {
            let val: usize = xlat[index] as usize;
            proof {
                lemma_word_len(c, index as nat, b as nat, 1);
                assert(x.len() == xlat.len());
            }
            out[val] = VlcElement {
                code:
                    #[verifier::truncate]
                    (code as i16),
                len: b,
            };
            index += 1;
            code += 1;
            count -= 1;
        }
        proof {
            lemma_first_code_bound(c, (b + 1) as nat);
        }
        code = code * 2;
        b += 1;
    }
    index
}

proof fn lemma_word_place(cb: Seq<u8>, k: nat, from: nat)
    requires
        cb.len() >= 12,
        k < words_upto(cb, 12),
        1 <= from <= 12,
        words_upto(cb, (from - 1) as nat) <= k,
    ensures
        ({
            let b = word_len_from(cb, k, from);
            &&& from <= b <= 12
            &&& words_upto(cb, (b - 1) as nat) <= k < words_upto(cb, b)
        }),
    decreases 12 - from,
{
    if from < 12 && k >= words_upto(cb, from) {
        lemma_word_place(cb, k, from + 1);
    }
}

proof fn lemma_first_code_grows(cb: Seq<u8>, b: nat, j: nat)
    requires
        cb.len() >= 12,
        1 <= b,
        1 <= j,
        b + j <= 13,
    ensures
        first_code(cb, b + j) >= pow2(j) * (first_code(cb, b) + cb[b - 1]),
    decreases j,
{
    let e = first_code(cb, b) + cb[b - 1];
    lemma_pow2_unfold(j);
    if j == 1 {
        lemma2_to64();
    } else {
        lemma_first_code_grows(cb, b, (j - 1) as nat);
        let p = pow2((j - 1) as nat) as int;
        assert(2 * (p * e) == (2 * p) * e) by (nonlinear_arith);
    }
}

/// No code word begins with another: cut to the length of an earlier word, a
/// later one has a greater value.
pub proof fn law_words_prefix_free(cb: Seq<u8>, k: nat, m: nat)
    requires
        cb.len() >= 12,
        k < m < words_upto(cb, 12),
    ensures
        ({
            let bk = word_len_from(cb, k, 1);
            let bm = word_len_from(cb, m, 1);
            &&& bk <= bm
            &&& word_value(cb, m) / (pow2((bm - bk) as nat) as int) > word_value(cb, k)
        }),
{
    let bk = word_len_from(cb, k, 1);
    let bm = word_len_from(cb, m, 1);
    lemma_word_place(cb, k, 1);
    lemma_word_place(cb, m, 1);
    if bm < bk {
        lemma_words_upto(cb, bm, (bk - 1) as nat);
    }
    let p = pow2((bm - bk) as nat) as int;
    lemma_pow2_pos((bm - bk) as nat);
    if bk == bm {
        lemma2_to64();
        lemma_div_basics(word_value(cb, m));
    } else {
        lemma_first_code_grows(cb, bk, (bm - bk) as nat);
        let e = first_code(cb, bk) + cb[bk - 1];
        assert(word_value(cb, m) >= p * e);
        lemma_div_is_ordered(p * e, word_value(cb, m), p);
        lemma_div_multiples_vanish(e as int, p);
        assert((p * e) / p == e);
    }
}

/// A table without any code words.
pub open spec fn blank_table(size: nat) -> Seq<VlcElement> {
    Seq::new(size, |i: int| VlcElement::none())
}

/// The table that a code book defines.
pub open spec fn built_table(cb: Seq<u8>, xlat: Seq<u8>, size: nat) -> Seq<VlcElement> {
    with_words(cb, xlat, blank_table(size), words_upto(cb, 12))
}

/// Every length in a table is between 0 and 12.
pub open spec fn lens_wf(table: Seq<VlcElement>) -> bool {
    forall|i: int| 0 <= i < table.len() ==> 0 <= (#[trigger] table[i]).len <= 12
}

proof fn lemma_with_words_lens(cb: Seq<u8>, xlat: Seq<u8>, table: Seq<VlcElement>, n: nat)
    requires
        cb.len() >= 12,
        lens_wf(table),
        n <= words_upto(cb, 12),
        forall|k: int| 0 <= k < n ==> (#[trigger] xlat[k]) < table.len(),
    ensures
        lens_wf(with_words(cb, xlat, table, n)),
        with_words(cb, xlat, table, n).len() == table.len(),
    decreases n,
{
    if n > 0 {
        lemma_with_words_lens(cb, xlat, table, (n - 1) as nat);
        lemma_word_place(cb, (n - 1) as nat, 1);
        assert(xlat[n - 1] < table.len());
    }
}

fn build_table(cb: &[u8], xlat: &[u8], size: usize) -> (r: (Vec<VlcElement>, usize))
    requires
        book_wf(cb@, xlat@, size as int),
    ensures
        r.0@ == built_table(cb@, xlat@, size as nat),
        r.0@.len() == size,
        lens_wf(r.0@),
        r.1 == words_upto(cb@, 12),
{
    let mut table: Vec<VlcElement> = vec![VlcElement { code: 0, len: 0 }; size];
    assert(table@ =~= blank_table(size as nat));
    let n: usize = gen_huffman_enc_table(cb, xlat, &mut table);
    proof {
        lemma_with_words_lens(cb@, xlat@, blank_table(size as nat), n as nat);
    }
    (table, n)
}

impl CodeBooks {
    /// Where the symbols of word length and code table pair `i` start.
    pub open spec fn wl_ct_offset(&self, i: nat) -> nat
        decreases i,
    {
        if i == 0 {
            0
        } else {
            self.wl_ct_offset((i - 1) as nat) + words_upto(self.wl_cbs@[i - 1]@, 12) + words_upto(
                self.ct_cbs@[i - 1]@,
                12,
            )
        }
    }

    /// Spectrum row `i` as counts.
    pub open spec fn spectra_row(&self, i: int) -> Seq<u8> {
        Seq::new(12, |k: int| self.spectra_cbs@[i]@[k] as u8)
    }

    /// Row `i` stands for an earlier one.
    pub open spec fn is_alias(&self, i: int) -> bool {
        self.spectra_cbs@[i]@[0] < 0
    }

    /// Where the symbols of spectrum row `i` start.
    pub open spec fn spectra_offset(&self, i: nat) -> nat
        decreases i,
    {
        if i == 0 {
            0
        } else {
            self.spectra_offset((i - 1) as nat) + (if self.is_alias(i - 1) {
                0nat
            } else {
                words_upto(self.spectra_row(i - 1), 12)
            })
        }
    }

    /// The code table of spectrum row `i`.
    pub open spec fn spectra_table(&self, i: int) -> Seq<VlcElement>
        decreases i,
    {
        if !self.is_alias(i) {
            built_table(
                self.spectra_row(i),
                self.spectra_xlats@.skip(self.spectra_offset(i as nat) as int),
                256,
            )
        } else {
            let a = -(self.spectra_cbs@[i]@[0] as int);
            if 0 <= a < i {
                self.spectra_table(a)
            } else {
                blank_table(256)
            }
        }
    }

    /// The books define all the tables.
    pub open spec fn wf(&self) -> bool {
        &&& book_wf(self.tone_cbs@, self.tone_xlats@, 16)
        &&& forall|i: int|
            0 <= i < 4 ==> self.wl_ct_offset(i as nat) <= self.wl_ct_xlats@.len() && book_wf(
                (#[trigger] self.wl_cbs@[i])@,
                self.wl_ct_xlats@.skip(self.wl_ct_offset(i as nat) as int),
                8,
            )
        &&& forall|i: int|
            0 <= i < 4 ==> self.wl_ct_offset(i as nat) + words_upto(self.wl_cbs@[i]@, 12)
                <= self.wl_ct_xlats@.len() && book_wf(
                (#[trigger] self.ct_cbs@[i])@,
                self.wl_ct_xlats@.skip(
                    (self.wl_ct_offset(i as nat) + words_upto(self.wl_cbs@[i]@, 12)) as int,
                ),
                8,
            )
        &&& self.spectra_cbs@.len() == 112
        &&& forall|i: int|
            0 <= i < 112 ==> if (#[trigger] self.spectra_cbs@[i])@[0] < 0 {
                -112 < self.spectra_cbs@[i]@[0]
            } else {
                self.spectra_offset(i as nat) <= self.spectra_xlats@.len() && book_wf(
                    self.spectra_row(i),
                    self.spectra_xlats@.skip(self.spectra_offset(i as nat) as int),
                    256,
                )
            }
    }
}

/// The code tables.
pub struct HuffTables {
    pub num_tone_bands: Vec<VlcElement>,
    pub vlc_specs: Vec<Vec<VlcElement>>,
    pub word_lens: Vec<Vec<VlcElement>>,
    pub code_tables: Vec<Vec<VlcElement>>,
}

impl HuffTables {
    /// The tables have their sizes, and no code word is longer than 12 bits.
    pub open spec fn wf(&self) -> bool {
        &&& self.num_tone_bands@.len() == 16
        &&& lens_wf(self.num_tone_bands@)
        &&& self.vlc_specs@.len() == 112
        &&& forall|i: int|
            0 <= i < 112 ==> (#[trigger] self.vlc_specs@[i])@.len() == 256 && lens_wf(
                self.vlc_specs@[i]@,
            )
        &&& self.word_lens@.len() == 4
        &&& forall|i: int|
            0 <= i < 4 ==> (#[trigger] self.word_lens@[i])@.len() == 8 && lens_wf(
                self.word_lens@[i]@,
            )
        &&& self.code_tables@.len() == 4
        &&& forall|i: int|
            0 <= i < 4 ==> (#[trigger] self.code_tables@[i])@.len() == 8 && lens_wf(
                self.code_tables@[i]@,
            )
    }

    /// Builds the tables that the books define.
    pub fn new(books: &CodeBooks) -> (t: Self)
        requires
            books.wf(),
        ensures
            t.wf(),
            t.num_tone_bands@ == built_table(books.tone_cbs@, books.tone_xlats@, 16),
            forall|i: int|
                0 <= i < 4 ==> (#[trigger] t.word_lens@[i])@ == built_table(
                    books.wl_cbs@[i]@,
                    books.wl_ct_xlats@.skip(books.wl_ct_offset(i as nat) as int),
                    8,
                ),
            forall|i: int|
                0 <= i < 4 ==> (#[trigger] t.code_tables@[i])@ == built_table(
                    books.ct_cbs@[i]@,
                    books.wl_ct_xlats@.skip(
                        (books.wl_ct_offset(i as nat) + words_upto(books.wl_cbs@[i]@, 12)) as int,
                    ),
                    8,
                ),
            forall|i: int| 0 <= i < 112 ==> (#[trigger] t.vlc_specs@[i])@ == books.spectra_table(i),
    {
        let (num_tone_bands, _n): (Vec<VlcElement>, usize) = build_table(
            books.tone_cbs.as_slice(),
            books.tone_xlats.as_slice(),
            16,
        );
        let mut word_lens: Vec<Vec<VlcElement>> = Vec::new();
        let mut code_tables: Vec<Vec<VlcElement>> = Vec::new();
        let mut x: usize = 0;
        let mut i: usize = 0;
        while i < 4
            invariant
                i <= 4,
                books.wf(),
                x == books.wl_ct_offset(i as nat),
                word_lens@.len() == i,
                code_tables@.len() == i,
                forall|j: int|
                    0 <= j < i ==> (#[trigger] word_lens@[j])@ == built_table(
                        books.wl_cbs@[j]@,
                        books.wl_ct_xlats@.skip(books.wl_ct_offset(j as nat) as int),
                        8,
                    ) && word_lens@[j]@.len() == 8 && lens_wf(word_lens@[j]@),
                forall|j: int|
                    0 <= j < i ==> (#[trigger] code_tables@[j])@ == built_table(
                        books.ct_cbs@[j]@,
                        books.wl_ct_xlats@.skip(
                            (books.wl_ct_offset(j as nat) + words_upto(
                                books.wl_cbs@[j]@,
                                12,
                            )) as int,
                        ),
                        8,
                    ) && code_tables@[j]@.len() == 8 && lens_wf(code_tables@[j]@),
            decreases 4 - i,
        {
            let all: &[u8] = books.wl_ct_xlats.as_slice();
            proof {
                let w = books.wl_cbs@[i as int];
                let c = books.ct_cbs@[i as int];
                assert(book_wf(w@, all@.skip(x as int), 8));
                assert(x + words_upto(w@, 12) <= all@.len());
                assert(book_wf(c@, all@.skip((x + words_upto(w@, 12)) as int), 8));
            }
            let rest: &[u8] = vstd::slice::slice_subrange(all, x, all.len());
            assert(rest@ =~= all@.skip(x as int));
            let (wl, used): (Vec<VlcElement>, usize) = build_table(
                books.wl_cbs[i].as_slice(),
                rest,
                8,
            );
            word_lens.push(wl);
            x += used;
            let rest: &[u8] = vstd::slice::slice_subrange(all, x, all.len());
            assert(rest@ =~= all@.skip(x as int));
            let (ct, used): (Vec<VlcElement>, usize) = build_table(
                books.ct_cbs[i].as_slice(),
                rest,
                8,
            );
            code_tables.push(ct);
            x += used;
            i += 1;
        }
        let mut vlc_specs: Vec<Vec<VlcElement>> = Vec::new();
        let mut xx: usize = 0;
        let mut i: usize = 0;
        while i < 112
            invariant
                i <= 112,
                books.wf(),
                xx == books.spectra_offset(i as nat),
                vlc_specs@.len() == i,
                forall|j: int|
                    0 <= j < i ==> (#[trigger] vlc_specs@[j])@ == books.spectra_table(j)
                        && vlc_specs@[j]@.len() == 256 && lens_wf(vlc_specs@[j]@),
            decreases 112 - i,
        {
            let row: &[i8; 12] = &books.spectra_cbs[i];
            assert(row@ == books.spectra_cbs@[i as int]@);
            let first: i8 = row[0];
            if first >= 0 {
                let mut cb: Vec<u8> = Vec::new();
                let mut k: usize = 0;
                while k < 12
                    invariant
                        k <= 12,
                        i < 112,
                        row@ == books.spectra_cbs@[i as int]@,
                        cb@ == books.spectra_row(i as int).take(k as int),
                    decreases 12 - k,
                {
                    cb.push(
                        #[verifier::truncate]
                        (row[k] as u8),
                    );
                    assert(cb@ =~= books.spectra_row(i as int).take(k + 1));
                    k += 1;
                }
                assert(cb@ =~= books.spectra_row(i as int));
                let all: &[u8] = books.spectra_xlats.as_slice();
                let rest: &[u8] = vstd::slice::slice_subrange(all, xx, all.len());
                assert(rest@ =~= all@.skip(xx as int));
                let (table, used): (Vec<VlcElement>, usize) = build_table(cb.as_slice(), rest, 256);
                vlc_specs.push(table);
                xx += used;
            } else {
                let alias: usize = (-(first as i32)) as usize;
                let table: Vec<VlcElement> = if alias < i {
                    vstd::slice::slice_to_vec(vlc_specs[alias].as_slice())
                } else {
                    let t: Vec<VlcElement> = vec![VlcElement { code: 0, len: 0 }; 256];
                    assert(t@ =~= blank_table(256));
                    t
                };
                vlc_specs.push(table);
            }
            i += 1;
        }
        HuffTables { num_tone_bands, vlc_specs, word_lens, code_tables }
    }
}

/// Code words are canonical: the first one is 0, the next of the same length is greater by
/// one, and a longer one is what follows the one before, filled up with zeros. There are as
/// many of each length as the book counts.
pub proof fn law_words_canonical(cb: Seq<u8>, k: nat)
    requires
        cb.len() >= 12,
        k + 1 < words_upto(cb, 12),
    ensures
        word_value(cb, 0) == 0,
        ({
            let a = word_len_from(cb, k, 1);
            let b = word_len_from(cb, k + 1, 1);
            &&& 1 <= a <= b <= 12
            &&& words_upto(cb, (a - 1) as nat) <= k < words_upto(cb, a)
            &&& word_value(cb, k + 1) == (word_value(cb, k) + 1) * pow2((b - a) as nat)
        }),
{
    lemma2_to64();
    let a = word_len_from(cb, k, 1);
    let b = word_len_from(cb, k + 1, 1);
    lemma_word_place(cb, k, 1);
    lemma_word_place(cb, k + 1, 1);
    lemma_word_place(cb, 0, 1);
    if b < a {
        lemma_words_upto(cb, b, (a - 1) as nat);
    }
    lemma_first_value(cb, word_len_from(cb, 0, 1));
    if a < b {
        lemma_words_upto(cb, a, (b - 1) as nat);
        lemma_words_upto(cb, (a - 1) as nat, a);
        lemma_no_words_between(cb, a, b);
        assert(words_upto(cb, (b - 1) as nat) == k + 1);
        let e = first_code(cb, a) + cb[a - 1];
        assert(word_value(cb, k) + 1 == e);
    } else {
        let v = word_value(cb, k) + 1;
        let p = pow2((b - a) as nat) as int;
        assert(p == 1);
        assert(v * p == v) by (nonlinear_arith)
            requires
                p == 1,
        ;
    }
}

/// Before the first word no length has any.
proof fn lemma_first_value(cb: Seq<u8>, b: nat)
    requires
        1 <= b <= 12,
        words_upto(cb, (b - 1) as nat) == 0,
    ensures
        first_code(cb, b) == 0,
    decreases b,
{
    if b > 1 {
        lemma_first_value(cb, (b - 1) as nat);
    }
}

proof fn lemma_no_words_between(cb: Seq<u8>, a: nat, b: nat)
    requires
        cb.len() >= 12,
        1 <= a < b <= 12,
        words_upto(cb, a) == words_upto(cb, (b - 1) as nat),
    ensures
        first_code(cb, b) == (first_code(cb, a) + cb[a - 1]) * pow2((b - a) as nat),
    decreases b,
{
    lemma2_to64();
    if a + 1 == b {
        let e = first_code(cb, a) + cb[a - 1];
        let p = pow2((b - a) as nat) as int;
        assert(p == 2);
        assert(e * p == 2 * e) by (nonlinear_arith)
            requires
                p == 2,
        ;
    } else {
        lemma_words_upto(cb, a, (b - 2) as nat);
        assert(cb[b - 2] == 0);
        lemma_no_words_between(cb, a, (b - 1) as nat);
        lemma_pow2_unfold((b - a) as nat);
        let e = first_code(cb, a) + cb[a - 1];
        let p = pow2((b - a - 1) as nat) as int;
        assert(2 * (e * p) == e * (2 * p)) by (nonlinear_arith);
    }
}

/// A symbol that is named once gets the code word of its place; one that is not named stays
/// as it was.
pub proof fn law_symbols_get_words(
    cb: Seq<u8>,
    xlat: Seq<u8>,
    table: Seq<VlcElement>,
    n: nat,
    k: int,
    symbol: int,
)
    requires
        n <= xlat.len(),
        forall|i: int| 0 <= i < n ==> (#[trigger] xlat[i] as int) < table.len(),
        forall|i: int, j: int| 0 <= i < j < n ==> #[trigger] xlat[i] != #[trigger] xlat[j],
    ensures
        with_words(cb, xlat, table, n).len() == table.len(),
        0 <= k < n ==> with_words(cb, xlat, table, n)[xlat[k] as int] == word(cb, k as nat),
        0 <= symbol < table.len() && (forall|i: int|
            0 <= i < n ==> #[trigger] xlat[i] != symbol) ==> with_words(cb, xlat, table, n)[symbol]
            == table[symbol],
    decreases n,
{
    if n > 0 {
        law_symbols_get_words(cb, xlat, table, (n - 1) as nat, k, symbol);
        if 0 <= k < n - 1 {
            assert(xlat[k] != xlat[n - 1]);
        }
    }
}

} // verus!
