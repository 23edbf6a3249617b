//! GF(256) arithmetic, Reed-Solomon error-correction codewords, and the BCH
//! codes protecting the format and version information.
use vstd::prelude::*;

verus! {

/// One multiplication by the generator `x` in GF(256) under the field
/// polynomial 0x11D.
pub open spec fn gf_step(x: u8) -> u8 {
    if x >= 128 {
        (((x as u16) << 1) ^ 0x11D) as u8
    } else {
        (x << 1) as u8
    }
}

/// `alpha^i` in GF(256), with `alpha = 2`.
pub open spec fn gf_exp(i: nat) -> u8
    decreases i,
{
    if i == 0 {
        1
    } else {
        gf_step(gf_exp((i - 1) as nat))
    }
}

/// The largest `e` at or under `bound` with `gf_exp(e) == a`, or 0 when
/// there is none: the exponent the table construction leaves for `a`.
pub open spec fn log_last(a: u8, bound: nat) -> u8
    decreases bound,
{
    if bound == 0 {
        0
    } else if gf_exp(bound) == a {
        (bound % 255) as u8
    } else {
        log_last(a, (bound - 1) as nat)
    }
}

/// Discrete logarithm of `a` as the lookup table holds it.
pub open spec fn spec_log(a: u8) -> u8 {
    log_last(a, 254)
}

proof fn lemma_log_last_bound(a: u8, bound: nat)
    requires
        bound <= 254,
    ensures
        log_last(a, bound) < 255,
    decreases bound,
{
    if bound != 0 && gf_exp(bound) != a {
        lemma_log_last_bound(a, (bound - 1) as nat);
    }
}

/// Product in GF(256), through the exponent and logarithm tables.
pub open spec fn spec_gf_mul(a: u8, b: u8) -> u8 {
    if a == 0 || b == 0 {
        0
    } else {
        gf_exp(((spec_log(a) + spec_log(b)) % 255) as nat)
    }
}

/// Exponent and logarithm tables of GF(256) over the field polynomial 0x11D.
pub struct GaloisField {
    exp: Vec<u8>,
    log: Vec<u8>,
}

impl GaloisField {
    pub closed spec fn wf(&self) -> bool {
        &&& self.exp@.len() == 256
        &&& self.log@.len() == 256
        &&& forall|i: int| 0 <= i < 255 ==> self.exp@[i] == gf_exp(i as nat)
        &&& forall|a: int| 0 <= a < 256 ==> self.log@[a] == spec_log(a as u8)
    }

    pub fn new() -> (r: Self)
        ensures
            r.wf(),
    {
        let mut exp: Vec<u8> = Vec::new();
        let mut log: Vec<u8> = Vec::new();
        let mut i: usize = 0;
        while i < 256
            invariant
                exp@.len() == i,
                log@.len() == i,
                i <= 256,
                forall|k: int| 0 <= k < i ==> exp@[k] == 0 && log@[k] == 0,
            decreases 256 - i,
        {
            exp.push(0);
            log.push(0);
            i = i + 1;
        }
        exp.set(0, 1);

        let mut x: u8 = 1;
        let mut e: usize = 1;
        while e <= 254
            invariant
                1 <= e <= 255,
                exp@.len() == 256,
                log@.len() == 256,
                x == gf_exp((e - 1) as nat),
                exp@[0] == 1,
                forall|k: int| 1 <= k < e ==> exp@[k] == gf_exp(k as nat),
                forall|k: int| e <= k < 256 ==> exp@[k] == 0,
                forall|a: int| 0 <= a < 256 ==> log@[a] == log_last(a as u8, (e - 1) as nat),
            decreases 255 - e,
        {
            if x >= 128 {
                proof {
                    assert((((x as u16) << 1) ^ 0x11D) < 256) by (bit_vector)
                        requires
                            x >= 128,
                    ;
                }
                x = (((x as u16) << 1) ^ 0x11D) as u8;
            } else {
                x = x << 1;
            }
            exp.set(e, x);
            log.set(x as usize, e as u8);
            proof {
                assert(x == gf_exp(e as nat));
                assert forall|a: int| 0 <= a < 256 implies log@[a] == log_last(a as u8, e as nat) by {
                    if a == x as int {
                        assert(log_last(x, e as nat) == (e % 255) as u8);
                    }
                }
            }
            e = e + 1;
        }
        Self { exp, log }
    }

    /// Product of two field elements.
    pub fn mul(&self, a: u8, b: u8) -> (r: u8)
        requires
            self.wf(),
        ensures
            r == spec_gf_mul(a, b),
    {
        if a == 0 || b == 0 {
            0
        } else {
            proof {
                lemma_log_last_bound(a, 254);
                lemma_log_last_bound(b, 254);
            }
            let la = self.log[a as usize] as usize;
            let lb = self.log[b as usize] as usize;
            self.exp[(la + lb) % 255]
        }
    }

    /// `alpha^i` from the exponent table.
    pub fn exp_at(&self, i: usize) -> (r: u8)
        requires
            self.wf(),
            i < 255,
        ensures
            r == gf_exp(i as nat),
    {
        self.exp[i]
    }
}

/// Coefficient `i` of the product of polynomials `a` and `b`, folded over
/// the first `k` coefficients of `a`.
pub open spec fn conv_coeff(a: Seq<u8>, b: Seq<u8>, i: int, k: nat) -> u8
    decreases k,
{
    if k == 0 {
        0
    } else {
        let aidx = k - 1;
        let bidx = i - aidx;
        let rest = conv_coeff(a, b, i, (k - 1) as nat);
        if 0 <= bidx < b.len() {
            rest ^ spec_gf_mul(a[aidx], b[bidx])
        } else {
            rest
        }
    }
}

/// Product of two polynomials over GF(256), coefficients highest degree
/// first.
pub open spec fn spec_poly_mul(a: Seq<u8>, b: Seq<u8>) -> Seq<u8> {
    Seq::new((a.len() + b.len() - 1) as nat, |i: int| conv_coeff(a, b, i, a.len()))
}

/// The Reed-Solomon generator polynomial with `t` roots
/// `alpha^0 .. alpha^(t-1)`.
pub open spec fn spec_gen_poly(t: nat) -> Seq<u8>
    decreases t,
{
    if t == 0 {
        seq![1u8]
    } else {
        spec_poly_mul(spec_gen_poly((t - 1) as nat), seq![1u8, gf_exp((t - 1) as nat)])
    }
}

/// Multiply two coefficient vectors over GF(256).
fn poly_mul(a: &Vec<u8>, b: &Vec<u8>, field: &GaloisField) -> (r: Vec<u8>)
    requires
        field.wf(),
        a@.len() >= 1,
        b@.len() >= 1,
        a@.len() + b@.len() <= usize::MAX,
    ensures
        r@ == spec_poly_mul(a@, b@),
{
    let n = a.len() + b.len() - 1;
    let mut result: Vec<u8> = Vec::new();
    let mut i: usize = 0;
    while i < n
        invariant
            field.wf(),
            i <= n,
            n == a@.len() + b@.len() - 1,
            result@.len() == i,
            forall|k: int| 0 <= k < i ==> result@[k] == conv_coeff(a@, b@, k, a@.len()),
        decreases n - i,
    {
        let mut coeff: u8 = 0;
        let mut aidx: usize = 0;
        while aidx < a.len()
            invariant
                field.wf(),
                aidx <= a@.len(),
                i < n,
                n == a@.len() + b@.len() - 1,
                coeff == conv_coeff(a@, b@, i as int, aidx as nat),
            decreases a@.len() - aidx,
        {
            if i >= aidx && i - aidx < b.len() {
                let m = field.mul(a[aidx], b[i - aidx]);
                coeff = coeff ^ m;
            }
            aidx = aidx + 1;
        }
        result.push(coeff);
        i = i + 1;
    }
    proof {
        assert(result@ =~= spec_poly_mul(a@, b@));
    }
    result
}

/// Build the generator polynomial for `err_len` error-correction codewords.
fn generate_generator_poly(field: &GaloisField, err_len: usize) -> (r: Vec<u8>)
    requires
        field.wf(),
        err_len < 255,
    ensures
        r@ == spec_gen_poly(err_len as nat),
        r@.len() == err_len + 1,
{
    let mut gen: Vec<u8> = Vec::new();
    gen.push(1);
    proof {
        assert(gen@ =~= seq![1u8]);
        lemma_gen_poly_len(err_len as nat);
    }
    let mut i: usize = 0;
    while i < err_len
        invariant
            field.wf(),
            i <= err_len < 255,
            gen@ == spec_gen_poly(i as nat),
            gen@.len() == i + 1,
        decreases err_len - i,
    {
        let root = field.exp_at(i);
        let mut next: Vec<u8> = Vec::new();
        next.push(1);
        next.push(root);
        proof {
            assert(next@ =~= seq![1u8, gf_exp(i as nat)]);
        }
        gen = poly_mul(&gen, &next, field);
        i = i + 1;
    }
    gen
}

proof fn lemma_gen_poly_len(t: nat)
    ensures
        spec_gen_poly(t).len() == t + 1,
    decreases t,
{
    if t > 0 {
        lemma_gen_poly_len((t - 1) as nat);
    }
}

/// One cancellation step of the polynomial long division: XOR
/// `coef * gen` into the buffer at offset `i`.
pub open spec fn spec_xor_into(buf: Seq<u8>, coef: u8, gen: Seq<u8>, i: int) -> Seq<u8> {
    Seq::new(
        buf.len(),
        |k: int|
            if i <= k < i + gen.len() {
                buf[k] ^ spec_gf_mul(coef, gen[k - i])
            } else {
                buf[k]
            },
    )
}

/// The padded buffer after the first `steps` division steps.
pub open spec fn rs_after(padded: Seq<u8>, gen: Seq<u8>, steps: nat) -> Seq<u8>
    decreases steps,
{
    if steps == 0 {
        padded
    } else {
        let prev = rs_after(padded, gen, (steps - 1) as nat);
        let coef = prev[steps - 1];
        if coef == 0 {
            prev
        } else {
            spec_xor_into(prev, coef, gen, steps - 1)
        }
    }
}

/// The remainder of `data * x^t` divided by the generator polynomial with
/// `t` roots: the `t` error-correction codewords, highest degree first.
pub open spec fn spec_rs_remainder(data: Seq<u8>, t: nat) -> Seq<u8> {
    let padded = data + Seq::new(t, |k: int| 0u8);
    rs_after(padded, spec_gen_poly(t), data.len()).subrange(
        data.len() as int,
        (data.len() + t) as int,
    )
}

proof fn lemma_rs_after_len(padded: Seq<u8>, gen: Seq<u8>, steps: nat)
    ensures
        rs_after(padded, gen, steps).len() == padded.len(),
    decreases steps,
{
    if steps > 0 {
        lemma_rs_after_len(padded, gen, (steps - 1) as nat);
    }
}

/// Reed-Solomon encoder over GF(256).
pub struct ErrorCorrection {
    gf: GaloisField,
}

impl ErrorCorrection {
    pub closed spec fn wf(&self) -> bool {
        self.gf.wf()
    }

    pub fn new() -> (r: Self)
        ensures
            r.wf(),
    {
        Self { gf: GaloisField::new() }
    }

    /// The `err_len` error-correction codewords of `bytes`.
    pub fn calculate(&self, bytes: &Vec<u8>, err_len: usize) -> (r: Vec<u8>)
        requires
            self.wf(),
            err_len < 255,
            bytes@.len() + err_len <= usize::MAX,
        ensures
            r@ == spec_rs_remainder(bytes@, err_len as nat),
            r@.len() == err_len,
    {
        let ghost gens = spec_gen_poly(err_len as nat);
        let gen = generate_generator_poly(&self.gf, err_len);
        let mut data: Vec<u8> = Vec::new();
        let mut i: usize = 0;
        while i < bytes.len()
            invariant
                i <= bytes@.len(),
                data@ == bytes@.take(i as int),
            decreases bytes@.len() - i,
        {
            data.push(bytes[i]);
            i = i + 1;
        }
        let mut z: usize = 0;
        while z < err_len
            invariant
                z <= err_len,
                data@ == bytes@ + Seq::new(z as nat, |k: int| 0u8),
            decreases err_len - z,
        {
            data.push(0);
            proof {
                assert(data@ =~= bytes@ + Seq::new((z + 1) as nat, |k: int| 0u8));
            }
            z = z + 1;
        }
        let ghost padded = data@;
        proof {
            assert(bytes@.take(bytes@.len() as int) =~= bytes@);
            lemma_rs_after_len(padded, gens, bytes@.len());
        }

        let mut i: usize = 0;
        while i < bytes.len()
            invariant
                self.wf(),
                i <= bytes@.len(),
                gen@ == gens,
                gen@.len() == err_len + 1,
                data@.len() == padded.len() == bytes@.len() + err_len,
                data@ == rs_after(padded, gens, i as nat),
            decreases bytes@.len() - i,
        {
            proof {
                lemma_rs_after_len(padded, gens, (i + 1) as nat);
                assert(data.len() == data@.len());
            }
            let coef = data[i];
            if coef != 0 {
                let ghost before = data@;
                let mut j: usize = 0;
                while j < gen.len()
                    invariant
                        self.wf(),
                        j <= gen@.len(),
                        gen@ == gens,
                        i + gen@.len() <= before.len(),
                        before.len() <= usize::MAX,
                        data@.len() == before.len(),
                        coef == before[i as int],
                        forall|k: int|
                            0 <= k < before.len() && !(i <= k < i + j) ==> data@[k] == before[k],
                        forall|k: int|
                            i <= k < i + j ==> data@[k] == (before[k] ^ spec_gf_mul(
                                coef,
                                gens[k - i],
                            )),
                    decreases gen@.len() - j,
                {
                    let m = self.gf.mul(coef, gen[j]);
                    let cur = data[i + j];
                    data.set(i + j, cur ^ m);
                    j = j + 1;
                }
                proof {
                    assert(data@ =~= spec_xor_into(before, coef, gens, i as int));
                }
            }
            i = i + 1;
        }

        let mut r: Vec<u8> = Vec::new();
        let mut k: usize = bytes.len();
        while k < data.len()
            invariant
                bytes@.len() <= k <= data@.len(),
                data@.len() == bytes@.len() + err_len,
                r@ == data@.subrange(bytes@.len() as int, k as int),
            decreases data@.len() - k,
        {
            r.push(data[k]);
            proof {
                assert(data@.subrange(bytes@.len() as int, (k + 1) as int) =~= data@.subrange(
                    bytes@.len() as int,
                    k as int,
                ).push(data@[k as int]));
            }
            k = k + 1;
        }
        r
    }

    /// Evaluate a polynomial (coefficients highest degree first) at `x`.
    pub fn poly_eval(&self, poly: &Vec<u8>, x: u8) -> (r: u8)
        requires
            self.wf(),
        ensures
            r == spec_poly_eval(poly@, x),
    {
        let mut acc: u8 = 0;
        let mut i: usize = 0;
        while i < poly.len()
            invariant
                self.wf(),
                i <= poly@.len(),
                acc == spec_poly_eval(poly@.take(i as int), x),
            decreases poly@.len() - i,
        {
            let m = self.gf.mul(acc, x);
            acc = m ^ poly[i];
            proof {
                assert(poly@.take((i + 1) as int).drop_last() =~= poly@.take(i as int));
            }
            i = i + 1;
        }
        proof {
            assert(poly@.take(poly@.len() as int) =~= poly@);
        }
        acc
    }

    /// `alpha^i`, for evaluating syndromes at the generator's roots.
    pub fn alpha(&self, i: usize) -> (r: u8)
        requires
            self.wf(),
            i < 255,
        ensures
            r == gf_exp(i as nat),
    {
        self.gf.exp_at(i)
    }
}

/// Horner evaluation of a polynomial over GF(256), coefficients highest
/// degree first.
pub open spec fn spec_poly_eval(p: Seq<u8>, x: u8) -> u8
    decreases p.len(),
{
    if p.len() == 0 {
        0
    } else {
        spec_gf_mul(spec_poly_eval(p.drop_last(), x), x) ^ p.last()
    }
}

/// One division step of the version-information BCH: cancel bit `12 + k`
/// with the generator 0x1F25.
pub open spec fn vstep(n: u32, k: u32) -> u32 {
    if (n >> (12 + k)) & 1 == 1 {
        n ^ (0x1F25u32 << k)
    } else {
        n
    }
}

/// The version-information division, all six steps.
pub open spec fn vchain(n: u32) -> u32 {
    vstep(vstep(vstep(vstep(vstep(vstep(n, 5), 4), 3), 2), 1), 0)
}

/// The full 18-bit version information word: the version number followed by
/// its 12-bit BCH remainder under generator 0x1F25.
pub open spec fn spec_version_info(version: u8) -> u32 {
    ((version as u32) << 12) | (vchain((version as u32) << 12) & 0xFFF)
}

/// Recompute the BCH remainder of a full 18-bit version word; zero exactly
/// when the word is a codeword.
pub open spec fn spec_version_bch_rem(word: u32) -> u32 {
    vchain(word) & 0xFFF
}

/// The version number followed by its 12-bit BCH remainder.
pub fn version_information_process(version: u8) -> (r: u32)
    requires
        version <= 40,
    ensures
        r == spec_version_info(version),
{
    let base: u32 = (version as u32) << 12;
    let mut num: u32 = base;
    if (num >> 17) & 1 == 1 {
        num = num ^ (0x1F25u32 << 5);
    }
    if (num >> 16) & 1 == 1 {
        num = num ^ (0x1F25u32 << 4);
    }
    if (num >> 15) & 1 == 1 {
        num = num ^ (0x1F25u32 << 3);
    }
    if (num >> 14) & 1 == 1 {
        num = num ^ (0x1F25u32 << 2);
    }
    if (num >> 13) & 1 == 1 {
        num = num ^ (0x1F25u32 << 1);
    }
    if (num >> 12) & 1 == 1 {
        num = num ^ 0x1F25u32;
    }
    proof {
        assert(0x1F25u32 << 0 == 0x1F25u32) by (bit_vector);
        assert(num == vchain(base));
    }
    base | (num & 0xFFF)
}

/// A version-division step treats an XOR of low remainder bits linearly.
proof fn lemma_vstep_xor(n: u32, b: u32, k: u32)
    requires
        k < 6,
        b < 0x1000,
    ensures
        vstep(n ^ b, k) == vstep(n, k) ^ b,
{
    assert(((n ^ b) >> (12 + k)) & 1 == (n >> (12 + k)) & 1) by (bit_vector)
        requires
            k < 6,
            b < 0x1000,
    ;
    assert((n ^ (0x1F25u32 << k)) ^ b == (n ^ b) ^ (0x1F25u32 << k)) by (bit_vector);
}

/// Recomputing the remainder over the complete version word gives zero: the
/// word is self-checking.
pub proof fn lemma_version_bch_self_check(version: u8)
    requires
        version <= 40,
    ensures
        spec_version_bch_rem(spec_version_info(version)) == 0,
{
    let base = (version as u32) << 12;
    let c0 = vchain(base);
    let bch = c0 & 0xFFF;
    assert(c0 & 0xFFF < 0x1000) by (bit_vector);
    assert((base | (c0 & 0xFFF)) == (base ^ (c0 & 0xFFF))) by (bit_vector)
        requires
            base == (version as u32) << 12,
            version <= 40,
    ;
    lemma_vstep_xor(base, bch, 5);
    lemma_vstep_xor(vstep(base, 5), bch, 4);
    lemma_vstep_xor(vstep(vstep(base, 5), 4), bch, 3);
    lemma_vstep_xor(vstep(vstep(vstep(base, 5), 4), 3), bch, 2);
    lemma_vstep_xor(vstep(vstep(vstep(vstep(base, 5), 4), 3), 2), bch, 1);
    lemma_vstep_xor(vstep(vstep(vstep(vstep(vstep(base, 5), 4), 3), 2), 1), bch, 0);
    assert(vchain(base ^ bch) == vchain(base) ^ bch);
    let c = vchain(base);
    assert((c ^ (c & 0xFFF)) & 0xFFF == 0) by (bit_vector);
}

/// One division step of the format BCH: cancel bit `10 + k` with the
/// generator 0x537.
pub open spec fn fstep(n: u16, k: u16) -> u16 {
    if (n >> (10 + k)) & 1 == 1 {
        n ^ (0x537u16 << k)
    } else {
        n
    }
}

/// The format division, all five steps.
pub open spec fn fchain(n: u16) -> u16 {
    fstep(fstep(fstep(fstep(fstep(n, 4), 3), 2), 1), 0)
}

/// The 10-bit BCH remainder of a 5-bit format pattern under generator
/// 0x537.
pub open spec fn spec_format_bch(fmt: u8) -> u16 {
    fchain((fmt as u16) << 10) & 0x3FF
}

/// Recompute the BCH remainder of a full 15-bit format word; zero exactly
/// when the word is a codeword.
pub open spec fn spec_format_bch_rem(word: u16) -> u16 {
    fchain(word) & 0x3FF
}

/// BCH remainder of the 5-bit format pattern.
pub fn get_format_ecc(fmt: u8) -> (r: u16)
    requires
        fmt < 32,
    ensures
        r == spec_format_bch(fmt),
{
    let mut num: u16 = (fmt as u16) << 10;
    if (num >> 14) & 1 == 1 {
        num = num ^ (0x537u16 << 4);
    }
    if (num >> 13) & 1 == 1 {
        num = num ^ (0x537u16 << 3);
    }
    if (num >> 12) & 1 == 1 {
        num = num ^ (0x537u16 << 2);
    }
    if (num >> 11) & 1 == 1 {
        num = num ^ (0x537u16 << 1);
    }
    if (num >> 10) & 1 == 1 {
        num = num ^ 0x537u16;
    }
    proof {
        assert(0x537u16 << 0 == 0x537u16) by (bit_vector);
        assert(num == fchain((fmt as u16) << 10));
    }
    num & 0x3FF
}

/// A format-division step treats an XOR of low remainder bits linearly.
proof fn lemma_fstep_xor(n: u16, b: u16, k: u16)
    requires
        k < 5,
        b < 0x400,
    ensures
        fstep(n ^ b, k) == fstep(n, k) ^ b,
{
    assert(((n ^ b) >> (10 + k)) & 1 == (n >> (10 + k)) & 1) by (bit_vector)
        requires
            k < 5,
            b < 0x400,
    ;
    assert((n ^ (0x537u16 << k)) ^ b == (n ^ b) ^ (0x537u16 << k)) by (bit_vector);
}

/// Recomputing the remainder over the complete format word gives zero: the
/// remainder XORed with its recomputation vanishes.
pub proof fn lemma_format_bch_self_check(fmt: u8)
    requires
        fmt < 32,
    ensures
        spec_format_bch_rem(((fmt as u16) << 10) | spec_format_bch(fmt)) == 0,
{
    let base = (fmt as u16) << 10;
    let c0 = fchain(base);
    let bch = c0 & 0x3FF;
    assert(c0 & 0x3FF < 0x400) by (bit_vector);
    assert((base | (c0 & 0x3FF)) == (base ^ (c0 & 0x3FF))) by (bit_vector)
        requires
            base == (fmt as u16) << 10,
            fmt < 32,
    ;
    lemma_fstep_xor(base, bch, 4);
    lemma_fstep_xor(fstep(base, 4), bch, 3);
    lemma_fstep_xor(fstep(fstep(base, 4), 3), bch, 2);
    lemma_fstep_xor(fstep(fstep(fstep(base, 4), 3), 2), bch, 1);
    lemma_fstep_xor(fstep(fstep(fstep(fstep(base, 4), 3), 2), 1), bch, 0);
    assert(fchain(base ^ bch) == fchain(base) ^ bch);
    let c = fchain(base);
    assert((c ^ (c & 0x3FF)) & 0x3FF == 0) by (bit_vector);
}

} // verus!
