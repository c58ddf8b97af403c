//! Pixel plumbing between a decoded image and the engine: normalizing pixel
//! formats to RGB triples, and downsampling pixel rows to codel resolution.

use vstd::prelude::*;

verus! {

/// The dimensions of a decoded image, in pixels.
pub struct OutputInfo {
    pub width: u32,
    pub height: u32,
}

/// The pixel layouts the interpreter accepts from a decoder.
#[derive(Clone, Copy, PartialEq, Eq, Structural, Debug)]
pub enum RawColorType {
    Rgb,
    Rgba,
    Grayscale,
    GrayscaleAlpha,
}

/// Normalize decoded image bytes to packed RGB: alpha channels are dropped
/// and gray values are tripled.
pub fn convert_to_rgb(img_data: &Vec<u8>, color_type: RawColorType) -> (r: Vec<u8>)
    requires
        color_type == RawColorType::Grayscale ==> img_data@.len() * 3 <= usize::MAX,
        color_type == RawColorType::GrayscaleAlpha ==> (img_data@.len() / 2) * 3 <= usize::MAX,
    ensures
        color_type == RawColorType::Rgb ==> r@ == img_data@,
        color_type == RawColorType::Rgba ==> r@.len() == (img_data@.len() / 4) * 3 && forall|
            i: int,
            k: int,
        |
            0 <= i < img_data@.len() / 4 && 0 <= k < 3 ==> #[trigger] r@[3 * i + k] == img_data@[4
                * i + k],
        color_type == RawColorType::Grayscale ==> r@.len() == img_data@.len() * 3 && forall|
            i: int,
            k: int,
        |
            0 <= i < img_data@.len() && 0 <= k < 3 ==> #[trigger] r@[3 * i + k] == img_data@[i],
        color_type == RawColorType::GrayscaleAlpha ==> r@.len() == (img_data@.len() / 2) * 3
            && forall|i: int, k: int|
            0 <= i < img_data@.len() / 2 && 0 <= k < 3 ==> #[trigger] r@[3 * i + k] == img_data@[2
                * i],
{
    match color_type {
        RawColorType::Rgb => {
            let mut v: Vec<u8> = Vec::new();
            let mut i: usize = 0;
            while i < img_data.len()
                invariant
                    0 <= i <= img_data@.len(),
                    v@ == img_data@.subrange(0, i as int),
                decreases img_data@.len() - i,
            {
                v.push(img_data[i]);
                proof {
                    assert(v@ =~= img_data@.subrange(0, i + 1));
                }
                i = i + 1;
            }
            proof {
                assert(img_data@.subrange(0, img_data@.len() as int) =~= img_data@);
            }
            v
        },
        RawColorType::Rgba => {
            let count = img_data.len() / 4;
            let mut v: Vec<u8> = Vec::new();
            let mut i: usize = 0;
            while i < count
                invariant
                    0 <= i <= count,
                    count == img_data@.len() / 4,
                    img_data@.len() <= usize::MAX,
                    v@.len() == 3 * i,
                    forall|ii: int, k: int|
                        0 <= ii < i && 0 <= k < 3 ==> #[trigger] v@[3 * ii + k] == img_data@[4 * ii
                            + k],
                decreases count - i,
            {
                proof {
                    vstd::arithmetic::div_mod::lemma_fundamental_div_mod(
                        img_data@.len() as int,
                        4,
                    );
                }
                v.push(img_data[4 * i]);
                v.push(img_data[4 * i + 1]);
                v.push(img_data[4 * i + 2]);
                i = i + 1;
            }
            v
        },
        RawColorType::Grayscale => {
            let count = img_data.len();
            let mut v: Vec<u8> = Vec::new();
            let mut i: usize = 0;
            while i < count
                invariant
                    0 <= i <= count,
                    count == img_data@.len(),
                    count * 3 <= usize::MAX,
                    v@.len() == 3 * i,
                    forall|ii: int, k: int|
                        0 <= ii < i && 0 <= k < 3 ==> #[trigger] v@[3 * ii + k] == img_data@[ii],
                decreases count - i,
            {
                let g = img_data[i];
                v.push(g);
                v.push(g);
                v.push(g);
                i = i + 1;
            }
            v
        },
        RawColorType::GrayscaleAlpha => {
            let count = img_data.len() / 2;
            let mut v: Vec<u8> = Vec::new();
            let mut i: usize = 0;
            while i < count
                invariant
                    0 <= i <= count,
                    count == img_data@.len() / 2,
                    count * 3 <= usize::MAX,
                    v@.len() == 3 * i,
                    forall|ii: int, k: int|
                        0 <= ii < i && 0 <= k < 3 ==> #[trigger] v@[3 * ii + k] == img_data@[2
                            * ii],
                decreases count - i,
            {
                proof {
                    vstd::arithmetic::div_mod::lemma_fundamental_div_mod(
                        img_data@.len() as int,
                        2,
                    );
                }
                let g = img_data[2 * i];
                v.push(g);
                v.push(g);
                v.push(g);
                i = i + 1;
            }
            v
        },
    }
}

/// Group packed RGB bytes into triples; a trailing partial triple is dropped.
pub fn group_pixels(bytes: &Vec<u8>) -> (r: Vec<(u8, u8, u8)>)
    ensures
        r@.len() == bytes@.len() / 3,
        forall|i: int|
            0 <= i < bytes@.len() / 3 ==> #[trigger] r@[i] == (
                bytes@[3 * i],
                bytes@[3 * i + 1],
                bytes@[3 * i + 2],
            ),
{
    let count = bytes.len() / 3;
    let mut r: Vec<(u8, u8, u8)> = Vec::new();
    let mut i: usize = 0;
    while i < count
        invariant
            0 <= i <= count,
            count == bytes@.len() / 3,
            bytes@.len() <= usize::MAX,
            r@.len() == i,
            forall|ii: int|
                0 <= ii < i ==> #[trigger] r@[ii] == (
                    bytes@[3 * ii],
                    bytes@[3 * ii + 1],
                    bytes@[3 * ii + 2],
                ),
        decreases count - i,
    {
        proof {
            vstd::arithmetic::div_mod::lemma_fundamental_div_mod(bytes@.len() as int, 3);
        }
        r.push((bytes[3 * i], bytes[3 * i + 1], bytes[3 * i + 2]));
        i = i + 1;
    }
    r
}

/// Every `cs`-th element of `p`: the codel taken from each block of pixels.
pub open spec fn sampled_codels(p: Seq<(u8, u8, u8)>, cs: int) -> Seq<(u8, u8, u8)>
    recommends
        cs >= 1,
{
    Seq::new((((p.len() + cs - 1) / cs) as nat), |i: int| p[i * cs])
}

/// Every `cs`-th full row of `rowlen` elements.
pub open spec fn sampled_rows(c: Seq<(u8, u8, u8)>, rowlen: int, cs: int) -> Seq<
    Seq<(u8, u8, u8)>,
>
    recommends
        rowlen >= 1,
        cs >= 1,
{
    Seq::new(
        ((((c.len() as int) / rowlen + cs - 1) / cs) as nat),
        |j: int| c.subrange(j * cs * rowlen, j * cs * rowlen + rowlen),
    )
}

/// Downsample a flat pixel list to codel resolution: keep one pixel per
/// `codel_size` horizontally, then one row of `width / codel_size` codels per
/// `codel_size` rows.
pub fn reduce_to_codels_and_group_into_rows(
    pixels: &Vec<(u8, u8, u8)>,
    codel_size: u32,
    width: u32,
) -> (r: Vec<Vec<(u8, u8, u8)>>)
    requires
        1 <= codel_size <= width,
    ensures
        r@.map_values(|row: Vec<(u8, u8, u8)>| row@) == sampled_rows(
            sampled_codels(pixels@, codel_size as int),
            (width / codel_size) as int,
            codel_size as int,
        ),
{
    let cs = codel_size as usize;
    let ghost csi = codel_size as int;
    let npix = pixels.len();
    let ghost np = pixels@.len() as int;
    let mut codels: Vec<(u8, u8, u8)> = Vec::new();
    let mut idx: usize = 0;
    proof {
        vstd::arithmetic::mul::lemma_mul_basics(csi);
    }
    while idx < npix
        invariant_except_break
            idx == codels@.len() * csi,
        invariant
            cs == codel_size as usize,
            csi == cs as int,
            1 <= cs,
            npix == pixels@.len(),
            np == pixels@.len(),
            codels@.len() > 0 ==> (codels@.len() - 1) * csi < np,
            forall|i: int| 0 <= i < codels@.len() ==> #[trigger] codels@[i] == pixels@[i * csi],
        ensures
            np <= codels@.len() * csi,
            codels@.len() > 0 ==> (codels@.len() - 1) * csi < np,
            forall|i: int| 0 <= i < codels@.len() ==> #[trigger] codels@[i] == pixels@[i * csi],
        decreases np - idx,
    {
        codels.push(pixels[idx]);
        proof {
            assert((codels@.len() - 1) * csi == idx);
            assert(codels@.len() * csi == idx + csi) by {
                vstd::arithmetic::mul::lemma_mul_is_distributive_sub_other_way(
                    csi,
                    codels@.len() as int,
                    1,
                );
            }
        }
        match idx.checked_add(cs) {
            Some(next) => {
                if next >= npix {
                    break;
                }
                idx = next;
            },
            None => {
                break;
            },
        }
    }
    proof {
        let nc = codels@.len() as int;
        assert(nc == (np + csi - 1) / csi) by {
            if nc == 0 {
                assert(np == 0);
                vstd::arithmetic::div_mod::lemma_basic_div(csi - 1, csi);
            } else {
                assert((nc - 1) * csi < np);
                assert(nc * csi == (nc - 1) * csi + csi) by {
                    vstd::arithmetic::mul::lemma_mul_is_distributive_sub_other_way(csi, nc, 1);
                }
                vstd::arithmetic::div_mod::lemma_fundamental_div_mod_converse(
                    np + csi - 1,
                    csi,
                    nc,
                    np + csi - 1 - nc * csi,
                );
            }
        }
        assert(codels@ =~= sampled_codels(pixels@, csi));
    }
    let rowlen = (width / codel_size) as usize;
    let ghost rli = rowlen as int;
    proof {
        assert(rli >= 1) by {
            vstd::arithmetic::div_mod::lemma_div_non_zero(width as int, codel_size as int);
        }
    }
    let ghost sampled = codels@;
    let ncod = codels.len();
    proof {
        vstd::arithmetic::div_mod::lemma_basic_div(csi - 1, csi);
    }
    let mut rows: Vec<Vec<(u8, u8, u8)>> = Vec::new();
    let mut pos: usize = 0;
    let mut jc: usize = 0;
    while codels.len() - pos >= rowlen
        invariant
            ncod == codels@.len(),
            1 <= rowlen,
            1 <= cs,
            rli == rowlen as int,
            csi == cs as int,
            sampled == codels@,
            pos <= codels@.len(),
            pos == jc * rli,
            rows@.len() == (jc + csi - 1) / csi,
            forall|j: int|
                0 <= j < rows@.len() ==> (#[trigger] rows@[j])@ == codels@.subrange(
                    j * csi * rli,
                    j * csi * rli + rli,
                ),
        decreases codels@.len() - pos,
    {
        if jc % cs == 0 {
            proof {
                vstd::arithmetic::div_mod::lemma_fundamental_div_mod(jc as int, csi);
            }
            let ghost j0 = jc as int / csi;
            proof {
                assert(jc as int == csi * j0);
                assert(rows@.len() == j0) by {
                    vstd::arithmetic::div_mod::lemma_div_multiples_vanish_fancy(
                        j0,
                        csi - 1,
                        csi,
                    );
                }
            }
            let mut row: Vec<(u8, u8, u8)> = Vec::new();
            let mut m: usize = 0;
            while m < rowlen
                invariant
                    0 <= m <= rowlen,
                    pos + rowlen <= codels@.len(),
                    codels@.len() <= usize::MAX,
                    row@ == codels@.subrange(pos as int, pos as int + m),
                decreases rowlen - m,
            {
                row.push(codels[pos + m]);
                proof {
                    assert(row@ =~= codels@.subrange(pos as int, pos as int + m + 1));
                }
                m = m + 1;
            }
            proof {
                assert(j0 * csi * rli == pos) by {
                    vstd::arithmetic::mul::lemma_mul_is_commutative(j0, csi);
                    vstd::arithmetic::mul::lemma_mul_is_associative(j0, csi, rli);
                }
                assert(((jc + 1) + csi - 1) / csi == j0 + 1) by {
                    assert(jc + csi == csi * (j0 + 1)) by {
                        vstd::arithmetic::mul::lemma_mul_is_distributive_add(csi, j0, 1);
                    }
                    assert(csi * (j0 + 1) == (j0 + 1) * csi) by {
                        vstd::arithmetic::mul::lemma_mul_is_commutative(csi, j0 + 1);
                    }
                    vstd::arithmetic::div_mod::lemma_fundamental_div_mod_converse(
                        jc + csi,
                        csi,
                        j0 + 1,
                        0,
                    );
                }
            }
            rows.push(row);
        } else {
            proof {
                let q = jc as int / csi;
                let rm = jc as int % csi;
                vstd::arithmetic::div_mod::lemma_fundamental_div_mod(jc as int, csi);
                assert(1 <= rm < csi);
                assert(jc + csi - 1 == (q + 1) * csi + (rm - 1)) by {
                    vstd::arithmetic::mul::lemma_mul_is_distributive_add_other_way(csi, q, 1);
                    vstd::arithmetic::mul::lemma_mul_is_commutative(q, csi);
                }
                vstd::arithmetic::div_mod::lemma_fundamental_div_mod_converse(
                    jc + csi - 1,
                    csi,
                    q + 1,
                    rm - 1,
                );
                vstd::arithmetic::div_mod::lemma_fundamental_div_mod_converse(
                    jc + csi,
                    csi,
                    q + 1,
                    rm,
                );
                assert(((jc + 1) + csi - 1) / csi == (jc + csi - 1) / csi);
            }
        }
        proof {
            assert((jc + 1) * rli == pos + rli) by {
                vstd::arithmetic::mul::lemma_mul_is_distributive_add_other_way(
                    rli,
                    jc as int,
                    1,
                );
            }
            assert(jc as int <= pos as int) by {
                vstd::arithmetic::mul::lemma_mul_inequality(1, rli, jc as int);
                vstd::arithmetic::mul::lemma_mul_is_commutative(rli, jc as int);
            }
        }
        pos = pos + rowlen;
        jc = jc + 1;
    }
    proof {
        let nc = codels@.len() as int;
        let nchunks = nc / rli;
        assert(jc as int == nchunks) by {
            assert(nc - pos < rli);
            vstd::arithmetic::div_mod::lemma_fundamental_div_mod_converse(
                nc,
                rli,
                jc as int,
                nc - (jc as int) * rli,
            );
        }
        assert(rows@.map_values(|row: Vec<(u8, u8, u8)>| row@) =~= sampled_rows(
            codels@,
            rli,
            csi,
        ));
    }
    rows
}

} // verus!
