//! Image decoding: splitting a digit string into layers, counting digits
//! per layer, picking the layer with the fewest zeros, and flattening the
//! layers into the final image.

use vstd::prelude::*;
use vstd::arithmetic::div_mod::lemma_fundamental_div_mod;
use vstd::arithmetic::mul::lemma_mul_inequality;
use vstd::string::StrSliceExecFns;

verus! {

/// How many times `c` occurs in `s`.
pub open spec fn spec_count(s: Seq<char>, c: char) -> int
    decreases s.len(),
{
    if s.len() == 0 {
        0
    } else {
        spec_count(s.drop_last(), c) + if s.last() == c {
            1int
        } else {
            0int
        }
    }
}

pub proof fn lemma_count_bounds(s: Seq<char>, c: char)
    ensures
        0 <= spec_count(s, c) <= s.len(),
    decreases s.len(),
{
    if s.len() > 0 {
        lemma_count_bounds(s.drop_last(), c);
    }
}

/// The characters of layer `l`, each layer being `size` characters of the
/// input in order.
pub open spec fn spec_layer(s: Seq<char>, l: int, size: int) -> Seq<char> {
    s.subrange(l * size, (l + 1) * size)
}

/// Splits the input into consecutive layers of `image_size` characters
/// each; a trailing incomplete layer is dropped.
pub fn get_layers_from_string(input: String, image_size: u32) -> (r: Vec<Vec<char>>)
    requires
        image_size > 0,
    ensures
        r@.len() == input@.len() as int / image_size as int,
        forall|l: int|
            0 <= l < r@.len() ==> #[trigger] r@[l]@ == spec_layer(
                input@,
                l,
                image_size as int,
            ),
{
    let st = input.as_str();
    let len = st.unicode_len();
    let size = image_size as usize;
    let mut r: Vec<Vec<char>> = Vec::new();
    let mut pos: usize = 0;
    proof {
        assert(r@.len() * size as int == 0) by (nonlinear_arith)
            requires
                r@.len() == 0,
        ;
        assert(0int / size as int == 0) by (nonlinear_arith)
            requires
                size > 0,
        ;
    }
    while pos <= len && len - pos >= size
        invariant
            size == image_size,
            size > 0,
            len == input@.len(),
            st@ == input@,
            pos == r@.len() * size,
            pos <= len,
            r@.len() == pos as int / size as int,
            forall|l: int|
                0 <= l < r@.len() ==> #[trigger] r@[l]@ == spec_layer(input@, l, size as int),
        decreases len - pos,
    {
        let mut layer: Vec<char> = Vec::new();
        let mut k: usize = 0;
        while k < size
            invariant
                k <= size,
                pos + size <= len,
                len == input@.len(),
                st@ == input@,
                layer@ == input@.subrange(pos as int, pos + k),
            decreases size - k,
        {
            layer.push(st.get_char(pos + k));
            proof {
                assert(input@.subrange(pos as int, pos + k + 1) == input@.subrange(
                    pos as int,
                    pos + k,
                ).push(input@[pos + k]));
            }
            k = k + 1;
        }
        let ghost oldlen = r@.len();
        r.push(layer);
        pos = pos + size;
        proof {
            assert(oldlen * size + size == (oldlen + 1) * size) by (nonlinear_arith);
            assert(pos == r@.len() * size);
            assert(pos as int / size as int == r@.len()) by (nonlinear_arith)
                requires
                    pos == r@.len() * size,
                    size > 0,
            ;
            assert(r@[oldlen as int]@ == input@.subrange(oldlen * size, oldlen * size + size));
            assert(r@[oldlen as int]@ == spec_layer(input@, oldlen as int, size as int));
            assert(forall|l: int|
                0 <= l < r@.len() ==> #[trigger] r@[l]@ == spec_layer(input@, l, size as int));
        }
    }
    proof {
        assert(r@.len() == input@.len() as int / size as int) by (nonlinear_arith)
            requires
                pos == r@.len() * size,
                size > 0,
                pos <= input@.len(),
                input@.len() < pos + size,
        ;
    }
    r
}

/// Counts the occurrences of each character, keyed by the character, with
/// one entry per distinct character of the input.
pub fn get_count_by_elements(vec: Vec<char>) -> (r: Vec<(char, u32)>)
    requires
        vec@.len() <= u32::MAX,
    ensures
        forall|k: int| 0 <= k < r@.len() ==> #[trigger] r@[k].1 == spec_count(vec@, r@[k].0),
        forall|k1: int, k2: int|
            0 <= k1 < k2 < r@.len() ==> #[trigger] r@[k1].0 != #[trigger] r@[k2].0,
        forall|c: char|
            spec_count(vec@, c) > 0 <==> exists|k: int| 0 <= k < r@.len() && #[trigger] r@[k].0
                == c,
{
    let mut r: Vec<(char, u32)> = Vec::new();
    let mut i: usize = 0;
    while i < vec.len()
        invariant
            i <= vec@.len(),
            vec@.len() <= u32::MAX,
            forall|k: int|
                0 <= k < r@.len() ==> #[trigger] r@[k].1 == spec_count(vec@.take(i as int), r@[k].0),
            forall|k1: int, k2: int|
                0 <= k1 < k2 < r@.len() ==> #[trigger] r@[k1].0 != #[trigger] r@[k2].0,
            forall|c: char|
                spec_count(vec@.take(i as int), c) > 0 <==> exists|k: int|
                    0 <= k < r@.len() && #[trigger] r@[k].0 == c,
        decreases vec@.len() - i,
    {
        let c = vec[i];
        proof {
            assert(vec@.take(i + 1).drop_last() == vec@.take(i as int));
            assert(vec@.take(i + 1).last() == vec@[i as int]);
            assert forall|d: char| #[trigger]
                spec_count(vec@.take(i + 1), d) == spec_count(vec@.take(i as int), d) + (if d
                    == vec@[i as int] {
                    1int
                } else {
                    0int
                }) by {}
            lemma_count_bounds(vec@.take(i as int), c);
        }
        let mut found: Option<usize> = None;
        let mut k: usize = 0;
        while k < r.len() && found.is_none()
            invariant
                k <= r@.len(),
                found matches Some(f) ==> f < r@.len() && r@[f as int].0 == c,
                found is None ==> forall|k2: int| 0 <= k2 < k ==> #[trigger] r@[k2].0 != c,
            decreases r@.len() - k + (if found is None {
                1int
            } else {
                0int
            }),
        {
            if r[k].0 == c {
                found = Some(k);
            } else {
                k = k + 1;
            }
        }
        let ghost old_r = r@;
        match found {
            Some(f) => {
                let old_count = r[f].1;
                let new_count = match old_count.checked_add(1) {
                    Some(x) => x,
                    None => unreached(),
                };
                r.set(f, (c, new_count));
                proof {
                    assert forall|k: int| 0 <= k < r@.len() implies #[trigger] r@[k].1
                        == spec_count(vec@.take(i + 1), r@[k].0) by {
                        if k != f {
                            assert(r@[k] == old_r[k]);
                            assert(r@[k].0 != c);
                        }
                    }
                    assert forall|d: char| #[trigger] spec_count(vec@.take(i + 1), d) > 0 implies exists|k: int|
                        0 <= k < r@.len() && #[trigger] r@[k].0 == d by {
                        if d == c {
                            assert(r@[f as int].0 == d);
                        } else {
                            assert(spec_count(vec@.take(i as int), d) > 0);
                            let k = choose|k: int| 0 <= k < old_r.len() && #[trigger] old_r[k].0 == d;
                            assert(r@[k].0 == d);
                        }
                    }
                }
            },
            None => {
                proof {
                    assert(forall|k2: int| 0 <= k2 < r@.len() ==> #[trigger] r@[k2].0 != c);
                    if spec_count(vec@.take(i as int), c) > 0 {
                        let kk = choose|kk: int|
                            0 <= kk < r@.len() && #[trigger] r@[kk].0 == c;
                        assert(false);
                    }
                    assert(spec_count(vec@.take(i as int), c) == 0);
                }
                r.push((c, 1));
                proof {
                    let f = r@.len() - 1;
                    assert forall|k: int| 0 <= k < r@.len() implies #[trigger] r@[k].1
                        == spec_count(vec@.take(i + 1), r@[k].0) by {
                        if k != f {
                            assert(r@[k] == old_r[k]);
                            assert(r@[k].0 != c);
                        }
                    }
                    assert forall|d: char| #[trigger] spec_count(vec@.take(i + 1), d) > 0 implies exists|k: int|
                        0 <= k < r@.len() && #[trigger] r@[k].0 == d by {
                        if d == c {
                            assert(r@[f].0 == d);
                        } else {
                            assert(spec_count(vec@.take(i as int), d) > 0);
                            let k = choose|k: int| 0 <= k < old_r.len() && #[trigger] old_r[k].0 == d;
                            assert(r@[k].0 == d);
                        }
                    }
                }
            },
        }
        i = i + 1;
    }
    proof {
        assert(vec@.take(vec@.len() as int) == vec@);
    }
    r
}

/// The zero count of layer `l`.
pub open spec fn spec_layer_zeros(s: Seq<char>, l: int) -> int {
    spec_count(spec_layer(s, l, 150), '0')
}

/// The first layer among `[0, upto)` with the fewest zeros: an earlier
/// layer wins ties.
pub open spec fn spec_best_layer(s: Seq<char>, upto: int) -> int
    decreases upto,
{
    if upto <= 1 {
        0
    } else {
        let b = spec_best_layer(s, upto - 1);
        if spec_layer_zeros(s, upto - 1) < spec_layer_zeros(s, b) {
            upto - 1
        } else {
            b
        }
    }
}

/// A layer index below the layer count addresses a whole 150-character
/// slice of the input.
proof fn lemma_layer_len(s: Seq<char>, l: int)
    requires
        0 <= l < (s.len() as int) / 150,
    ensures
        (l + 1) * 150 <= s.len(),
        spec_layer(s, l, 150).len() == 150,
        l * 150 >= 0,
{
    lemma_fundamental_div_mod(s.len() as int, 150);
    lemma_mul_inequality(l + 1, (s.len() as int) / 150, 150);
    assert((l + 1) * 150 <= ((s.len() as int) / 150) * 150);
    assert(l * 150 >= 0) by (nonlinear_arith)
        requires
            l >= 0,
    ;
}

/// Counts the occurrences of `c` in `v`.
fn count_char(v: &Vec<char>, c: char) -> (r: u32)
    requires
        v@.len() <= u32::MAX,
    ensures
        r == spec_count(v@, c),
{
    let mut r: u32 = 0;
    let mut i: usize = 0;
    while i < v.len()
        invariant
            i <= v@.len(),
            v@.len() <= u32::MAX,
            r == spec_count(v@.take(i as int), c),
            r <= i,
        decreases v@.len() - i,
    {
        proof {
            assert(v@.take(i + 1).drop_last() == v@.take(i as int));
            assert(v@.take(i + 1).last() == v@[i as int]);
        }
        if v[i] == c {
            r = r + 1;
        }
        i = i + 1;
    }
    proof {
        assert(v@.take(v@.len() as int) == v@);
    }
    r
}

/// Finds the layer of the 25-by-6 image with the fewest zeros (the first
/// such layer) and returns its count of twos times its count of ones.
/// The caller owes an input of at least one whole layer in which every
/// layer contains a zero and the chosen layer contains a one and a two.
pub fn part_1(input: String) -> (r: u32)
    requires
        (input@.len() as int) / 150 >= 1,
        forall|l: int| 0 <= l < (input@.len() as int) / 150 ==> #[trigger] spec_layer_zeros(input@, l) > 0,
        spec_count(spec_layer(input@, spec_best_layer(input@, (input@.len() as int) / 150), 150), '1') > 0,
        spec_count(spec_layer(input@, spec_best_layer(input@, (input@.len() as int) / 150), 150), '2') > 0,
    ensures
        ({
            let best = spec_best_layer(input@, (input@.len() as int) / 150);
            r == spec_count(spec_layer(input@, best, 150), '2') * spec_count(
                spec_layer(input@, best, 150),
                '1',
            )
        }),
{
    let layers = get_layers_from_string(input, 150);
    let mut best: usize = 0;
    let mut lowest: u32 = count_char(&layers[0], '0');
    let mut l: usize = 1;
    while l < layers.len()
        invariant
            1 <= l <= layers@.len(),
            layers@.len() >= 1,
            layers@.len() == (input@.len() as int) / 150,
            forall|l2: int|
                0 <= l2 < layers@.len() ==> #[trigger] layers@[l2]@ == spec_layer(input@, l2, 150),
            best < l,
            best == spec_best_layer(input@, l as int),
            lowest == spec_layer_zeros(input@, best as int),
        decreases layers@.len() - l,
    {
        proof {
            lemma_layer_len(input@, l as int);
            assert(layers@[l as int]@.len() == 150);
        }
        let zeros = count_char(&layers[l], '0');
        if zeros < lowest {
            best = l;
            lowest = zeros;
        }
        l = l + 1;
    }
    proof {
        lemma_layer_len(input@, best as int);
        assert(layers@[best as int]@.len() == 150);
        lemma_count_bounds(layers@[best as int]@, '1');
        lemma_count_bounds(layers@[best as int]@, '2');
    }
    let ones = count_char(&layers[best], '1');
    let twos = count_char(&layers[best], '2');
    proof {
        assert(twos * ones <= 22500) by (nonlinear_arith)
            requires
                twos <= 150,
                ones <= 150,
                twos >= 0,
                ones >= 0,
        ;
    }
    twos * ones
}

/// Some layer shows pixel `i` (its value there is not the transparent
/// `'2'`).
pub open spec fn spec_pixel_visible(ls: Seq<Vec<char>>, i: int) -> bool {
    exists|l: int| 0 <= l < ls.len() && #[trigger] ls[l]@[i] != '2'
}

/// The colour of pixel `i` seen from layer `l` downward: the first layer
/// whose pixel is not the transparent `'2'`.
pub open spec fn spec_first_visible(ls: Seq<Vec<char>>, i: int, l: int) -> char
    decreases ls.len() - l,
{
    if l < 0 || l >= ls.len() {
        '2'
    } else if ls[l]@[i] != '2' {
        ls[l]@[i]
    } else {
        spec_first_visible(ls, i, l + 1)
    }
}

proof fn lemma_first_visible(ls: Seq<Vec<char>>, i: int, j: int, l: int)
    requires
        0 <= j <= l < ls.len(),
        forall|k: int| j <= k < l ==> #[trigger] ls[k]@[i] == '2',
        ls[l]@[i] != '2',
    ensures
        spec_first_visible(ls, i, j) == ls[l]@[i],
    decreases l - j,
{
    if j < l {
        lemma_first_visible(ls, i, j + 1, l);
    }
}

/// Flattens the layers into the final image: each pixel takes the value of
/// the first layer where it is not transparent.  The caller owes layers
/// that cover the image size, a visible value somewhere under every pixel,
/// and a top layer of plain pixel digits.
pub fn get_final_image(layers: Vec<Vec<char>>, image_size: u32) -> (r: Vec<char>)
    requires
        layers@.len() >= 1,
        forall|l: int| 0 <= l < layers@.len() ==> #[trigger] layers@[l]@.len() >= image_size,
        forall|i: int| 0 <= i < image_size ==> #[trigger] spec_pixel_visible(layers@, i),
        forall|i: int|
            0 <= i < image_size ==> layers@[0]@[i] == '0' || layers@[0]@[i] == '1'
                || #[trigger] layers@[0]@[i] == '2',
    ensures
        r@.len() == image_size,
        forall|i: int| 0 <= i < image_size ==> #[trigger] r@[i] == spec_first_visible(layers@, i, 0),
{
    let size = image_size as usize;
    let mut r: Vec<char> = Vec::new();
    let mut i: usize = 0;
    while i < size
        invariant
            i <= size,
            size == image_size,
            layers@.len() >= 1,
            forall|l: int| 0 <= l < layers@.len() ==> #[trigger] layers@[l]@.len() >= image_size,
            forall|i2: int| 0 <= i2 < image_size ==> #[trigger] spec_pixel_visible(layers@, i2),
            r@.len() == i,
            forall|i2: int|
                0 <= i2 < i ==> #[trigger] r@[i2] == spec_first_visible(layers@, i2, 0),
        decreases size - i,
    {
        proof {
            assert(spec_pixel_visible(layers@, i as int));
        }
        let ghost lv = choose|l: int| 0 <= l < layers@.len() && #[trigger] layers@[l]@[i as int]
            != '2';
        let n_layers = layers.len();
        let mut l: usize = 0;
        let mut pixel: char = layers[0][i];
        while pixel == '2'
            invariant
                n_layers == layers@.len(),
                0 <= l < layers@.len(),
                i < size,
                size == image_size,
                forall|l2: int| 0 <= l2 < layers@.len() ==> #[trigger] layers@[l2]@.len()
                    >= image_size,
                0 <= lv < layers@.len() && layers@[lv]@[i as int] != '2',
                pixel == layers@[l as int]@[i as int],
                forall|k: int| 0 <= k < l ==> #[trigger] layers@[k]@[i as int] == '2',
            decreases lv - l,
        {
            proof {
                if l >= lv {
                    assert(layers@[lv]@[i as int] == '2');
                    assert(false);
                }
                assert(l < lv);
            }
            l = l + 1;
            pixel = layers[l][i];
        }
        proof {
            lemma_first_visible(layers@, i as int, 0, l as int);
        }
        r.push(pixel);
        i = i + 1;
    }
    r
}

} // verus!
