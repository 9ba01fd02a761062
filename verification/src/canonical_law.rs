//! Keeping only the canonical roots loses no energy: every prefix has a
//! symmetric image that is canonical, and the completions of that image reach
//! every energy that the completions of the prefix reach.

use vstd::prelude::*;
use crate::model::{energy, completion};
use crate::roots::{lex_le, symmetric_variants, is_canonical, prefix_bits, canonical_prefixes};
use crate::symmetry::{
    reversed, complemented, alternated, even_flipped, lemma_energy_reversed,
    lemma_energy_complemented, lemma_energy_even_flipped,
};

verus! {

/// Equal prefixes of length `k` extend to equal prefixes while the signs agree.
proof fn lemma_take_extend(a: Seq<bool>, b: Seq<bool>, k: int)
    requires
        0 <= k < a.len(),
        k < b.len(),
        a.take(k) == b.take(k),
        a[k] == b[k],
    ensures
        a.take(k + 1) == b.take(k + 1),
{
    assert(a.take(k + 1) =~= b.take(k + 1)) by {
        assert forall|j: int| 0 <= j < k implies #[trigger] a.take(k + 1)[j] == b.take(k + 1)[j] by {
            assert(a.take(k)[j] == b.take(k)[j]);
        }
    }
}

/// Of two sequences of one length, one comes first.
pub proof fn lemma_lex_total(a: Seq<bool>, b: Seq<bool>)
    requires
        a.len() == b.len(),
    ensures
        lex_le(a, b) || lex_le(b, a),
{
    assert(a.take(0) =~= b.take(0));
    lemma_lex_total_from(a, b, 0);
}

/// Totality, from a common prefix of length `k` on.
proof fn lemma_lex_total_from(a: Seq<bool>, b: Seq<bool>, k: int)
    requires
        a.len() == b.len(),
        0 <= k <= a.len(),
        a.take(k) == b.take(k),
    ensures
        lex_le(a, b) || lex_le(b, a),
    decreases a.len() - k,
{
    if k == a.len() {
        assert(a.take(k) == b.take(k));
    } else if a[k] == b[k] {
        lemma_take_extend(a, b, k);
        lemma_lex_total_from(a, b, k + 1);
    } else {
        assert(b.take(k) == a.take(k));
    }
}

/// Two equal prefixes agree at every position before their length.
proof fn lemma_take_agree(a: Seq<bool>, b: Seq<bool>, k: int, j: int)
    requires
        0 <= j < k <= a.len(),
        k <= b.len(),
        a.take(k) == b.take(k),
    ensures
        a[j] == b[j],
{
    assert(a.take(k)[j] == a[j]);
    assert(b.take(k)[j] == b[j]);
}

/// Lexicographic order is transitive on sequences of one length.
pub proof fn lemma_lex_transitive(a: Seq<bool>, b: Seq<bool>, c: Seq<bool>)
    requires
        a.len() == b.len(),
        b.len() == c.len(),
        lex_le(a, b),
        lex_le(b, c),
    ensures
        lex_le(a, c),
{
    let i = choose|i: int|
        0 <= i <= a.len() && i <= b.len() && #[trigger] a.take(i) == b.take(i) && ((i < a.len()
            && i < b.len() && !a[i] && b[i]) || i == a.len());
    let k = choose|k: int|
        0 <= k <= b.len() && k <= c.len() && #[trigger] b.take(k) == c.take(k) && ((k < b.len()
            && k < c.len() && !b[k] && c[k]) || k == b.len());
    if i == a.len() {
        assert(a == a.take(i));
        assert(b == b.take(i));
        assert(a == b);
    } else if k == b.len() {
        assert(b == b.take(k));
        assert(c == c.take(k));
        assert(b == c);
    } else if i < k {
        assert(a.take(i) =~= c.take(i)) by {
            assert forall|j: int| 0 <= j < i implies a.take(i)[j] == c.take(i)[j] by {
                lemma_take_agree(a, b, i, j);
                lemma_take_agree(b, c, k, j);
            }
        }
        lemma_take_agree(b, c, k, i);
    } else {
        assert(a.take(k) =~= c.take(k)) by {
            assert forall|j: int| 0 <= j < k implies a.take(k)[j] == c.take(k)[j] by {
                lemma_take_agree(a, b, i, j);
                lemma_take_agree(b, c, k, j);
            }
        }
        lemma_take_agree(a, b, i, k);
    }
}

/// Every sequence comes first against itself.
pub proof fn lemma_lex_reflexive(a: Seq<bool>)
    ensures
        lex_le(a, a),
{
    assert(a.take(a.len() as int) == a.take(a.len() as int));
}

/// Position in the complete sequence of stored position `j`, when `m` signs
/// are stored at each end of a sequence of length `n`.
pub open spec fn full_pos(n: int, m: int, j: int) -> int {
    if j < m {
        j
    } else {
        j + n - 2 * m
    }
}

/// The flip applied at position `p` of the complete sequence: `e` at even
/// positions, `o` at odd ones.
pub open spec fn flip_at(p: int, e: bool, o: bool) -> bool {
    if p % 2 == 0 {
        e
    } else {
        o
    }
}

/// The stored signs after reading the sequence backwards when `rv`, then
/// flipping its even positions when `e` and its odd positions when `o`.
pub open spec fn image(s: Seq<bool>, n: int, rv: bool, e: bool, o: bool) -> Seq<bool> {
    let m = s.len() as int / 2;
    let b = if rv {
        reversed(s)
    } else {
        s
    };
    Seq::new(s.len(), |j: int| b[j] != flip_at(full_pos(n, m, j), e, o))
}

/// Applying one image after another gives an image.
proof fn lemma_image_compose(
    s: Seq<bool>,
    n: int,
    r1: bool,
    e1: bool,
    o1: bool,
    r2: bool,
    e2: bool,
    o2: bool,
)
    requires
        s.len() % 2 == 0,
        s.len() <= n,
    ensures
        image(image(s, n, r1, e1, o1), n, r2, e2, o2) == if r2 {
            if n % 2 == 1 {
                image(s, n, r1 != r2, e1 != e2, o1 != o2)
            } else {
                image(s, n, r1 != r2, o1 != e2, e1 != o2)
            }
        } else {
            image(s, n, r1, e1 != e2, o1 != o2)
        },
{
    let m = s.len() as int / 2;
    let t = image(s, n, r1, e1, o1);
    let lhs = image(t, n, r2, e2, o2);
    let rhs = if r2 {
        if n % 2 == 1 {
            image(s, n, r1 != r2, e1 != e2, o1 != o2)
        } else {
            image(s, n, r1 != r2, o1 != e2, e1 != o2)
        }
    } else {
        image(s, n, r1, e1 != e2, o1 != o2)
    };
    assert forall|j: int| 0 <= j < s.len() implies #[trigger] lhs[j] == rhs[j] by {
        if r2 {
            let k = 2 * m - 1 - j;
            assert(full_pos(n, m, k) == n - 1 - full_pos(n, m, j));
            assert(reversed(t)[j] == t[k]);
            if r1 {
                assert(reversed(s)[k] == s[j]);
            }
        }
    }
    assert(lhs =~= rhs);
}

/// Law: the identity, reading backwards, complementing and flipping the even
/// positions of the sequence are the images with numbers 0, 4, 3 and 2.
pub proof fn lemma_symmetries_are_images(t: Seq<bool>, n: int)
    requires
        t.len() % 2 == 0,
        t.len() <= n,
    ensures
        t == image(t, n, false, false, false),
        reversed(t) == image(t, n, true, false, false),
        complemented(t) == image(t, n, false, true, true),
        alternated(t, n) == image(t, n, false, true, false),
{
    let m = t.len() as int / 2;
    assert(t =~= image(t, n, false, false, false));
    assert(reversed(t) =~= image(t, n, true, false, false));
    assert(complemented(t) =~= image(t, n, false, true, true));
    assert forall|j: int| 0 <= j < t.len() implies #[trigger] alternated(t, n)[j] == image(
        t,
        n,
        false,
        true,
        false,
    )[j] by {
        if j >= m {
            let k = 2 * m - 1 - j;
            assert(full_pos(n, m, j) == n - 1 - k);
        }
    }
    assert(alternated(t, n) =~= image(t, n, false, true, false));
}

/// The image numbered `k`: bit 2 reads backwards, bit 1 flips the even
/// positions, bit 0 flips the odd ones.
pub open spec fn code_image(s: Seq<bool>, n: int, k: int) -> Seq<bool> {
    image(s, n, k >= 4, k % 4 >= 2, k % 2 == 1)
}

/// The number of an image.
pub open spec fn code_of(rv: bool, e: bool, o: bool) -> int {
    (if rv {
        4int
    } else {
        0int
    }) + (if e {
        2int
    } else {
        0int
    }) + (if o {
        1int
    } else {
        0int
    })
}

/// The number of an image names that image.
proof fn lemma_code_of(s: Seq<bool>, n: int, rv: bool, e: bool, o: bool)
    ensures
        0 <= code_of(rv, e, o) < 8,
        code_image(s, n, code_of(rv, e, o)) == image(s, n, rv, e, o),
{
}

/// The number of the image at index `i` of the symmetric variants.
pub open spec fn variant_code(n: int, i: int) -> int {
    if i == 0 {
        0
    } else if i == 1 {
        4
    } else if i == 2 {
        3
    } else if i == 3 {
        2
    } else if i == 4 {
        7
    } else if i == 5 {
        6
    } else if i == 6 {
        if n % 2 == 1 {
            1
        } else {
            5
        }
    } else if n % 2 == 1 {
        5
    } else {
        1
    }
}

/// Law: each of the eight symmetric variants that the roots are checked
/// against is the image whose number `variant_code` gives.
pub proof fn lemma_variants_are_images(s: Seq<bool>, n: int)
    requires
        s.len() % 2 == 0,
        s.len() <= n,
    ensures
        forall|i: int|
            0 <= i < 8 ==> #[trigger] symmetric_variants(s, n)[i] == code_image(
                s,
                n,
                variant_code(n, i),
            ),
{
    let r = reversed(s);
    let c = complemented(s);
    let a = alternated(s, n);
    let rc = complemented(r);
    lemma_symmetries_are_images(s, n);
    assert(r.len() == s.len() && c.len() == s.len() && a.len() == s.len());
    lemma_symmetries_are_images(r, n);
    lemma_symmetries_are_images(c, n);
    lemma_symmetries_are_images(a, n);
    lemma_symmetries_are_images(rc, n);
    lemma_image_compose(s, n, true, false, false, false, true, true);
    lemma_image_compose(s, n, true, false, false, false, true, false);
    lemma_image_compose(s, n, false, true, true, false, true, false);
    lemma_image_compose(s, n, true, true, true, false, true, false);
    lemma_image_compose(s, n, false, true, false, true, false, false);
    lemma_image_compose(s, n, false, true, false, false, true, true);
    let v = symmetric_variants(s, n);
    assert(v[0] == code_image(s, n, 0));
    assert(v[1] == code_image(s, n, 4));
    assert(v[2] == code_image(s, n, 3));
    assert(v[3] == code_image(s, n, 2));
    assert(v[4] == code_image(s, n, 7));
    assert(v[5] == code_image(s, n, 6));
    if n % 2 == 1 {
        assert(v[6] == code_image(s, n, 1));
        assert(v[7] == code_image(s, n, 5));
    } else {
        assert(v[6] == code_image(s, n, 5));
        assert(v[7] == code_image(s, n, 1));
    }
}

/// An image of an image is an image.
proof fn lemma_code_compose(s: Seq<bool>, n: int, k1: int, k2: int) -> (k: int)
    requires
        s.len() % 2 == 0,
        s.len() <= n,
    ensures
        0 <= k < 8,
        code_image(code_image(s, n, k1), n, k2) == code_image(s, n, k),
{
    let (r1, e1, o1) = (k1 >= 4, k1 % 4 >= 2, k1 % 2 == 1);
    let (r2, e2, o2) = (k2 >= 4, k2 % 4 >= 2, k2 % 2 == 1);
    lemma_image_compose(s, n, r1, e1, o1, r2, e2, o2);
    if r2 {
        if n % 2 == 1 {
            lemma_code_of(s, n, r1 != r2, e1 != e2, o1 != o2);
            code_of(r1 != r2, e1 != e2, o1 != o2)
        } else {
            lemma_code_of(s, n, r1 != r2, o1 != e2, e1 != o2);
            code_of(r1 != r2, o1 != e2, e1 != o2)
        }
    } else {
        lemma_code_of(s, n, r1, e1 != e2, o1 != o2);
        code_of(r1, e1 != e2, o1 != o2)
    }
}

/// The number of the image that comes first among the images `0 ..= k`.
pub open spec fn first_code(s: Seq<bool>, n: int, k: int) -> int
    decreases k,
{
    if k <= 0 {
        0
    } else {
        let c = first_code(s, n, k - 1);
        if lex_le(code_image(s, n, c), code_image(s, n, k)) {
            c
        } else {
            k
        }
    }
}

/// The image numbered `first_code(s, n, k)` comes first among the images `0 ..= k`.
proof fn lemma_first_code(s: Seq<bool>, n: int, k: int)
    requires
        0 <= k,
    ensures
        0 <= first_code(s, n, k) <= k,
        forall|j: int|
            0 <= j <= k ==> lex_le(
                code_image(s, n, first_code(s, n, k)),
                #[trigger] code_image(s, n, j),
            ),
    decreases k,
{
    if k == 0 {
        lemma_lex_reflexive(code_image(s, n, 0));
    } else {
        lemma_first_code(s, n, k - 1);
        let c = first_code(s, n, k - 1);
        let vc = code_image(s, n, c);
        let vk = code_image(s, n, k);
        if lex_le(vc, vk) {
        } else {
            lemma_lex_total(vc, vk);
            lemma_lex_reflexive(vk);
            assert forall|j: int| 0 <= j <= k implies lex_le(vk, #[trigger] code_image(s, n, j)) by {
                if j < k {
                    lemma_lex_transitive(vk, vc, code_image(s, n, j));
                }
            }
        }
    }
}

/// The image of `s` that comes first among all images of `s` is canonical.
proof fn lemma_first_image_canonical(s: Seq<bool>, n: int)
    requires
        s.len() % 2 == 0,
        s.len() <= n,
    ensures
        is_canonical(code_image(s, n, first_code(s, n, 7)), n),
{
    let c = first_code(s, n, 7);
    let v = code_image(s, n, c);
    lemma_first_code(s, n, 7);
    lemma_variants_are_images(v, n);
    assert forall|i: int| 0 <= i < 8 implies lex_le(v, #[trigger] symmetric_variants(v, n)[i]) by {
        let k = lemma_code_compose(s, n, c, variant_code(n, i));
        assert(lex_le(v, code_image(s, n, k)));
    }
}

/// The free middle signs that go with an image: read backwards when `rv`,
/// flipped at the even and odd positions of the complete sequence as `e`
/// and `o` say.
pub open spec fn image_free(free: Seq<bool>, m: int, rv: bool, e: bool, o: bool) -> Seq<bool> {
    let f = free.len() as int;
    Seq::new(
        free.len(),
        |i: int|
            (if rv {
                free[f - 1 - i]
            } else {
                free[i]
            }) != flip_at(m + i, e, o),
    )
}

/// A complete sequence read backwards when `rv`, then flipped at its even
/// positions when `e` and at its odd positions when `o`.
pub open spec fn full_image(x: Seq<bool>, rv: bool, e: bool, o: bool) -> Seq<bool> {
    let b = if rv {
        reversed(x)
    } else {
        x
    };
    Seq::new(x.len(), |p: int| b[p] != flip_at(p, e, o))
}

/// The completions of an image are the images of the completions.
proof fn lemma_completion_image(
    s: Seq<bool>,
    n: int,
    m: int,
    rv: bool,
    e: bool,
    o: bool,
    free: Seq<bool>,
)
    requires
        0 <= m,
        s.len() == 2 * m,
        free.len() == n - 2 * m,
    ensures
        completion(image(s, n, rv, e, o), m, image_free(free, m, rv, e, o)) == full_image(
            completion(s, m, free),
            rv,
            e,
            o,
        ),
{
    let x = completion(s, m, free);
    let v = image(s, n, rv, e, o);
    let ff = image_free(free, m, rv, e, o);
    let a = completion(v, m, ff);
    let b = full_image(x, rv, e, o);
    let f = free.len() as int;
    assert forall|p: int| 0 <= p < n implies #[trigger] a[p] == b[p] by {
        if p < m {
            assert(a[p] == v[p]);
            if rv {
                assert(x[n - 1 - p] == s.skip(m)[n - 1 - p - m - f]);
            }
        } else if p < m + f {
            assert(a[p] == ff[p - m]);
            if rv {
                assert(x[n - 1 - p] == free[f - 1 - (p - m)]);
            }
        } else {
            let j = p - f;
            assert(a[p] == v.skip(m)[p - m - f]);
            assert(full_pos(n, m, j) == p);
            if rv {
                assert(x[n - 1 - p] == s[n - 1 - p]);
            } else {
                assert(x[p] == s.skip(m)[p - m - f]);
            }
        }
    }
    assert(a =~= b);
}

/// Reading backwards and flipping positions by parity keep the energy.
proof fn lemma_full_image_energy(x: Seq<bool>, rv: bool, e: bool, o: bool)
    ensures
        energy(full_image(x, rv, e, o)) == energy(x),
{
    let y = if rv {
        reversed(x)
    } else {
        x
    };
    lemma_energy_reversed(x);
    assert(energy(y) == energy(x));
    let z = full_image(x, rv, e, o);
    if !e && !o {
        assert(z =~= y);
    } else if e && o {
        assert(z =~= complemented(y));
        lemma_energy_complemented(y);
    } else if e {
        assert(z =~= even_flipped(y));
        lemma_energy_even_flipped(y);
    } else {
        let w = even_flipped(y);
        assert(z =~= complemented(w));
        lemma_energy_even_flipped(y);
        lemma_energy_complemented(w);
    }
}

/// The image of `s` that comes first among its images: canonical, and its
/// completions reach every energy that those of `s` reach.
proof fn lemma_first_image(s: Seq<bool>, n: int, m: int) -> (v: Seq<bool>)
    requires
        0 <= m,
        2 * m <= n,
        s.len() == 2 * m,
    ensures
        is_canonical(v, n),
        v.len() == 2 * m,
        forall|free: Seq<bool>|
            free.len() == n - 2 * m ==> exists|free2: Seq<bool>|
                free2.len() == n - 2 * m && #[trigger] energy(completion(v, m, free2)) == energy(
                    completion(s, m, free),
                ),
{
    let c = first_code(s, n, 7);
    lemma_first_code(s, n, 7);
    lemma_first_image_canonical(s, n);
    let (rv, e, o) = (c >= 4, c % 4 >= 2, c % 2 == 1);
    let v = image(s, n, rv, e, o);
    assert forall|free: Seq<bool>| free.len() == n - 2 * m implies exists|free2: Seq<bool>|
        free2.len() == n - 2 * m && #[trigger] energy(completion(v, m, free2)) == energy(
            completion(s, m, free),
        ) by {
        let free2 = image_free(free, m, rv, e, o);
        lemma_completion_image(s, n, m, rv, e, o, free);
        lemma_full_image_energy(completion(s, m, free), rv, e, o);
        assert(energy(completion(v, m, free2)) == energy(completion(s, m, free)));
    }
    v
}

/// Law: keeping only canonical root prefixes loses no energy. For any `2 * m`
/// stored signs of a sequence of length `n` there are stored signs that come
/// first among their symmetric images and whose completions reach every
/// energy that the completions of the given signs reach.
pub proof fn lemma_canonical_representative(s: Seq<bool>, n: int, m: int)
    requires
        0 <= m,
        2 * m <= n,
        s.len() == 2 * m,
    ensures
        exists|v: Seq<bool>|
            #[trigger] is_canonical(v, n) && v.len() == 2 * m && forall|free: Seq<bool>|
                free.len() == n - 2 * m ==> exists|free2: Seq<bool>|
                    free2.len() == n - 2 * m && #[trigger] energy(completion(v, m, free2))
                        == energy(completion(s, m, free)),
{
    let v = lemma_first_image(s, n, m);
    assert(is_canonical(v, n));
}

/// Every ten signs are the bits of a number below 1024.
proof fn lemma_bits_of(v: Seq<bool>) -> (i: usize)
    requires
        v.len() == 10,
    ensures
        i < 1024,
        prefix_bits(i, 10) == v,
{
    let (b0, b1, b2, b3, b4) = (v[0], v[1], v[2], v[3], v[4]);
    let (b5, b6, b7, b8, b9) = (v[5], v[6], v[7], v[8], v[9]);
    let i: usize = (if b0 { 1usize } else { 0usize }) | (if b1 { 2usize } else { 0usize }) | (if b2 {
        4usize
    } else {
        0usize
    }) | (if b3 { 8usize } else { 0usize }) | (if b4 { 16usize } else { 0usize }) | (if b5 {
        32usize
    } else {
        0usize
    }) | (if b6 { 64usize } else { 0usize }) | (if b7 { 128usize } else { 0usize }) | (if b8 {
        256usize
    } else {
        0usize
    }) | (if b9 { 512usize } else { 0usize });
    assert(i < 1024 && (i & (1usize << 0usize) != 0usize) == b0 && (i & (1usize << 1usize) != 0usize)
        == b1 && (i & (1usize << 2usize) != 0usize) == b2 && (i & (1usize << 3usize) != 0usize) == b3
        && (i & (1usize << 4usize) != 0usize) == b4 && (i & (1usize << 5usize) != 0usize) == b5 && (i
        & (1usize << 6usize) != 0usize) == b6 && (i & (1usize << 7usize) != 0usize) == b7 && (i & (
    1usize << 8usize) != 0usize) == b8 && (i & (1usize << 9usize) != 0usize) == b9) by (bit_vector)
        requires
            i == (if b0 { 1usize } else { 0usize }) | (if b1 { 2usize } else { 0usize }) | (if b2 {
                4usize
            } else {
                0usize
            }) | (if b3 { 8usize } else { 0usize }) | (if b4 { 16usize } else { 0usize }) | (if b5 {
                32usize
            } else {
                0usize
            }) | (if b6 { 64usize } else { 0usize }) | (if b7 { 128usize } else { 0usize }) | (if b8 {
                256usize
            } else {
                0usize
            }) | (if b9 { 512usize } else { 0usize }),
    ;
    assert(prefix_bits(i, 10) =~= v);
    i
}

/// A canonical prefix below `count` is listed among the canonical prefixes.
proof fn lemma_canonical_listed(n: int, count: int, i: usize)
    requires
        i < count,
        is_canonical(prefix_bits(i, 10), n),
    ensures
        exists|j: int|
            0 <= j < canonical_prefixes(n, count).len() && #[trigger] canonical_prefixes(n, count)[j]
                == i,
    decreases count,
{
    if i == count - 1 {
        let l = canonical_prefixes(n, count - 1).len() as int;
        assert((count - 1) as usize == i);
        assert(canonical_prefixes(n, count) == canonical_prefixes(n, count - 1).push(i));
        assert(canonical_prefixes(n, count)[l] == i);
    } else {
        lemma_canonical_listed(n, count - 1, i);
        let j = choose|j: int|
            0 <= j < canonical_prefixes(n, count - 1).len() && #[trigger] canonical_prefixes(
                n,
                count - 1,
            )[j] == i;
        if is_canonical(prefix_bits((count - 1) as usize, 10), n) {
            assert(canonical_prefixes(n, count) == canonical_prefixes(n, count - 1).push(
                (count - 1) as usize,
            ));
            assert(canonical_prefixes(n, count)[j] == i);
        } else {
            assert(canonical_prefixes(n, count) == canonical_prefixes(n, count - 1));
        }
    }
}

/// For ten stored signs and a filling of the middle, a canonical prefix and a
/// filling of its middle with the same energy.
pub(crate) proof fn lemma_root_image(s: Seq<bool>, n: int, free: Seq<bool>) -> (r: (int, Seq<bool>))
    requires
        10 <= n,
        s.len() == 10,
        free.len() == n - 10,
    ensures
        0 <= r.0 < canonical_prefixes(n, 1024).len(),
        r.1.len() == n - 10,
        energy(completion(prefix_bits(canonical_prefixes(n, 1024)[r.0], 10), 5, r.1)) == energy(
            completion(s, 5, free),
        ),
{
    let v = lemma_first_image(s, n, 5);
    assert(exists|free2: Seq<bool>|
        free2.len() == n - 10 && #[trigger] energy(completion(v, 5, free2)) == energy(
            completion(s, 5, free),
        ));
    let free2 = choose|free2: Seq<bool>|
        free2.len() == n - 10 && #[trigger] energy(completion(v, 5, free2)) == energy(
            completion(s, 5, free),
        );
    let i = lemma_bits_of(v);
    lemma_canonical_listed(n, 1024, i);
    let j = choose|j: int|
        0 <= j < canonical_prefixes(n, 1024).len() && #[trigger] canonical_prefixes(n, 1024)[j] == i;
    assert(prefix_bits(canonical_prefixes(n, 1024)[j], 10) == v);
    (j, free2)
}

/// Law: the roots of the search lose no energy. For any five first and five
/// last signs of a sequence of length `n`, one of the canonical prefixes that
/// the roots are built from has completions that reach every energy that the
/// completions of the given signs reach.
pub proof fn lemma_roots_lose_nothing(s: Seq<bool>, n: int)
    requires
        10 <= n,
        s.len() == 10,
    ensures
        exists|j: int|
            0 <= j < canonical_prefixes(n, 1024).len() && forall|free: Seq<bool>|
                free.len() == n - 10 ==> exists|free2: Seq<bool>|
                    free2.len() == n - 10 && #[trigger] energy(
                        completion(prefix_bits(#[trigger] canonical_prefixes(n, 1024)[j], 10), 5, free2),
                    ) == energy(completion(s, 5, free)),
{
    let v = lemma_first_image(s, n, 5);
    let i = lemma_bits_of(v);
    lemma_canonical_listed(n, 1024, i);
    let j = choose|j: int|
        0 <= j < canonical_prefixes(n, 1024).len() && #[trigger] canonical_prefixes(n, 1024)[j] == i;
    assert(prefix_bits(canonical_prefixes(n, 1024)[j], 10) == v);
}

/// Two sequences of one length that each come first against the other are equal.
pub proof fn lemma_lex_antisymmetric(a: Seq<bool>, b: Seq<bool>)
    requires
        a.len() == b.len(),
        lex_le(a, b),
        lex_le(b, a),
    ensures
        a == b,
{
    let i = choose|i: int|
        0 <= i <= a.len() && i <= b.len() && #[trigger] a.take(i) == b.take(i) && ((i < a.len()
            && i < b.len() && !a[i] && b[i]) || i == a.len());
    let k = choose|k: int|
        0 <= k <= b.len() && k <= a.len() && #[trigger] b.take(k) == a.take(k) && ((k < b.len()
            && k < a.len() && !b[k] && a[k]) || k == b.len());
    if i == a.len() {
        assert(a == a.take(i));
        assert(b == b.take(i));
    } else if k == b.len() {
        assert(b == b.take(k));
        assert(a == a.take(k));
    } else if i < k {
        lemma_take_agree(b, a, k, i);
    } else if k < i {
        lemma_take_agree(a, b, i, k);
    }
}

/// The image whose number is the inverse of `k`.
proof fn lemma_image_inverse(s: Seq<bool>, n: int, k: int) -> (k2: int)
    requires
        s.len() % 2 == 0,
        s.len() <= n,
        0 <= k < 8,
    ensures
        0 <= k2 < 8,
        code_image(code_image(s, n, k), n, k2) == s,
{
    let (r, e, o) = (k >= 4, k % 4 >= 2, k % 2 == 1);
    lemma_symmetries_are_images(s, n);
    if r && n % 2 == 0 {
        lemma_image_compose(s, n, r, e, o, r, o, e);
        lemma_code_of(s, n, r, o, e);
        code_of(r, o, e)
    } else {
        lemma_image_compose(s, n, r, e, o, r, e, o);
        lemma_code_of(s, n, r, e, o);
        code_of(r, e, o)
    }
}

/// Law: stored signs are canonical exactly when they come first among all
/// eight of their images under reading backwards and flipping the even or
/// the odd positions of the sequence.
pub proof fn lemma_canonical_iff_first(s: Seq<bool>, n: int)
    requires
        s.len() % 2 == 0,
        s.len() <= n,
    ensures
        is_canonical(s, n) <==> forall|k: int| 0 <= k < 8 ==> lex_le(s, #[trigger] code_image(s, n, k)),
{
    lemma_variants_are_images(s, n);
    if is_canonical(s, n) {
        assert forall|k: int| 0 <= k < 8 implies lex_le(s, #[trigger] code_image(s, n, k)) by {
            let i = if k == 0 {
                0int
            } else if k == 4 {
                1
            } else if k == 3 {
                2
            } else if k == 2 {
                3
            } else if k == 7 {
                4
            } else if k == 6 {
                5
            } else if (k == 1) == (n % 2 == 1) {
                6
            } else {
                7
            };
            assert(variant_code(n, i) == k);
            assert(lex_le(s, symmetric_variants(s, n)[i]));
        }
    }
    if forall|k: int| 0 <= k < 8 ==> lex_le(s, #[trigger] code_image(s, n, k)) {
        assert forall|i: int| 0 <= i < 8 implies lex_le(s, #[trigger] symmetric_variants(s, n)[i]) by {
            assert(lex_le(s, code_image(s, n, variant_code(n, i))));
        }
    }
}

/// Law: two canonical stored signs, one an image of the other, are equal:
/// each class of symmetric prefixes has one canonical member.
pub proof fn lemma_canonical_unique(s: Seq<bool>, t: Seq<bool>, n: int, k: int)
    requires
        s.len() % 2 == 0,
        s.len() <= n,
        0 <= k < 8,
        is_canonical(s, n),
        is_canonical(t, n),
        t == code_image(s, n, k),
    ensures
        s == t,
{
    lemma_canonical_iff_first(s, n);
    lemma_canonical_iff_first(t, n);
    let k2 = lemma_image_inverse(s, n, k);
    assert(lex_le(s, code_image(s, n, k)));
    assert(lex_le(t, code_image(t, n, k2)));
    lemma_lex_antisymmetric(s, t);
}

/// The canonical prefixes below `count` are canonical, below `count`, and increasing.
proof fn lemma_canonical_prefixes_facts(n: int, count: int)
    requires
        count <= 1024,
    ensures
        forall|j: int|
            0 <= j < canonical_prefixes(n, count).len() ==> #[trigger] canonical_prefixes(n, count)[j]
                < count && is_canonical(prefix_bits(canonical_prefixes(n, count)[j], 10), n),
        forall|j1: int, j2: int|
            0 <= j1 < j2 < canonical_prefixes(n, count).len() ==> #[trigger] canonical_prefixes(
                n,
                count,
            )[j1] < #[trigger] canonical_prefixes(n, count)[j2],
    decreases count,
{
    if count > 0 {
        lemma_canonical_prefixes_facts(n, count - 1);
        let prev = canonical_prefixes(n, count - 1);
        if is_canonical(prefix_bits((count - 1) as usize, 10), n) {
            assert(canonical_prefixes(n, count) == prev.push((count - 1) as usize));
        } else {
            assert(canonical_prefixes(n, count) == prev);
        }
    }
}

/// Numbers below 1024 with the same ten bits are equal.
proof fn lemma_bits_injective(i1: usize, i2: usize)
    requires
        i1 < 1024,
        i2 < 1024,
        prefix_bits(i1, 10) == prefix_bits(i2, 10),
    ensures
        i1 == i2,
{
    let (p, q) = (prefix_bits(i1, 10), prefix_bits(i2, 10));
    assert(p[0] == q[0] && p[1] == q[1] && p[2] == q[2] && p[3] == q[3] && p[4] == q[4]);
    assert(p[5] == q[5] && p[6] == q[6] && p[7] == q[7] && p[8] == q[8] && p[9] == q[9]);
    assert(i1 == i2) by (bit_vector)
        requires
            i1 < 1024,
            i2 < 1024,
            (i1 & (1usize << 0usize) != 0usize) == (i2 & (1usize << 0usize) != 0usize),
            (i1 & (1usize << 1usize) != 0usize) == (i2 & (1usize << 1usize) != 0usize),
            (i1 & (1usize << 2usize) != 0usize) == (i2 & (1usize << 2usize) != 0usize),
            (i1 & (1usize << 3usize) != 0usize) == (i2 & (1usize << 3usize) != 0usize),
            (i1 & (1usize << 4usize) != 0usize) == (i2 & (1usize << 4usize) != 0usize),
            (i1 & (1usize << 5usize) != 0usize) == (i2 & (1usize << 5usize) != 0usize),
            (i1 & (1usize << 6usize) != 0usize) == (i2 & (1usize << 6usize) != 0usize),
            (i1 & (1usize << 7usize) != 0usize) == (i2 & (1usize << 7usize) != 0usize),
            (i1 & (1usize << 8usize) != 0usize) == (i2 & (1usize << 8usize) != 0usize),
            (i1 & (1usize << 9usize) != 0usize) == (i2 & (1usize << 9usize) != 0usize),
    ;
}

/// Law: the prefixes that the roots are built from come first among their
/// eight images, and no root prefix is an image of another: one root per
/// class of symmetric prefixes.
pub proof fn lemma_roots_one_per_class(n: int)
    requires
        10 <= n,
    ensures
        forall|j: int, k: int|
            0 <= j < canonical_prefixes(n, 1024).len() && 0 <= k < 8 ==> lex_le(
                prefix_bits(canonical_prefixes(n, 1024)[j], 10),
                #[trigger] code_image(prefix_bits(#[trigger] canonical_prefixes(n, 1024)[j], 10), n, k),
            ),
        forall|j1: int, j2: int, k: int|
            0 <= j1 < canonical_prefixes(n, 1024).len() && 0 <= j2 < canonical_prefixes(
                n,
                1024,
            ).len() && j1 != j2 && 0 <= k < 8 ==> prefix_bits(
                #[trigger] canonical_prefixes(n, 1024)[j1],
                10,
            ) != #[trigger] code_image(
                prefix_bits(#[trigger] canonical_prefixes(n, 1024)[j2], 10),
                n,
                k,
            ),
{
    let cp = canonical_prefixes(n, 1024);
    lemma_canonical_prefixes_facts(n, 1024);
    assert forall|j: int, k: int| 0 <= j < cp.len() && 0 <= k < 8 implies lex_le(
        prefix_bits(cp[j], 10),
        #[trigger] code_image(prefix_bits(#[trigger] cp[j], 10), n, k),
    ) by {
        lemma_canonical_iff_first(prefix_bits(cp[j], 10), n);
    }
    assert forall|j1: int, j2: int, k: int|
        0 <= j1 < cp.len() && 0 <= j2 < cp.len() && j1 != j2 && 0 <= k < 8 implies prefix_bits(
        #[trigger] cp[j1],
        10,
    ) != #[trigger] code_image(prefix_bits(#[trigger] cp[j2], 10), n, k) by {
        let s = prefix_bits(cp[j2], 10);
        let t = prefix_bits(cp[j1], 10);
        if t == code_image(s, n, k) {
            lemma_canonical_unique(s, t, n, k);
            lemma_bits_injective(cp[j1], cp[j2]);
            if j1 < j2 {
                assert(cp[j1] < cp[j2]);
            } else {
                assert(cp[j2] < cp[j1]);
            }
        }
    }
}

} // verus!
