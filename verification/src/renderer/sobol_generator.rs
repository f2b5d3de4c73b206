use vstd::prelude::*;

verus! {

/// Number of Sobol dimensions the shader samples, and number of direction
/// numbers per dimension (one per bit of a `u32`).
pub const NUM_DIMENSIONS: usize = 32;

/// Size of the whole direction-number table.
pub const NUM_DIMENSIONS2: usize = NUM_DIMENSIONS * NUM_DIMENSIONS;

/// Largest degree `s` of the primitive polynomials in the table.
pub const MAX_DEGREE: usize = 7;

/// Degree `s` of the primitive polynomial of each dimension (Joe-Kuo table).
pub const SOBOL_S: [usize; 32] = [
    0, 1, 2, 3, 3, 4, 4, 5, 5, 5, 5, 5, 5, 6, 6, 6,
    6, 6, 6, 7, 7, 7, 7, 7, 7, 7, 7, 7, 7, 7, 7, 7,
];

/// Coefficients `a` of the primitive polynomial of each dimension.
pub const SOBOL_A: [usize; 32] = [
    0, 0, 1, 1, 2, 1, 4, 2, 4, 7, 11, 13, 14, 1, 13, 16,
    19, 22, 25, 1, 4, 7, 8, 14, 19, 21, 28, 31, 32, 37, 41, 42,
];

/// Initial direction integers `m_1 .. m_s` of each dimension; only the first `s`
/// entries of a row are used, the rest is padding.
pub const SOBOL_M: [[u32; 7]; 32] = [
    [0, 0, 0, 0, 0, 0, 0],
    [1, 0, 0, 0, 0, 0, 0],
    [1, 3, 0, 0, 0, 0, 0],
    [1, 3, 1, 0, 0, 0, 0],
    [1, 1, 1, 0, 0, 0, 0],
    [1, 1, 3, 3, 0, 0, 0],
    [1, 3, 5, 13, 0, 0, 0],
    [1, 1, 5, 5, 17, 0, 0],
    [1, 1, 5, 5, 5, 0, 0],
    [1, 1, 7, 11, 19, 0, 0],
    [1, 1, 5, 1, 1, 0, 0],
    [1, 1, 1, 3, 11, 0, 0],
    [1, 3, 5, 5, 31, 0, 0],
    [1, 3, 3, 9, 7, 49, 0],
    [1, 1, 1, 15, 21, 21, 0],
    [1, 3, 1, 13, 27, 49, 0],
    [1, 1, 1, 15, 7, 5, 0],
    [1, 3, 1, 15, 13, 25, 0],
    [1, 1, 5, 5, 19, 61, 0],
    [1, 3, 7, 11, 23, 15, 103],
    [1, 3, 7, 13, 13, 15, 69],
    [1, 1, 3, 13, 7, 35, 63],
    [1, 3, 5, 9, 1, 25, 53],
    [1, 3, 1, 13, 9, 35, 107],
    [1, 3, 1, 5, 27, 61, 31],
    [1, 1, 5, 11, 19, 41, 61],
    [1, 3, 5, 3, 3, 13, 69],
    [1, 1, 7, 13, 1, 19, 1],
    [1, 3, 7, 5, 13, 19, 59],
    [1, 1, 3, 9, 25, 29, 41],
    [1, 3, 5, 13, 23, 1, 55],
    [1, 3, 7, 3, 13, 59, 17],
];

/// Degree of the primitive polynomial of dimension `dim`.
pub open spec fn degree(dim: int) -> nat {
    SOBOL_S[dim] as nat
}

/// Whether coefficient `k` (for `1 <= k < s`) of the polynomial of `dim` is set:
/// bit `s - 1 - k` of `a`.
pub open spec fn coefficient(dim: int, k: int) -> bool {
    (SOBOL_A[dim] >> ((degree(dim) - 1 - k) as usize)) & 1 == 1
}

/// Direction number `v_j` of dimension `dim`, as a 32-bit fixed-point fraction.
///
/// A dimension of degree 0 is the van der Corput sequence: `v_j = 2^(31 - j)`.
/// Otherwise the first `s` numbers are `m_j << (31 - j)` and the rest follow the
/// recurrence `v_j = v_{j-s} ^ (v_{j-s} >> s) ^ (xor over 1 <= k < s with a_k set of v_{j-k})`.
pub open spec fn direction(dim: int, j: int) -> u32
    decreases j, degree(dim) + 1,
{
    if j < 0 {
        0
    } else if degree(dim) == 0 {
        1u32 << ((31 - j) as u32)
    } else if j < degree(dim) {
        SOBOL_M[dim][j] << ((31 - j) as u32)
    } else {
        direction_partial(dim, j, degree(dim) as int)
    }
}

/// The recurrence for `v_j` with only the terms `1 <= k < upto` of the sum taken in,
/// xored in increasing order of `k`.
pub open spec fn direction_partial(dim: int, j: int, upto: int) -> u32
    decreases j, upto,
{
    let s: int = degree(dim) as int;
    if s == 0 || j < s || upto > s {
        0
    } else if upto <= 1 {
        let b: u32 = direction(dim, j - s);
        b ^ (b >> (s as usize))
    } else {
        let k: int = upto - 1;
        let prev: u32 = direction_partial(dim, j, k);
        if coefficient(dim, k) {
            prev ^ direction(dim, j - k)
        } else {
            prev
        }
    }
}

/// The direction numbers of all dimensions, dimension after dimension.
pub struct SobolDirections {
    pub dirs: Vec<u32>,
}

proof fn lemma_table_degrees()
    ensures
        forall|d: int| 0 <= d < 32 ==> #[trigger] SOBOL_S[d] <= MAX_DEGREE,
{
    assert forall|d: int| 0 <= d < 32 implies #[trigger] SOBOL_S[d] <= MAX_DEGREE by {
        assert(SOBOL_S[d] <= 7);
    }
}

/// The recurrence of the direction numbers, with the bit of `a` that selects each
/// term written out: for `s <= j`, `v_j` is `v_{j-s} ^ (v_{j-s} >> s)` xored, for each
/// `1 <= k < s` whose bit `s - 1 - k` of `a` is set, with `v_{j-k}`.
pub proof fn lemma_direction_recurrence(d: int, j: int)
    requires
        0 <= d < NUM_DIMENSIONS,
        1 <= SOBOL_S[d] <= j,
    ensures
        ({
            let s: int = SOBOL_S[d] as int;
            let a: usize = SOBOL_A[d];
            let c0: u32 = direction(d, j - s) ^ (direction(d, j - s) >> (s as usize));
            let c1: u32 = if 1 < s && (a >> ((s - 2) as usize)) & 1 == 1 { c0 ^ direction(d, j - 1) } else { c0 };
            let c2: u32 = if 2 < s && (a >> ((s - 3) as usize)) & 1 == 1 { c1 ^ direction(d, j - 2) } else { c1 };
            let c3: u32 = if 3 < s && (a >> ((s - 4) as usize)) & 1 == 1 { c2 ^ direction(d, j - 3) } else { c2 };
            let c4: u32 = if 4 < s && (a >> ((s - 5) as usize)) & 1 == 1 { c3 ^ direction(d, j - 4) } else { c3 };
            let c5: u32 = if 5 < s && (a >> ((s - 6) as usize)) & 1 == 1 { c4 ^ direction(d, j - 5) } else { c4 };
            let c6: u32 = if 6 < s && (a >> ((s - 7) as usize)) & 1 == 1 { c5 ^ direction(d, j - 6) } else { c5 };
            direction(d, j) == c6
        }),
{
    lemma_table_degrees();
    let s: int = SOBOL_S[d] as int;
    let a: usize = SOBOL_A[d];
    assert(1 <= s <= 7);
    assert(degree(d) == s);
    let c0: u32 = direction(d, j - s) ^ (direction(d, j - s) >> (s as usize));
    assert(direction_partial(d, j, 1) == c0);
    let c1: u32 = if 1 < s && (a >> ((s - 2) as usize)) & 1 == 1 { c0 ^ direction(d, j - 1) } else { c0 };
    if 1 < s {
        assert(coefficient(d, 1) == ((a >> ((s - 2) as usize)) & 1 == 1));
        assert(direction_partial(d, j, 2) == c1);
    }
    let c2: u32 = if 2 < s && (a >> ((s - 3) as usize)) & 1 == 1 { c1 ^ direction(d, j - 2) } else { c1 };
    if 2 < s {
        assert(coefficient(d, 2) == ((a >> ((s - 3) as usize)) & 1 == 1));
        assert(direction_partial(d, j, 3) == c2);
    }
    let c3: u32 = if 3 < s && (a >> ((s - 4) as usize)) & 1 == 1 { c2 ^ direction(d, j - 3) } else { c2 };
    if 3 < s {
        assert(coefficient(d, 3) == ((a >> ((s - 4) as usize)) & 1 == 1));
        assert(direction_partial(d, j, 4) == c3);
    }
    let c4: u32 = if 4 < s && (a >> ((s - 5) as usize)) & 1 == 1 { c3 ^ direction(d, j - 4) } else { c3 };
    if 4 < s {
        assert(coefficient(d, 4) == ((a >> ((s - 5) as usize)) & 1 == 1));
        assert(direction_partial(d, j, 5) == c4);
    }
    let c5: u32 = if 5 < s && (a >> ((s - 6) as usize)) & 1 == 1 { c4 ^ direction(d, j - 5) } else { c4 };
    if 5 < s {
        assert(coefficient(d, 5) == ((a >> ((s - 6) as usize)) & 1 == 1));
        assert(direction_partial(d, j, 6) == c5);
    }
    let c6: u32 = if 6 < s && (a >> ((s - 7) as usize)) & 1 == 1 { c5 ^ direction(d, j - 6) } else { c5 };
    if 6 < s {
        assert(coefficient(d, 6) == ((a >> ((s - 7) as usize)) & 1 == 1));
        assert(direction_partial(d, j, 7) == c6);
    }
    assert(direction(d, j) == direction_partial(d, j, s));
}

/// Computes the Sobol direction numbers of the first `NUM_DIMENSIONS` dimensions,
/// `NUM_DIMENSIONS` numbers each: entry `d * 32 + j` is `direction(d, j)`.
pub fn generate_sobol_directions() -> (result: SobolDirections)
    ensures
        result.dirs@.len() == NUM_DIMENSIONS2,
        forall|d: int, j: int|
            0 <= d < NUM_DIMENSIONS && 0 <= j < NUM_DIMENSIONS ==> #[trigger] result.dirs@[d * 32 + j]
                == direction(d, j),
        forall|d: int, j: int|
            0 <= d < NUM_DIMENSIONS && 0 <= j < NUM_DIMENSIONS && SOBOL_S[d] == 0 ==> #[trigger] result.dirs@[d
                * 32 + j] == 1u32 << ((31 - j) as u32),
        forall|d: int, j: int|
            0 <= d < NUM_DIMENSIONS && 0 <= j < SOBOL_S[d] ==> #[trigger] result.dirs@[d * 32 + j]
                == SOBOL_M[d][j] << ((31 - j) as u32),
        forall|d: int, j: int|
            0 <= d < NUM_DIMENSIONS && 1 <= SOBOL_S[d] <= j < NUM_DIMENSIONS ==> {
                let s: int = SOBOL_S[d] as int;
                let a: usize = SOBOL_A[d];
                let c0: u32 = result.dirs@[d * 32 + (j - s)] ^ (result.dirs@[d * 32 + (j - s)] >> (s as usize));
                let c1: u32 = if 1 < s && (a >> ((s - 2) as usize)) & 1 == 1 { c0 ^ result.dirs@[d * 32 + (j - 1)] } else { c0 };
                let c2: u32 = if 2 < s && (a >> ((s - 3) as usize)) & 1 == 1 { c1 ^ result.dirs@[d * 32 + (j - 2)] } else { c1 };
                let c3: u32 = if 3 < s && (a >> ((s - 4) as usize)) & 1 == 1 { c2 ^ result.dirs@[d * 32 + (j - 3)] } else { c2 };
                let c4: u32 = if 4 < s && (a >> ((s - 5) as usize)) & 1 == 1 { c3 ^ result.dirs@[d * 32 + (j - 4)] } else { c3 };
                let c5: u32 = if 5 < s && (a >> ((s - 6) as usize)) & 1 == 1 { c4 ^ result.dirs@[d * 32 + (j - 5)] } else { c4 };
                let c6: u32 = if 6 < s && (a >> ((s - 7) as usize)) & 1 == 1 { c5 ^ result.dirs@[d * 32 + (j - 6)] } else { c5 };
                #[trigger] result.dirs@[d * 32 + j] == c6
            },
{
    let mut result: Vec<u32> = Vec::new();
    let mut i: usize = 0;
    while i < NUM_DIMENSIONS
        invariant
            i <= NUM_DIMENSIONS,
            result@.len() == i * 32,
            forall|d: int, j: int|
                0 <= d < i && 0 <= j < 32 ==> #[trigger] result@[d * 32 + j] == direction(d, j),
        decreases NUM_DIMENSIONS - i,
    {
        let offset: usize = i * NUM_DIMENSIONS;
        let s: usize = SOBOL_S[i];
        let a: usize = SOBOL_A[i];
        let m = SOBOL_M[i];
        proof {
            lemma_table_degrees();
        }
        assert(s <= 7);
        if s == 0 {
            let mut j: usize = 0;
            while j < NUM_DIMENSIONS
                invariant
                    i < NUM_DIMENSIONS,
                    offset == i * 32,
                    s == degree(i as int),
                    s == 0,
                    j <= NUM_DIMENSIONS,
                    result@.len() == offset + j,
                    forall|d: int, jj: int|
                        0 <= d < i && 0 <= jj < 32 ==> #[trigger] result@[d * 32 + jj] == direction(d, jj),
                    forall|jj: int| 0 <= jj < j ==> #[trigger] result@[offset + jj] == direction(i as int, jj),
                decreases NUM_DIMENSIONS - j,
            {
                result.push(1u32 << (NUM_DIMENSIONS - 1 - j));
                j += 1;
            }
        } else {
            let mut j: usize = 0;
            while j < s
                invariant
                    i < NUM_DIMENSIONS,
                    offset == i * 32,
                    s == degree(i as int),
                    0 < s <= 7,
                    m == SOBOL_M[i as int],
                    j <= s,
                    result@.len() == offset + j,
                    forall|d: int, jj: int|
                        0 <= d < i && 0 <= jj < 32 ==> #[trigger] result@[d * 32 + jj] == direction(d, jj),
                    forall|jj: int| 0 <= jj < j ==> #[trigger] result@[offset + jj] == direction(i as int, jj),
                decreases s - j,
            {
                result.push(m[j] << (NUM_DIMENSIONS - 1 - j));
                j += 1;
            }
            while j < NUM_DIMENSIONS
                invariant
                    i < NUM_DIMENSIONS,
                    offset == i * 32,
                    s == degree(i as int),
                    a == SOBOL_A[i as int],
                    0 < s <= 7,
                    s <= j <= NUM_DIMENSIONS,
                    result@.len() == offset + j,
                    forall|d: int, jj: int|
                        0 <= d < i && 0 <= jj < 32 ==> #[trigger] result@[d * 32 + jj] == direction(d, jj),
                    forall|jj: int| 0 <= jj < j ==> #[trigger] result@[offset + jj] == direction(i as int, jj),
                decreases NUM_DIMENSIONS - j,
            {
                let b: u32 = result[offset + j - s];
                assert(b == direction(i as int, j - s)) by {
                    assert(result@[offset + (j - s)] == direction(i as int, j - s));
                }
                let mut val: u32 = b ^ (b >> s);
                let mut k: usize = 1;
                while k < s
                    invariant
                        i < NUM_DIMENSIONS,
                        offset == i * 32,
                        s == degree(i as int),
                        a == SOBOL_A[i as int],
                        0 < s <= 7,
                        s <= j < NUM_DIMENSIONS,
                        1 <= k <= s,
                        result@.len() == offset + j,
                        forall|jj: int| 0 <= jj < j ==> #[trigger] result@[offset + jj] == direction(i as int, jj),
                        val == direction_partial(i as int, j as int, k as int),
                    decreases s - k,
                {
                    if (a >> (s - 1 - k)) & 1 == 1 {
                        let t: u32 = result[offset + j - k];
                        assert(t == direction(i as int, j - k)) by {
                            assert(result@[offset + (j - k)] == direction(i as int, j - k));
                        }
                        val ^= t;
                    }
                    k += 1;
                }
                result.push(val);
                j += 1;
            }
        }
        i += 1;
    }
    proof {
        lemma_table_degrees();
        assert forall|d: int, j: int|
            0 <= d < NUM_DIMENSIONS && 1 <= SOBOL_S[d] <= j < NUM_DIMENSIONS implies {
            let s: int = SOBOL_S[d] as int;
            let a: usize = SOBOL_A[d];
            let c0: u32 = result@[d * 32 + (j - s)] ^ (result@[d * 32 + (j - s)] >> (s as usize));
            let c1: u32 = if 1 < s && (a >> ((s - 2) as usize)) & 1 == 1 { c0 ^ result@[d * 32 + (j - 1)] } else { c0 };
            let c2: u32 = if 2 < s && (a >> ((s - 3) as usize)) & 1 == 1 { c1 ^ result@[d * 32 + (j - 2)] } else { c1 };
            let c3: u32 = if 3 < s && (a >> ((s - 4) as usize)) & 1 == 1 { c2 ^ result@[d * 32 + (j - 3)] } else { c2 };
            let c4: u32 = if 4 < s && (a >> ((s - 5) as usize)) & 1 == 1 { c3 ^ result@[d * 32 + (j - 4)] } else { c3 };
            let c5: u32 = if 5 < s && (a >> ((s - 6) as usize)) & 1 == 1 { c4 ^ result@[d * 32 + (j - 5)] } else { c4 };
            let c6: u32 = if 6 < s && (a >> ((s - 7) as usize)) & 1 == 1 { c5 ^ result@[d * 32 + (j - 6)] } else { c5 };
            #[trigger] result@[d * 32 + j] == c6
        } by {
            lemma_direction_recurrence(d, j);
            let s: int = SOBOL_S[d] as int;
            assert(result@[d * 32 + (j - s)] == direction(d, j - s));
            if 1 < s {
                assert(result@[d * 32 + (j - 1)] == direction(d, j - 1));
            }
            if 2 < s {
                assert(result@[d * 32 + (j - 2)] == direction(d, j - 2));
            }
            if 3 < s {
                assert(result@[d * 32 + (j - 3)] == direction(d, j - 3));
            }
            if 4 < s {
                assert(result@[d * 32 + (j - 4)] == direction(d, j - 4));
            }
            if 5 < s {
                assert(result@[d * 32 + (j - 5)] == direction(d, j - 5));
            }
            if 6 < s {
                assert(result@[d * 32 + (j - 6)] == direction(d, j - 6));
            }
        }
    }
    SobolDirections { dirs: result }
}

/// `v` is a direction number of index `j`: its lowest set bit is bit `31 - j`,
/// that is `v = m * 2^(31 - j)` with `m` odd.
pub open spec fn lowest_bit_at(v: u32, j: int) -> bool {
    v << (j as u32) == 0x8000_0000u32
}

proof fn lemma_initial_number(m: u32, j: u32)
    by (bit_vector)
    requires
        m % 2 == 1,
        j < 32,
    ensures
        (m << ((31 - j) as u32)) << j == 0x8000_0000u32,
{
}

proof fn lemma_recurrence_base(b: u32, s: u32, j: u32)
    by (bit_vector)
    requires
        1 <= s <= j < 32,
        b << ((j - s) as u32) == 0x8000_0000u32,
    ensures
        (b ^ (b >> s)) << j == 0x8000_0000u32,
{
}

proof fn lemma_recurrence_term(x: u32, y: u32, k: u32, j: u32)
    by (bit_vector)
    requires
        1 <= k <= j < 32,
        x << j == 0x8000_0000u32,
        y << ((j - k) as u32) == 0x8000_0000u32,
    ensures
        (x ^ y) << j == 0x8000_0000u32,
{
}

/// The first `s` entries of `row` are odd.
spec fn row_odd(row: [u32; 7], s: int) -> bool {
    &&& (s <= 0 || row[0] % 2 == 1)
    &&& (s <= 1 || row[1] % 2 == 1)
    &&& (s <= 2 || row[2] % 2 == 1)
    &&& (s <= 3 || row[3] % 2 == 1)
    &&& (s <= 4 || row[4] % 2 == 1)
    &&& (s <= 5 || row[5] % 2 == 1)
    &&& (s <= 6 || row[6] % 2 == 1)
}

proof fn lemma_table_initial_numbers_odd(d: int, j: int)
    requires
        0 <= d < 32,
        0 <= j < SOBOL_S[d],
    ensures
        SOBOL_M[d][j] % 2 == 1,
{
    assert(row_odd(SOBOL_M[d], SOBOL_S[d] as int)) by {
        if d == 0 {
        } else if d == 1 {
        } else if d == 2 {
        } else if d == 3 {
        } else if d == 4 {
        } else if d == 5 {
        } else if d == 6 {
        } else if d == 7 {
        } else if d == 8 {
        } else if d == 9 {
        } else if d == 10 {
        } else if d == 11 {
        } else if d == 12 {
        } else if d == 13 {
        } else if d == 14 {
        } else if d == 15 {
        } else if d == 16 {
        } else if d == 17 {
        } else if d == 18 {
        } else if d == 19 {
        } else if d == 20 {
        } else if d == 21 {
        } else if d == 22 {
        } else if d == 23 {
        } else if d == 24 {
        } else if d == 25 {
        } else if d == 26 {
        } else if d == 27 {
        } else if d == 28 {
        } else if d == 29 {
        } else if d == 30 {
        } else if d == 31 {
        }
    }
    lemma_table_degrees();
    assert(SOBOL_S[d] <= 7);
}

/// Every direction number `v_j` of every dimension has its lowest set bit at
/// `31 - j`: `v_j` is an odd multiple of `2^(31 - j)`.
pub proof fn lemma_direction_lowest_bit(dim: int, j: int)
    requires
        0 <= dim < NUM_DIMENSIONS,
        0 <= j < NUM_DIMENSIONS,
    ensures
        lowest_bit_at(direction(dim, j), j),
    decreases j,
{
    lemma_table_degrees();
    let s: nat = degree(dim);
    if s == 0 {
        lemma_initial_number(1, j as u32);
    } else if j < s {
        lemma_table_initial_numbers_odd(dim, j);
        lemma_initial_number(SOBOL_M[dim][j], j as u32);
    } else {
        lemma_partial_lowest_bit(dim, j, s as int);
    }
}

proof fn lemma_partial_lowest_bit(dim: int, j: int, upto: int)
    requires
        0 <= dim < NUM_DIMENSIONS,
        0 <= j < NUM_DIMENSIONS,
        1 <= degree(dim) <= j,
        1 <= upto <= degree(dim),
    ensures
        lowest_bit_at(direction_partial(dim, j, upto), j),
    decreases j, upto,
{
    lemma_table_degrees();
    let s: int = degree(dim) as int;
    if upto <= 1 {
        lemma_direction_lowest_bit(dim, j - s);
        lemma_recurrence_base(direction(dim, j - s), s as u32, j as u32);
    } else {
        let k: int = upto - 1;
        lemma_partial_lowest_bit(dim, j, k);
        if coefficient(dim, k) {
            lemma_direction_lowest_bit(dim, j - k);
            lemma_recurrence_term(direction_partial(dim, j, k), direction(dim, j - k), k as u32, j as u32);
        }
    }
}

} // verus!
