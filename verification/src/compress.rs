use vstd::prelude::*;

verus! {

use crate::error::CodexFsError;

/// Distance used for a file pair when either file yields no similarity
/// digest.
pub const DEFAULT_DIFF: usize = 1000;

/// The TLSH distance of two byte strings: the digests, and so their
/// difference score, depend on the bytes alone.  `None` stands for inputs
/// too small or too uniform for a digest.
pub uninterp spec fn tlsh_pair_diff(a: Seq<u8>, b: Seq<u8>) -> Option<usize>;

/// Relies on the tlsh_fixed crate (lib name `tlsh`): a bucket-256, three-byte-checksum, version-4 digest
/// of each input, scored with `Tlsh::diff` without the length component.
/// The score is a function of the two byte strings alone.  The bound keeps
/// the digest within what the source supports outright: `TlshBuilder::build`
/// unwraps its length bucketing, which fails past the largest table entry,
/// and each input byte adds six bucket increments, so inputs at or below
/// floor(u32::MAX / 6) bytes cannot overflow a u32 bucket counter however
/// the six salted hashes collide.
#[verifier::external_body]
pub(crate) fn tlsh_content_diff(a: &Vec<u8>, b: &Vec<u8>) -> (r: Option<usize>)
    requires
        a@.len() <= 715827882,
        b@.len() <= 715827882,
    ensures
        r == tlsh_pair_diff(a@, b@),
{
    let mut ba = tlsh::TlshBuilder::new(tlsh::BucketKind::Bucket256, tlsh::ChecksumKind::ThreeByte, tlsh::Version::Version4);
    ba.update(a);
    let mut bb = tlsh::TlshBuilder::new(tlsh::BucketKind::Bucket256, tlsh::ChecksumKind::ThreeByte, tlsh::Version::Version4);
    bb.update(b);
    match (ba.build(), bb.build()) {
        (Ok(ta), Ok(tb)) => Some(ta.diff(&tb, false)),
        _ => None,
    }
}

/// The complete LZMA stream that the encoder emits for `data` at the given
/// preset level: a function of the bytes and the level alone.
pub uninterp spec fn spec_lzma_enc(data: Seq<u8>, level: u32) -> Seq<u8>;

/// Relies on xz2's `Stream::new_lzma_encoder` run to `StreamEnd`: the
/// output is one complete stream holding all of `data[start..start+len]`,
/// and depends on those bytes and the preset level alone.
#[verifier::external_body]
pub(crate) fn lzma_compress_slice(data: &Vec<u8>, start: usize, len: usize, level: u32) -> (r: Result<
    Vec<u8>,
    CodexFsError,
>)
    requires
        start + len <= data@.len(),
    ensures
        r matches Ok(out) ==> out@ == spec_lzma_enc(
            data@.subrange(start as int, start as int + len as int),
            level,
        ),
{
    let opts = xz2::stream::LzmaOptions::new_preset(level).map_err(|_| CodexFsError::CodecError)?;
    let mut strm = xz2::stream::Stream::new_lzma_encoder(&opts).map_err(|_| CodexFsError::CodecError)?;
    let mut out: Vec<u8> = Vec::new();
    loop {
        let consumed = strm.total_in() as usize;
        out.reserve(len - consumed + 128);
        match strm.process_vec(&data[start + consumed..start + len], &mut out, xz2::stream::Action::Finish) {
            Ok(xz2::stream::Status::StreamEnd) => return Ok(out),
            Ok(_) => {},
            Err(_) => return Err(CodexFsError::CodecError),
        }
    }
}

/// Relies on xz2's `Stream::new_lzma_decoder` run to `StreamEnd`: decoding
/// a complete stream recovers exactly the bytes it was encoded from.  The
/// input-consumed arm below can hand back a truncated result for payloads
/// that are not complete streams; the contract claims nothing of those.
#[verifier::external_body]
pub(crate) fn lzma_decompress(comp: &Vec<u8>) -> (r: Result<Vec<u8>, CodexFsError>)
    ensures
        r matches Ok(out) ==> forall|orig: Seq<u8>, level: u32|
            comp@ == #[trigger] spec_lzma_enc(orig, level) ==> out@ == orig,
{
    let mut strm = xz2::stream::Stream::new_lzma_decoder(16 * 1024 * 1024).map_err(|_| CodexFsError::CodecError)?;
    let mut out: Vec<u8> = Vec::new();
    loop {
        let consumed = strm.total_in() as usize;
        out.reserve(65536);
        match strm.process_vec(&comp[consumed..], &mut out, xz2::stream::Action::Finish) {
            Ok(xz2::stream::Status::StreamEnd) => return Ok(out),
            Ok(_) if (strm.total_in() as usize) == comp.len() => return Ok(out),
            Ok(_) => {},
            Err(_) => return Err(CodexFsError::CodecError),
        }
    }
}

/// Build-side compression state: the similarity-ordered list of regular
/// file inodes (slots in the inode table), their concatenated contents, the
/// pairwise distance matrix, and the preset level.
pub struct CompressManager {
    pub file_data: Vec<u8>,
    pub files: Vec<usize>,
    pub diff_mat: Vec<Vec<usize>>,
    pub lzma_level: u32,
}

impl CompressManager {
    pub fn new(lzma_level: u32) -> (r: CompressManager)
        ensures
            r.lzma_level == lzma_level,
            r.file_data@.len() == 0,
            r.files@.len() == 0,
            r.diff_mat@.len() == 0,
    {
        CompressManager { file_data: Vec::new(), files: Vec::new(), diff_mat: Vec::new(), lzma_level }
    }
}

/// The row sums used to pick the reorder seed.
pub open spec fn spec_row_sum(row: Seq<usize>) -> int
    decreases row.len(),
{
    if row.len() == 0 {
        0
    } else {
        row[0] + spec_row_sum(row.drop_first())
    }
}

proof fn lemma_row_sum_push(row: Seq<usize>, x: usize)
    ensures
        spec_row_sum(row.push(x)) == spec_row_sum(row) + x,
    decreases row.len(),
{
    if row.len() == 0 {
        assert(row.push(x).drop_first() =~= Seq::<usize>::empty());
        assert(row =~= Seq::<usize>::empty());
    } else {
        assert(row.push(x).drop_first() =~= row.drop_first().push(x));
        lemma_row_sum_push(row.drop_first(), x);
    }
}

/// A square matrix of pairwise distances.
pub open spec fn mat_square(mat: Seq<Vec<usize>>) -> bool {
    forall|i: int| 0 <= i < mat.len() ==> (#[trigger] mat[i])@.len() == mat.len()
}

fn row_sum(row: &Vec<usize>) -> (r: u128)
    requires
        row@.len() <= u32::MAX,
        forall|j: int| 0 <= j < row@.len() ==> (#[trigger] row@[j]) <= u64::MAX,
    ensures
        r == spec_row_sum(row@),
{
    let mut acc: u128 = 0;
    let mut j: usize = 0;
    proof {
        assert(row@.take(0) =~= Seq::<usize>::empty());
    }
    while j < row.len()
        invariant
            j <= row@.len(),
            row@.len() <= u32::MAX,
            forall|k: int| 0 <= k < row@.len() ==> (#[trigger] row@[k]) <= u64::MAX,
            acc == spec_row_sum(row@.take(j as int)),
            acc <= j * (u64::MAX as int),
        decreases row@.len() - j,
    {
        proof {
            assert(row@.take(j + 1) =~= row@.take(j as int).push(row@[j as int]));
            lemma_row_sum_push(row@.take(j as int), row@[j as int]);
            assert((j + 1) * (u64::MAX as int) == j * (u64::MAX as int) + u64::MAX)
                by (nonlinear_arith);
            assert(u32::MAX as int * (u64::MAX as int) < u128::MAX) by (nonlinear_arith);
            assert(j * (u64::MAX as int) <= u32::MAX as int * (u64::MAX as int))
                by (nonlinear_arith)
                requires
                    0 <= j <= u32::MAX as int,
            ;
        }
        acc = acc + (row[j] as u128);
        j = j + 1;
    }
    proof {
        assert(row@.take(row@.len() as int) =~= row@);
    }
    acc
}

/// The seed of the tour: the row whose distances to all others sum
/// smallest, earliest row on a tie.
pub fn select_initial_node(diff_mat: &Vec<Vec<usize>>) -> (r: usize)
    requires
        0 < diff_mat@.len() <= u32::MAX,
        mat_square(diff_mat@),
        forall|i: int, j: int|
            #![trigger diff_mat@[i]@[j]]
            0 <= i < diff_mat@.len() && 0 <= j < diff_mat@[i]@.len() ==> diff_mat@[i]@[j]
                <= u64::MAX,
    ensures
        r < diff_mat@.len(),
        forall|i: int|
            0 <= i < diff_mat@.len() ==> spec_row_sum((#[trigger] diff_mat@[i])@) >= spec_row_sum(
                diff_mat@[r as int]@,
            ),
        forall|i: int|
            0 <= i < r ==> spec_row_sum((#[trigger] diff_mat@[i])@) > spec_row_sum(
                diff_mat@[r as int]@,
            ),
{
    let mut best: usize = 0;
    let mut best_sum: u128 = row_sum(&diff_mat[0]);
    let mut i: usize = 1;
    while i < diff_mat.len()
        invariant
            1 <= i <= diff_mat@.len(),
            diff_mat@.len() <= u32::MAX,
            mat_square(diff_mat@),
            forall|p: int, j: int|
                #![trigger diff_mat@[p]@[j]]
                0 <= p < diff_mat@.len() && 0 <= j < diff_mat@[p]@.len() ==> diff_mat@[p]@[j]
                    <= u64::MAX,
            best < i,
            best_sum == spec_row_sum(diff_mat@[best as int]@),
            forall|p: int|
                0 <= p < i ==> spec_row_sum((#[trigger] diff_mat@[p])@) >= best_sum,
            forall|p: int|
                0 <= p < best ==> spec_row_sum((#[trigger] diff_mat@[p])@) > best_sum,
        decreases diff_mat@.len() - i,
    {
        let s = row_sum(&diff_mat[i]);
        if s < best_sum {
            best = i;
            best_sum = s;
        }
        i = i + 1;
    }
    best
}


/// `s` lists each of `0..n` exactly once.
pub open spec fn is_perm(s: Seq<usize>, n: int) -> bool {
    &&& s.len() == n
    &&& forall|i: int| 0 <= i < n ==> (#[trigger] s[i]) < n
    &&& forall|i: int, j: int| 0 <= i < j < n ==> s[i] != s[j]
}

/// The cost of a tour: the distances of adjacent pairs, summed.
pub open spec fn spec_path_cost(path: Seq<usize>, mat: Seq<Vec<usize>>) -> int
    decreases path.len(),
{
    if path.len() < 2 {
        0
    } else {
        spec_path_cost(path.drop_last(), mat) + mat[path[path.len() - 2] as int]@[path[
            path.len() - 1
        ] as int]
    }
}

/// The unvisited node nearest to `from`, earliest index on a tie.
fn nearest_unvisited(diff_mat: &Vec<Vec<usize>>, visited: &Vec<bool>, from: usize) -> (r: Option<
    usize,
>)
    requires
        mat_square(diff_mat@),
        visited@.len() == diff_mat@.len(),
        from < diff_mat@.len(),
    ensures
        r is None <==> (forall|v: int| 0 <= v < visited@.len() ==> visited@[v]),
        r matches Some(v) ==> {
            &&& v < visited@.len()
            &&& !visited@[v as int]
            &&& forall|w: int|
                0 <= w < visited@.len() && !visited@[w] ==> diff_mat@[from as int]@[w]
                    >= diff_mat@[from as int]@[v as int]
            &&& forall|w: int|
                0 <= w < v && !visited@[w] ==> diff_mat@[from as int]@[w] > diff_mat@[
                    from as int
                ]@[v as int]
        },
{
    let n = diff_mat.len();
    let mut best: Option<usize> = None;
    let mut v: usize = 0;
    while v < n
        invariant
            v <= n,
            n == diff_mat@.len(),
            mat_square(diff_mat@),
            visited@.len() == n,
            from < n,
            best is None ==> (forall|w: int| 0 <= w < v ==> visited@[w]),
            best matches Some(b) ==> {
                &&& b < n
                &&& b < v
                &&& !visited@[b as int]
                &&& forall|w: int|
                    0 <= w < v && !visited@[w] ==> diff_mat@[from as int]@[w] >= diff_mat@[
                        from as int
                    ]@[b as int]
                &&& forall|w: int|
                    0 <= w < b && !visited@[w] ==> diff_mat@[from as int]@[w] > diff_mat@[
                        from as int
                    ]@[b as int]
            },
        decreases n - v,
    {
        if !visited[v] {
            match best {
                None => {
                    best = Some(v);
                },
                Some(b) => {
                    if *(&diff_mat[from][v]) < *(&diff_mat[from][b]) {
                        best = Some(v);
                    }
                },
            }
        }
        v = v + 1;
    }
    proof {
        match best {
            Some(b) => {
                assert(forall|w: int|
                    0 <= w < b && !visited@[w] ==> diff_mat@[from as int]@[w] > diff_mat@[
                        from as int
                    ]@[b as int]);
            },
            None => {},
        }
    }
    best
}

/// Seed tour: starting from the seed node, repeatedly attach the nearest
/// unvisited node to whichever end of the tour is closer to it, the front
/// on a tie.
pub fn nearest_neighbor_dual_end(diff_mat: &Vec<Vec<usize>>) -> (r: Vec<usize>)
    requires
        0 < diff_mat@.len() <= u32::MAX,
        mat_square(diff_mat@),
        forall|i: int, j: int|
            #![trigger diff_mat@[i]@[j]]
            0 <= i < diff_mat@.len() && 0 <= j < diff_mat@[i]@.len() ==> diff_mat@[i]@[j]
                <= u64::MAX,
    ensures
        is_perm(r@, diff_mat@.len() as int),
{
    let n = diff_mat.len();
    let start = select_initial_node(diff_mat);
    let mut visited: Vec<bool> = vec![false; n];
    visited[start] = true;
    // nodes attached at the front, innermost first
    let mut front_rev: Vec<usize> = Vec::new();
    let mut back: Vec<usize> = Vec::new();
    back.push(start);
    let mut front_node: usize = start;
    let mut back_node: usize = start;
    proof {
        assert(back@[0] == start);
        assert(back@.contains(start));
    }
    loop
        invariant
            n == diff_mat@.len(),
            0 < n <= u32::MAX,
            mat_square(diff_mat@),
            visited@.len() == n,
            front_node < n,
            back_node < n,
            front_rev@.len() + back@.len() <= n,
            forall|k: int| 0 <= k < front_rev@.len() ==> (#[trigger] front_rev@[k]) < n,
            forall|k: int| 0 <= k < back@.len() ==> (#[trigger] back@[k]) < n,
            forall|v: int|
                0 <= v < n ==> (visited@[v] <==> ((#[trigger] front_rev@.contains(v as usize))
                    || back@.contains(v as usize))),
            forall|k1: int, k2: int|
                0 <= k1 < k2 < front_rev@.len() ==> front_rev@[k1] != front_rev@[k2],
            forall|k1: int, k2: int| 0 <= k1 < k2 < back@.len() ==> back@[k1] != back@[k2],
            forall|k1: int, k2: int|
                0 <= k1 < front_rev@.len() && 0 <= k2 < back@.len() ==> front_rev@[k1]
                    != back@[k2],
        ensures
            forall|v: int| 0 <= v < n ==> visited@[v],
        decreases n - (front_rev@.len() + back@.len()),
    {
        let nf = nearest_unvisited(diff_mat, &visited, front_node);
        let nb = nearest_unvisited(diff_mat, &visited, back_node);
        match (nf, nb) {
            (Some(f), Some(b)) => {
                let ghost pre_vis = visited@;
                let ghost pre_fr = front_rev@;
                let ghost pre_bk = back@;
                if *(&diff_mat[front_node][f]) <= *(&diff_mat[back_node][b]) {
                    proof {
                        lemma_extend_tour(pre_vis, pre_fr, pre_bk, f, n as int);
                    }
                    visited[f] = true;
                    front_rev.push(f);
                    front_node = f;
                    proof {
                        assert(front_rev@ == pre_fr.push(f));
                        assert(visited@ == pre_vis.update(f as int, true));
                        lemma_tour_invariants_front(pre_vis, pre_fr, pre_bk, visited@, front_rev@, f, n as int);
                    }
                } else {
                    proof {
                        lemma_extend_tour(pre_vis, pre_fr, pre_bk, b, n as int);
                    }
                    visited[b] = true;
                    back.push(b);
                    back_node = b;
                    proof {
                        assert(back@ == pre_bk.push(b));
                        assert(visited@ == pre_vis.update(b as int, true));
                        lemma_tour_invariants_back(pre_vis, pre_fr, pre_bk, visited@, back@, b, n as int);
                    }
                }
            },
            _ => {
                break;
            },
        }
    }
    // every node is visited now, so the two parts together list all of 0..n
    let mut out: Vec<usize> = Vec::new();
    let mut k: usize = front_rev.len();
    while k > 0
        invariant
            k <= front_rev@.len(),
            out@.len() == front_rev@.len() - k,
            forall|p: int|
                0 <= p < out@.len() ==> out@[p] == front_rev@[front_rev@.len() - 1 - p],
        decreases k,
    {
        out.push(front_rev[k - 1]);
        k = k - 1;
    }
    let mut k2: usize = 0;
    while k2 < back.len()
        invariant
            k2 <= back@.len(),
            out@.len() == front_rev@.len() + k2,
            forall|p: int|
                0 <= p < front_rev@.len() ==> out@[p] == front_rev@[front_rev@.len() - 1 - p],
            forall|p: int|
                0 <= p < k2 ==> out@[front_rev@.len() + p] == back@[p],
        decreases back@.len() - k2,
    {
        out.push(back[k2]);
        k2 = k2 + 1;
    }
    proof {
        lemma_dual_end_perm(front_rev@, back@, out@, n as int);
    }
    out
}

/// An unvisited node sits in neither part of the tour, so the parts still
/// have room for it among `n` nodes.
proof fn lemma_extend_tour(vis: Seq<bool>, fr: Seq<usize>, bk: Seq<usize>, x: usize, n: int)
    requires
        0 < n <= u32::MAX,
        vis.len() == n,
        (x as int) < n,
        !vis[x as int],
        forall|v: int|
            0 <= v < n ==> (vis[v] <==> ((#[trigger] fr.contains(v as usize)) || bk.contains(
                v as usize,
            ))),
        forall|k: int| 0 <= k < fr.len() ==> (#[trigger] fr[k]) < n,
        forall|k: int| 0 <= k < bk.len() ==> (#[trigger] bk[k]) < n,
        forall|k1: int, k2: int| 0 <= k1 < k2 < fr.len() ==> fr[k1] != fr[k2],
        forall|k1: int, k2: int| 0 <= k1 < k2 < bk.len() ==> bk[k1] != bk[k2],
        forall|k1: int, k2: int|
            0 <= k1 < fr.len() && 0 <= k2 < bk.len() ==> fr[k1] != bk[k2],
    ensures
        !fr.contains(x),
        !bk.contains(x),
        fr.len() + bk.len() < n,
{
    let xi: int = x as int;
    assert(x == xi as usize);
    assert(!(fr.contains((xi as usize)) || bk.contains((xi as usize))));
    let comb = fr + bk;
    assert forall|i: int| 0 <= i < comb.len() implies (#[trigger] comb[i]) < n by {
        if i < fr.len() {
            assert(comb[i] == fr[i]);
        } else {
            assert(comb[i] == bk[i - fr.len()]);
        }
    }
    assert forall|i: int, j: int| 0 <= i < j < comb.len() implies comb[i] != comb[j] by {
        if j < fr.len() {
            assert(comb[i] == fr[i] && comb[j] == fr[j]);
        } else if i < fr.len() {
            assert(comb[i] == fr[i] && comb[j] == bk[j - fr.len()]);
        } else {
            assert(comb[i] == bk[i - fr.len()] && comb[j] == bk[j - fr.len()]);
        }
    }
    let comb2 = comb.push(x);
    assert forall|i: int| 0 <= i < comb2.len() implies (#[trigger] comb2[i]) < n by {
        if i < comb.len() {
            assert(comb2[i] == comb[i]);
        } else {
            assert(comb2[i] == x);
        }
    }
    assert forall|i: int, j: int| 0 <= i < j < comb2.len() implies comb2[i] != comb2[j] by {
        if j < comb.len() {
            assert(comb2[i] == comb[i] && comb2[j] == comb[j]);
        } else {
            assert(comb2[j] == x && comb2[i] == comb[i]);
            if comb[i] == x {
                if i < fr.len() {
                    assert(fr[i] == x);
                    assert(fr.contains(x));
                } else {
                    assert(bk[i - fr.len()] == x);
                    assert(bk.contains(x));
                }
            }
        }
    }
    lemma_distinct_bounded_le(comb2, n);
}

/// Attaching a fresh node at the front keeps the tour invariants.
proof fn lemma_tour_invariants_front(
    pre_vis: Seq<bool>,
    pre_fr: Seq<usize>,
    bk: Seq<usize>,
    vis: Seq<bool>,
    fr: Seq<usize>,
    f: usize,
    n: int,
)
    requires
        0 < n <= u32::MAX,
        pre_vis.len() == n,
        (f as int) < n,
        !pre_vis[f as int],
        forall|v: int|
            0 <= v < n ==> (pre_vis[v] <==> ((#[trigger] pre_fr.contains(v as usize))
                || bk.contains(v as usize))),
        forall|k: int| 0 <= k < pre_fr.len() ==> (#[trigger] pre_fr[k]) < n,
        forall|k: int| 0 <= k < bk.len() ==> (#[trigger] bk[k]) < n,
        forall|k1: int, k2: int| 0 <= k1 < k2 < pre_fr.len() ==> pre_fr[k1] != pre_fr[k2],
        forall|k1: int, k2: int| 0 <= k1 < k2 < bk.len() ==> bk[k1] != bk[k2],
        forall|k1: int, k2: int|
            0 <= k1 < pre_fr.len() && 0 <= k2 < bk.len() ==> pre_fr[k1] != bk[k2],
        vis == pre_vis.update(f as int, true),
        fr == pre_fr.push(f),
    ensures
        forall|k: int| 0 <= k < fr.len() ==> (#[trigger] fr[k]) < n,
        forall|v: int|
            0 <= v < n ==> (vis[v] <==> ((#[trigger] fr.contains(v as usize)) || bk.contains(
                v as usize,
            ))),
        forall|k1: int, k2: int| 0 <= k1 < k2 < fr.len() ==> fr[k1] != fr[k2],
        forall|k1: int, k2: int|
            0 <= k1 < fr.len() && 0 <= k2 < bk.len() ==> fr[k1] != bk[k2],
{
    lemma_extend_tour(pre_vis, pre_fr, bk, f, n);
    assert(fr[pre_fr.len() as int] == f);
    assert forall|v: int|
        0 <= v < n implies (vis[v] <==> ((#[trigger] fr.contains(v as usize)) || bk.contains(
        v as usize,
    ))) by {
        if v == f {
            assert(pre_vis.update(f as int, true)[f as int] == true);
            assert(vis[v]);
            assert(fr.contains(f));
        } else {
            assert(vis[v] == pre_vis[v]);
            if pre_fr.contains(v as usize) {
                let k = choose|k: int| 0 <= k < pre_fr.len() && pre_fr[k] == v as usize;
                assert(fr[k] == v as usize);
                assert(fr.contains(v as usize));
            }
            if fr.contains(v as usize) {
                let k = choose|k: int| 0 <= k < fr.len() && fr[k] == v as usize;
                if k < pre_fr.len() {
                    assert(pre_fr[k] == v as usize);
                    assert(pre_fr.contains(v as usize));
                } else {
                    assert(fr[k] == f);
                }
            }
        }
    }
    assert forall|k1: int, k2: int| 0 <= k1 < k2 < fr.len() implies fr[k1] != fr[k2] by {
        if k2 < pre_fr.len() {
        } else {
            assert(fr[k2] == f);
            assert(fr[k1] == pre_fr[k1]);
            if pre_fr[k1] == f {
                assert(pre_fr.contains(f));
            }
        }
    }
    assert forall|k1: int, k2: int|
        0 <= k1 < fr.len() && 0 <= k2 < bk.len() implies fr[k1] != bk[k2] by {
        if k1 < pre_fr.len() {
        } else {
            assert(fr[k1] == f);
            if bk[k2] == f {
                assert(bk.contains(f));
            }
        }
    }
}

/// Attaching a fresh node at the back keeps the tour invariants.
#[verifier::rlimit(60)]
proof fn lemma_tour_invariants_back(
    pre_vis: Seq<bool>,
    fr: Seq<usize>,
    pre_bk: Seq<usize>,
    vis: Seq<bool>,
    bk: Seq<usize>,
    b: usize,
    n: int,
)
    requires
        0 < n <= u32::MAX,
        pre_vis.len() == n,
        (b as int) < n,
        !pre_vis[b as int],
        forall|v: int|
            0 <= v < n ==> (pre_vis[v] <==> ((#[trigger] fr.contains(v as usize))
                || pre_bk.contains(v as usize))),
        forall|k: int| 0 <= k < fr.len() ==> (#[trigger] fr[k]) < n,
        forall|k: int| 0 <= k < pre_bk.len() ==> (#[trigger] pre_bk[k]) < n,
        forall|k1: int, k2: int| 0 <= k1 < k2 < fr.len() ==> fr[k1] != fr[k2],
        forall|k1: int, k2: int| 0 <= k1 < k2 < pre_bk.len() ==> pre_bk[k1] != pre_bk[k2],
        forall|k1: int, k2: int|
            0 <= k1 < fr.len() && 0 <= k2 < pre_bk.len() ==> fr[k1] != pre_bk[k2],
        vis == pre_vis.update(b as int, true),
        bk == pre_bk.push(b),
    ensures
        forall|k: int| 0 <= k < bk.len() ==> (#[trigger] bk[k]) < n,
        forall|v: int|
            0 <= v < n ==> (vis[v] <==> ((#[trigger] fr.contains(v as usize)) || bk.contains(
                v as usize,
            ))),
        forall|k1: int, k2: int| 0 <= k1 < k2 < bk.len() ==> bk[k1] != bk[k2],
        forall|k1: int, k2: int|
            0 <= k1 < fr.len() && 0 <= k2 < bk.len() ==> fr[k1] != bk[k2],
{
    lemma_extend_tour(pre_vis, fr, pre_bk, b, n);
    assert(pre_bk.push(b)[pre_bk.len() as int] == b);
    assert(bk[pre_bk.len() as int] == b);
    assert(bk.contains(b));
    assert forall|v: int| 0 <= v < n && vis[v] implies ((#[trigger] fr.contains(v as usize))
        || bk.contains(v as usize)) by {
        if v == b {
            assert(bk.contains(b));
        } else {
            assert(pre_vis.update(b as int, true)[v] == pre_vis[v]);
            assert(pre_vis[v]);
            if pre_bk.contains(v as usize) {
                let k = choose|k: int| 0 <= k < pre_bk.len() && pre_bk[k] == v as usize;
                assert(pre_bk.push(b)[k] == pre_bk[k]);
                assert(bk[k] == v as usize);
                assert(bk.contains(v as usize));
            }
        }
    }
    assert forall|v: int|
        0 <= v < n && ((#[trigger] fr.contains(v as usize)) || bk.contains(v as usize))
        implies vis[v] by {
        if v == b {
            assert(pre_vis.update(b as int, true)[b as int] == true);
            assert(vis[v]);
        } else {
            assert(pre_vis.update(b as int, true)[v] == pre_vis[v]);
            assert(vis[v] == pre_vis[v]);
            if fr.contains(v as usize) {
                assert(pre_vis[v]);
            }
            if bk.contains(v as usize) {
                let k = choose|k: int| 0 <= k < bk.len() && bk[k] == v as usize;
                if k < pre_bk.len() {
                    assert(pre_bk.push(b)[k] == pre_bk[k]);
                    assert(pre_bk[k] == v as usize);
                    assert(pre_bk.contains(v as usize));
                    assert(pre_vis[v]);
                } else {
                    assert(pre_bk.push(b)[k] == b);
                    assert(bk[k] == b);
                }
            }
        }
    }
    assert forall|k1: int, k2: int| 0 <= k1 < k2 < bk.len() implies bk[k1] != bk[k2] by {
        if k2 < pre_bk.len() {
        } else {
            assert(bk[k2] == b);
            assert(bk[k1] == pre_bk[k1]);
            if pre_bk[k1] == b {
                assert(pre_bk.contains(b));
            }
        }
    }
    assert forall|k1: int, k2: int|
        0 <= k1 < fr.len() && 0 <= k2 < bk.len() implies fr[k1] != bk[k2] by {
        if k2 < pre_bk.len() {
        } else {
            assert(bk[k2] == b);
            if fr[k1] == b {
                assert(fr.contains(b));
            }
        }
    }
}

/// The interleaved parts form a permutation once every node appears in one
/// of them and no node appears twice.
proof fn lemma_dual_end_perm(front_rev: Seq<usize>, back: Seq<usize>, out: Seq<usize>, n: int)
    requires
        0 < n <= u32::MAX,
        front_rev.len() + back.len() <= n,
        forall|v: int|
            0 <= v < n ==> ((#[trigger] front_rev.contains(v as usize)) || back.contains(
                v as usize,
            )),
        forall|k: int| 0 <= k < front_rev.len() ==> (#[trigger] front_rev[k]) < n,
        forall|k: int| 0 <= k < back.len() ==> (#[trigger] back[k]) < n,
        forall|k1: int, k2: int| 0 <= k1 < k2 < front_rev.len() ==> front_rev[k1] != front_rev[k2],
        forall|k1: int, k2: int| 0 <= k1 < k2 < back.len() ==> back[k1] != back[k2],
        forall|k1: int, k2: int|
            0 <= k1 < front_rev.len() && 0 <= k2 < back.len() ==> front_rev[k1] != back[k2],
        out.len() == front_rev.len() + back.len(),
        forall|p: int| 0 <= p < front_rev.len() ==> out[p] == front_rev[front_rev.len() - 1 - p],
        forall|p: int| 0 <= p < back.len() ==> out[front_rev.len() + p] == back[p],
    ensures
        is_perm(out, n),
{
    let fl = front_rev.len() as int;
    assert forall|i: int| 0 <= i < out.len() implies (#[trigger] out[i]) < n by {
        if i < fl {
            assert(out[i] == front_rev[fl - 1 - i]);
        } else {
            assert(out[i] == back[i - fl]);
        }
    }
    assert forall|i: int, j: int| 0 <= i < j < out.len() implies out[i] != out[j] by {
        if j < fl {
            assert(out[i] == front_rev[fl - 1 - i] && out[j] == front_rev[fl - 1 - j]);
        } else if i < fl {
            assert(out[i] == front_rev[fl - 1 - i] && out[j] == back[j - fl]);
        } else {
            assert(out[i] == back[i - fl] && out[j] == back[j - fl]);
        }
    }
    assert forall|v: int| 0 <= v < n implies (#[trigger] out.contains(v as usize)) by {
        if front_rev.contains(v as usize) {
            let kf = choose|kf: int| 0 <= kf < front_rev.len() && front_rev[kf] == v as usize;
            assert(out[fl - 1 - kf] == v as usize);
        } else {
            assert(back.contains(v as usize));
            let kb = choose|kb: int| 0 <= kb < back.len() && back[kb] == v as usize;
            assert(out[fl + kb] == v as usize);
        }
    }
    lemma_distinct_bounded_complete(out, n);
}

/// A duplicate-free list of values below `n` has at most `n` entries.
proof fn lemma_distinct_bounded_le(s: Seq<usize>, n: int)
    requires
        0 <= n <= u32::MAX,
        forall|i: int| 0 <= i < s.len() ==> (#[trigger] s[i]) < n,
        forall|i: int, j: int| 0 <= i < j < s.len() ==> s[i] != s[j],
    ensures
        s.len() <= n,
    decreases n,
{
    if n == 0 {
        if s.len() > 0 {
            assert(s[0] < 0);
        }
    } else {
        if s.contains(((n - 1) as usize)) {
            let k = choose|k: int| 0 <= k < s.len() && s[k] == ((n - 1) as usize);
            let s2 = s.remove(k);
            assert forall|i: int| 0 <= i < s2.len() implies (#[trigger] s2[i]) < n - 1 by {
                if i < k {
                    assert(s2[i] == s[i]);
                    assert(s[i] != s[k]);
                } else {
                    assert(s2[i] == s[i + 1]);
                    assert(s[i + 1] != s[k]);
                }
            }
            assert forall|i: int, j: int| 0 <= i < j < s2.len() implies s2[i] != s2[j] by {
                if j < k {
                } else if i < k {
                    assert(s2[i] == s[i] && s2[j] == s[j + 1]);
                } else {
                    assert(s2[i] == s[i + 1] && s2[j] == s[j + 1]);
                }
            }
            lemma_distinct_bounded_le(s2, n - 1);
        } else {
            assert forall|i: int| 0 <= i < s.len() implies (#[trigger] s[i]) < n - 1 by {
                if s[i] == ((n - 1) as usize) {
                    assert(s.contains(((n - 1) as usize)));
                }
            }
            lemma_distinct_bounded_le(s, n - 1);
        }
    }
}

/// A duplicate-free list of values below `n` that contains every one of
/// them has length exactly `n`.
proof fn lemma_distinct_bounded_complete(s: Seq<usize>, n: int)
    requires
        0 <= n <= u32::MAX,
        forall|i: int| 0 <= i < s.len() ==> (#[trigger] s[i]) < n,
        forall|i: int, j: int| 0 <= i < j < s.len() ==> s[i] != s[j],
        forall|v: int| 0 <= v < n ==> #[trigger] s.contains(v as usize),
    ensures
        s.len() == n,
    decreases n,
{
    if n == 0 {
        if s.len() > 0 {
            assert(s[0] < 0);
        }
    } else {
        assert(s.contains(((n - 1) as usize)));
        let k = choose|k: int| 0 <= k < s.len() && s[k] == ((n - 1) as usize);
        let s2 = s.remove(k);
        assert forall|i: int| 0 <= i < s2.len() implies (#[trigger] s2[i]) < n - 1 by {
            if i < k {
                assert(s2[i] == s[i]);
                assert(s[i] != s[k]);
            } else {
                assert(s2[i] == s[i + 1]);
                assert(s[i + 1] != s[k]);
            }
        }
        assert forall|i: int, j: int| 0 <= i < j < s2.len() implies s2[i] != s2[j] by {
            if j < k {
            } else if i < k {
                assert(s2[i] == s[i] && s2[j] == s[j + 1]);
            } else {
                assert(s2[i] == s[i + 1] && s2[j] == s[j + 1]);
            }
        }
        assert forall|v: int| 0 <= v < n - 1 implies #[trigger] s2.contains(v as usize) by {
            assert(s.contains((v as usize)));
            let k2 = choose|k2: int| 0 <= k2 < s.len() && s[k2] == (v as usize);
            assert(s[k2] != s[k] || k2 == k);
            if k2 < k {
                assert(s2[k2] == v as usize);
            } else if k2 == k {
                assert(false);
            } else {
                assert(s2[k2 - 1] == s[k2]);
            }
        }
        lemma_distinct_bounded_complete(s2, n - 1);
    }
}


/// Prefix-step unfolding of the tour cost.
proof fn lemma_path_cost_step(path: Seq<usize>, mat: Seq<Vec<usize>>, m: int)
    requires
        1 <= m < path.len(),
    ensures
        spec_path_cost(path.take(m + 1), mat) == spec_path_cost(path.take(m), mat) + mat[path[
            m - 1
        ] as int]@[path[m] as int],
{
    assert(path.take(m + 1).drop_last() =~= path.take(m));
    assert(path.take(m + 1)[m] == path[m]);
    assert(path.take(m + 1)[m - 1] == path[m - 1]);
}

/// The summed distance along adjacent pairs of the tour.
pub fn calculate_total_cost(path: &Vec<usize>, diff_mat: &Vec<Vec<usize>>) -> (r: u128)
    requires
        mat_square(diff_mat@),
        diff_mat@.len() <= u32::MAX,
        path@.len() <= u32::MAX,
        forall|k: int| 0 <= k < path@.len() ==> (#[trigger] path@[k]) < diff_mat@.len(),
        forall|i: int, j: int|
            #![trigger diff_mat@[i]@[j]]
            0 <= i < diff_mat@.len() && 0 <= j < diff_mat@[i]@.len() ==> diff_mat@[i]@[j]
                <= u64::MAX,
    ensures
        r == spec_path_cost(path@, diff_mat@),
{
    let n = path.len();
    if n < 2 {
        return 0;
    }
    let mut acc: u128 = 0;
    let mut k: usize = 1;
    proof {
        assert(spec_path_cost(path@.take(1), diff_mat@) == 0);
    }
    while k < n
        invariant
            1 <= k <= n,
            n == path@.len() <= u32::MAX,
            mat_square(diff_mat@),
            diff_mat@.len() <= u32::MAX,
            forall|p: int| 0 <= p < path@.len() ==> (#[trigger] path@[p]) < diff_mat@.len(),
            forall|i: int, j: int|
                #![trigger diff_mat@[i]@[j]]
                0 <= i < diff_mat@.len() && 0 <= j < diff_mat@[i]@.len() ==> diff_mat@[i]@[j]
                    <= u64::MAX,
            acc == spec_path_cost(path@.take(k as int), diff_mat@),
            acc <= (k - 1) * (u64::MAX as int),
        decreases n - k,
    {
        proof {
            lemma_path_cost_step(path@, diff_mat@, k as int);
            assert(k * (u64::MAX as int) == (k - 1) * (u64::MAX as int) + u64::MAX)
                by (nonlinear_arith);
            assert(k * (u64::MAX as int) <= u32::MAX as int * (u64::MAX as int))
                by (nonlinear_arith)
                requires
                    0 <= k <= u32::MAX as int,
            ;
            assert(u32::MAX as int * (u64::MAX as int) < u128::MAX) by (nonlinear_arith);
        }
        acc = acc + (*(&diff_mat[path[k - 1]][path[k]]) as u128);
        k = k + 1;
    }
    proof {
        assert(path@.take(n as int) =~= path@);
    }
    acc
}

fn copy_usize_vec(v: &Vec<usize>) -> (r: Vec<usize>)
    ensures
        r@ == v@,
{
    let mut out: Vec<usize> = Vec::new();
    let mut i: usize = 0;
    while i < v.len()
        invariant
            i <= v@.len(),
            out@ == v@.take(i as int),
        decreases v@.len() - i,
    {
        proof {
            assert(v@.take(i + 1) =~= v@.take(i as int).push(v@[i as int]));
        }
        out.push(v[i]);
        i = i + 1;
    }
    proof {
        assert(v@.take(v@.len() as int) =~= v@);
    }
    out
}

/// Reverse `path[a..b]` in place.
fn reverse_segment(path: &mut Vec<usize>, a: usize, b: usize)
    requires
        a <= b <= old(path)@.len(),
    ensures
        final(path)@.len() == old(path)@.len(),
        forall|k: int| 0 <= k < a ==> final(path)@[k] == old(path)@[k],
        forall|k: int| b <= k < old(path)@.len() ==> final(path)@[k] == old(path)@[k],
        forall|k: int| a <= k < b ==> final(path)@[k] == old(path)@[a + b - 1 - k],
{
    let mut i: usize = a;
    let mut j: usize = b;
    while j - i > 1
        invariant
            a <= i <= j <= b <= old(path)@.len(),
            path@.len() == old(path)@.len(),
            i - a == b - j,
            forall|k: int| 0 <= k < a ==> path@[k] == old(path)@[k],
            forall|k: int| b <= k < old(path)@.len() ==> path@[k] == old(path)@[k],
            forall|k: int| a <= k < i ==> path@[k] == old(path)@[a + b - 1 - k],
            forall|k: int| j <= k < b ==> path@[k] == old(path)@[a + b - 1 - k],
            forall|k: int| i <= k < j ==> path@[k] == old(path)@[k],
        decreases j - i,
    {
        j = j - 1;
        let t = path[i];
        path[i] = path[j];
        path[j] = t;
        i = i + 1;
    }
}

/// The tour with `path[a..b]` reversed.
pub open spec fn spec_reversed(path: Seq<usize>, a: int, b: int) -> Seq<usize> {
    Seq::new(
        path.len(),
        |k: int|
            if a <= k < b {
                path[a + b - 1 - k]
            } else {
                path[k]
            },
    )
}

/// No 2-opt move is left: for every interior pair, either the boundary-edge
/// test shows no gain, or the full reversal does not lower the tour cost.
pub open spec fn two_opt_stable(path: Seq<usize>, mat: Seq<Vec<usize>>, i: int, j: int) -> bool {
    mat[path[i] as int]@[path[i + 1] as int] + mat[path[j - 1] as int]@[path[j] as int]
        <= mat[path[i] as int]@[path[j - 1] as int] + mat[path[i + 1] as int]@[path[j] as int]
        || spec_path_cost(spec_reversed(path, i + 1, j), mat) >= spec_path_cost(path, mat)
}

/// Refine a tour with 2-opt moves: while reversing some interior segment
/// lowers the summed distance, apply the first such improvement and rescan.
/// The result is the same set of nodes in an order that costs no more, and
/// it is 2-opt stable: no interior reversal that passes the boundary-edge
/// test lowers the cost.
pub fn two_opt_optimize(path: Vec<usize>, diff_mat: &Vec<Vec<usize>>) -> (r: Vec<usize>)
    requires
        mat_square(diff_mat@),
        0 < diff_mat@.len() <= u32::MAX,
        is_perm(path@, diff_mat@.len() as int),
        forall|i: int, j: int|
            #![trigger diff_mat@[i]@[j]]
            0 <= i < diff_mat@.len() && 0 <= j < diff_mat@[i]@.len() ==> diff_mat@[i]@[j]
                <= u64::MAX,
    ensures
        is_perm(r@, diff_mat@.len() as int),
        spec_path_cost(r@, diff_mat@) <= spec_path_cost(path@, diff_mat@),
        forall|i: int, j: int|
            0 <= i && i + 2 <= j < diff_mat@.len() ==> #[trigger] two_opt_stable(
                r@,
                diff_mat@,
                i,
                j,
            ),
{
    let ghost n0 = diff_mat@.len() as int;
    let ghost cost0 = spec_path_cost(path@, diff_mat@);
    let n = path.len();
    let mut cur = path;
    let mut cur_cost: u128 = calculate_total_cost(&cur, diff_mat);
    let mut improved = true;
    while improved
        invariant
            n == diff_mat@.len(),
            0 < n <= u32::MAX,
            mat_square(diff_mat@),
            forall|i: int, j: int|
                #![trigger diff_mat@[i]@[j]]
                0 <= i < diff_mat@.len() && 0 <= j < diff_mat@[i]@.len() ==> diff_mat@[i]@[j]
                    <= u64::MAX,
            is_perm(cur@, n0),
            n0 == diff_mat@.len() as int,
            cur_cost == spec_path_cost(cur@, diff_mat@),
            cur_cost <= cost0,
            !improved ==> (forall|i2: int, j2: int|
                0 <= i2 && i2 + 2 <= j2 < n0 ==> #[trigger] two_opt_stable(
                    cur@,
                    diff_mat@,
                    i2,
                    j2,
                )),
        decreases cur_cost, (if improved { 1int } else { 0int }),
    {
        improved = false;
        let ghost c_entry = cur_cost;
        let mut i: usize = 0;
        while i < n - 1 && !improved
            invariant
                n == diff_mat@.len(),
                0 < n <= u32::MAX,
                mat_square(diff_mat@),
                forall|p: int, q: int|
                    #![trigger diff_mat@[p]@[q]]
                    0 <= p < diff_mat@.len() && 0 <= q < diff_mat@[p]@.len() ==> diff_mat@[p]@[q]
                        <= u64::MAX,
                is_perm(cur@, n0),
                n0 == diff_mat@.len() as int,
                cur_cost == spec_path_cost(cur@, diff_mat@),
                cur_cost <= cost0,
                improved ==> cur_cost < c_entry,
                !improved ==> cur_cost == c_entry,
                i <= n,
                !improved ==> (forall|i2: int, j2: int|
                    0 <= i2 < i && i2 + 2 <= j2 < n0 ==> #[trigger] two_opt_stable(
                        cur@,
                        diff_mat@,
                        i2,
                        j2,
                    )),
            decreases (if improved { 0int } else { 1int }), n - i,
        {
            let mut j: usize = i + 2;
            while j < n && !improved
                invariant
                    n == diff_mat@.len(),
                    0 < n <= u32::MAX,
                    i + 1 < n,
                    i + 2 <= j,
                    mat_square(diff_mat@),
                    forall|p: int, q: int|
                        #![trigger diff_mat@[p]@[q]]
                        0 <= p < diff_mat@.len() && 0 <= q < diff_mat@[p]@.len() ==> diff_mat@[p]@[q]
                            <= u64::MAX,
                    is_perm(cur@, n0),
                    n0 == diff_mat@.len() as int,
                    cur_cost == spec_path_cost(cur@, diff_mat@),
                    cur_cost <= cost0,
                    improved ==> cur_cost < c_entry,
                    !improved ==> cur_cost == c_entry,
                    j <= n,
                    !improved ==> (forall|i2: int, j2: int|
                        0 <= i2 < i && i2 + 2 <= j2 < n0 ==> #[trigger] two_opt_stable(
                            cur@,
                            diff_mat@,
                            i2,
                            j2,
                        )),
                    !improved ==> (forall|j2: int|
                        i + 2 <= j2 < j ==> #[trigger] two_opt_stable(
                            cur@,
                            diff_mat@,
                            i as int,
                            j2,
                        )),
                decreases (if improved { 0int } else { 1int }), n - j,
            {
                let pa = cur[i];
                let pb = cur[i + 1];
                let pc = cur[j - 1];
                let pd = cur[j];
                let orig_edges: u128 = (*(&diff_mat[pa][pb]) as u128) + (*(&diff_mat[pc][pd]) as u128);
                let new_edges: u128 = (*(&diff_mat[pa][pc]) as u128) + (*(&diff_mat[pb][pd]) as u128);
                if new_edges < orig_edges {
                    let mut cand = copy_usize_vec(&cur);
                    reverse_segment(&mut cand, i + 1, j);
                    proof {
                        lemma_reversal_is_perm(cur@, cand@, (i + 1) as int, j as int, n0);
                        assert(cand@ =~= spec_reversed(cur@, i + 1, j as int));
                    }
                    let cand_cost = calculate_total_cost(&cand, diff_mat);
                    if cand_cost < cur_cost {
                        cur = cand;
                        cur_cost = cand_cost;
                        improved = true;
                    } else {
                        proof {
                            assert(two_opt_stable(cur@, diff_mat@, i as int, j as int));
                        }
                    }
                } else {
                    proof {
                        assert(two_opt_stable(cur@, diff_mat@, i as int, j as int));
                    }
                }
                if !improved {
                    j = j + 1;
                }
            }
            if !improved {
                i = i + 1;
            }
        }
    }
    cur
}

/// Reversing a segment permutes positions, so the tour keeps listing each
/// node exactly once.
proof fn lemma_reversal_is_perm(pre: Seq<usize>, post: Seq<usize>, a: int, b: int, n: int)
    requires
        is_perm(pre, n),
        0 <= a <= b <= pre.len(),
        post.len() == pre.len(),
        forall|k: int| 0 <= k < a ==> post[k] == pre[k],
        forall|k: int| b <= k < pre.len() ==> post[k] == pre[k],
        forall|k: int| a <= k < b ==> post[k] == pre[a + b - 1 - k],
    ensures
        is_perm(post, n),
{
    assert forall|k: int| 0 <= k < n implies (#[trigger] post[k]) < n by {
        if a <= k < b {
            assert(post[k] == pre[a + b - 1 - k]);
        }
    }
    assert forall|k1: int, k2: int| 0 <= k1 < k2 < n implies post[k1] != post[k2] by {
        let m1: int = if a <= k1 < b { a + b - 1 - k1 } else { k1 };
        let m2: int = if a <= k2 < b { a + b - 1 - k2 } else { k2 };
        assert(post[k1] == pre[m1]);
        assert(post[k2] == pre[m2]);
        assert(m1 != m2);
    }
}


/// The content bytes of the regular file inode in slot `fidx`.
pub open spec fn file_content(inodes: Seq<crate::inode::Inode>, fidx: int) -> Seq<u8> {
    match inodes[fidx].itype {
        crate::inode::IType::File(f) => f.inner.content.unwrap()@,
        _ => Seq::empty(),
    }
}

/// Slot `fidx` holds a regular file whose content is loaded.
pub open spec fn is_loaded_file(inodes: Seq<crate::inode::Inode>, fidx: int) -> bool {
    &&& 0 <= fidx < inodes.len()
    &&& inodes[fidx].itype matches crate::inode::IType::File(f) && f.inner.content is Some
        && f.inner.content.unwrap()@.len() == f.size
}

/// All slots in `files` are loaded regular files.
pub open spec fn files_loaded(inodes: Seq<crate::inode::Inode>, files: Seq<usize>) -> bool {
    forall|k: int| 0 <= k < files.len() ==> is_loaded_file(inodes, #[trigger] files[k] as int)
}

pub(crate) fn content_ref<'a>(inodes: &'a Vec<crate::inode::Inode>, fidx: usize) -> (r: &'a Vec<u8>)
    requires
        is_loaded_file(inodes@, fidx as int),
    ensures
        r@ == file_content(inodes@, fidx as int),
{
    match &inodes[fidx].itype {
        crate::inode::IType::File(f) => match &f.inner.content {
            Some(c) => c,
            None => unreached(),
        },
        _ => unreached(),
    }
}

/// The matrix entry for the pair `(i, j)`: zero on the diagonal, the TLSH
/// distance of the two contents elsewhere, with the sentinel where either
/// file has no digest.
pub open spec fn spec_mat_entry(
    inodes: Seq<crate::inode::Inode>,
    files: Seq<usize>,
    i: int,
    j: int,
) -> usize {
    if i == j {
        0
    } else {
        let a = if i < j { i } else { j };
        let b = if i < j { j } else { i };
        match tlsh_pair_diff(
            file_content(inodes, files[a] as int),
            file_content(inodes, files[b] as int),
        ) {
            Some(d) => d,
            None => DEFAULT_DIFF,
        }
    }
}

impl CompressManager {
    /// Fill the pairwise TLSH distance matrix of the collected files.
    #[verifier::rlimit(100)]
    pub fn construct_diff_map(&mut self, inodes: &Vec<crate::inode::Inode>)
        requires
            files_loaded(inodes@, old(self).files@),
            old(self).files@.len() <= u32::MAX,
            forall|k: int|
                0 <= k < old(self).files@.len() ==> file_content(
                    inodes@,
                    #[trigger] old(self).files@[k] as int,
                ).len() <= 715827882,
        ensures
            final(self).files == old(self).files,
            final(self).file_data == old(self).file_data,
            final(self).lzma_level == old(self).lzma_level,
            final(self).diff_mat@.len() == old(self).files@.len(),
            mat_square(final(self).diff_mat@),
            forall|i: int, j: int|
                #![trigger final(self).diff_mat@[i]@[j]]
                0 <= i < final(self).diff_mat@.len() && 0 <= j < final(self).diff_mat@.len()
                    ==> final(self).diff_mat@[i]@[j] == spec_mat_entry(
                    inodes@,
                    final(self).files@,
                    i,
                    j,
                ),
    {
        let n = self.files.len();
        let mut mat: Vec<Vec<usize>> = Vec::new();
        let mut r: usize = 0;
        while r < n
            invariant
                r <= n,
                mat@.len() == r,
                forall|p: int| 0 <= p < r ==> (#[trigger] mat@[p])@.len() == n,
                forall|p: int, q: int|
                    #![trigger mat@[p]@[q]]
                    0 <= p < r && 0 <= q < n ==> mat@[p]@[q] == 0,
            decreases n - r,
        {
            let row: Vec<usize> = vec![0; n];
            mat.push(row);
            r = r + 1;
        }
        let mut i: usize = 0;
        while i < n
            invariant
                i <= n,
                n == self.files@.len() <= u32::MAX,
                files_loaded(inodes@, self.files@),
                forall|k: int|
                    0 <= k < self.files@.len() ==> file_content(
                        inodes@,
                        #[trigger] self.files@[k] as int,
                    ).len() <= 715827882,
                mat@.len() == n,
                forall|p: int| 0 <= p < n ==> (#[trigger] mat@[p])@.len() == n,
                forall|p: int, q: int|
                    #![trigger mat@[p]@[q]]
                    0 <= p < n && 0 <= q < n && (p < i || q < i) ==> mat@[p]@[q]
                        == spec_mat_entry(inodes@, self.files@, p, q),
                forall|p: int| 0 <= p < n ==> mat@[p]@[p] == 0,
            decreases n - i,
        {
            let mut j: usize = i + 1;
            while j < n
                invariant
                    i < n,
                    i + 1 <= j <= n,
                    n == self.files@.len() <= u32::MAX,
                    files_loaded(inodes@, self.files@),
                    forall|k: int|
                        0 <= k < self.files@.len() ==> file_content(
                            inodes@,
                            #[trigger] self.files@[k] as int,
                        ).len() <= 715827882,
                    mat@.len() == n,
                    forall|p: int| 0 <= p < n ==> (#[trigger] mat@[p])@.len() == n,
                    forall|p: int, q: int|
                        #![trigger mat@[p]@[q]]
                        0 <= p < n && 0 <= q < n && (p < i || q < i) ==> mat@[p]@[q]
                            == spec_mat_entry(inodes@, self.files@, p, q),
                    forall|q: int|
                        #![trigger mat@[i as int]@[q]]
                        i < q < j ==> mat@[i as int]@[q] == spec_mat_entry(
                            inodes@,
                            self.files@,
                            i as int,
                            q,
                        ),
                    forall|q: int|
                        #![trigger mat@[q]@[i as int]]
                        i < q < j ==> mat@[q]@[i as int] == spec_mat_entry(
                            inodes@,
                            self.files@,
                            q,
                            i as int,
                        ),
                    forall|p: int| 0 <= p < n ==> mat@[p]@[p] == 0,
                decreases n - j,
            {
                let ghost pre_files = self.files@;
                let d = match tlsh_content_diff(
                    content_ref(inodes, self.files[i]),
                    content_ref(inodes, self.files[j]),
                ) {
                    Some(d) => d,
                    None => DEFAULT_DIFF,
                };
                let ghost pre_mat = mat@;
                let rowi = &mut mat[i];
                rowi[j] = d;
                let ghost mid_mat = mat@;
                let rowj = &mut mat[j];
                rowj[i] = d;
                proof {
                    assert(mid_mat[i as int]@ =~= pre_mat[i as int]@.update(j as int, d));
                    assert(mat@[j as int]@ =~= mid_mat[j as int]@.update(i as int, d));
                    assert forall|p: int, q: int|
                        #![trigger mat@[p]@[q]]
                        0 <= p < n && 0 <= q < n implies mat@[p]@[q] == (if p == i && q == j {
                        d
                    } else if p == j && q == i {
                        d
                    } else {
                        pre_mat[p]@[q]
                    }) by {
                        if p == j {
                            assert(mat@[p]@ == mid_mat[p]@.update(i as int, d));
                            assert(mid_mat[p]@ == pre_mat[p]@);
                        } else if p == i {
                            assert(mat@[p]@ == mid_mat[p]@);
                            assert(mid_mat[p]@ == pre_mat[p]@.update(j as int, d));
                        } else {
                            assert(mat@[p]@ == mid_mat[p]@);
                            assert(mid_mat[p]@ == pre_mat[p]@);
                        }
                    }
                    assert(mat@[i as int]@[j as int] == d);
                    assert(mat@[j as int]@[i as int] == d);
                    assert forall|q: int|
                        #![trigger mat@[i as int]@[q]]
                        i < q < j + 1 implies mat@[i as int]@[q] == spec_mat_entry(
                        inodes@,
                        self.files@,
                        i as int,
                        q,
                    ) by {
                        if q < j {
                            assert(mat@[i as int]@[q] == pre_mat[i as int]@[q]);
                            assert(pre_mat[i as int]@[q] == spec_mat_entry(
                                inodes@,
                                self.files@,
                                i as int,
                                q,
                            ));
                        }
                    }
                    assert forall|q: int|
                        #![trigger mat@[q]@[i as int]]
                        i < q < j + 1 implies mat@[q]@[i as int] == spec_mat_entry(
                        inodes@,
                        self.files@,
                        q,
                        i as int,
                    ) by {
                        if q < j {
                            assert(mat@[q]@[i as int] == pre_mat[q]@[i as int]);
                            assert(pre_mat[q]@[i as int] == spec_mat_entry(
                                inodes@,
                                self.files@,
                                q,
                                i as int,
                            ));
                        }
                    }
                }
                j = j + 1;
            }
            proof {
                assert forall|p: int, q: int|
                    #![trigger mat@[p]@[q]]
                    0 <= p < n && 0 <= q < n && (p < i + 1 || q < i + 1) implies mat@[p]@[q]
                    == spec_mat_entry(inodes@, self.files@, p, q) by {
                    if p < i || q < i {
                    } else if p == i && q == i {
                        assert(mat@[p]@[q] == 0);
                    } else if p == i {
                        assert(i < q < n);
                        assert(mat@[q]@[i as int] == spec_mat_entry(
                            inodes@,
                            self.files@,
                            q,
                            i as int,
                        ));
                        assert(mat@[i as int]@[q] == spec_mat_entry(
                            inodes@,
                            self.files@,
                            i as int,
                            q,
                        ));
                    } else {
                        assert(q == i && i < p < n);
                        assert(mat@[p]@[i as int] == spec_mat_entry(
                            inodes@,
                            self.files@,
                            p,
                            i as int,
                        ));
                    }
                }
            }
            i = i + 1;
        }
        self.diff_mat = mat;
    }
}

/// The concatenated contents of the listed files, in order.
pub open spec fn concat_contents(inodes: Seq<crate::inode::Inode>, files: Seq<usize>) -> Seq<u8>
    decreases files.len(),
{
    if files.len() == 0 {
        Seq::empty()
    } else {
        concat_contents(inodes, files.drop_last()) + file_content(
            inodes,
            files.last() as int,
        )
    }
}

impl CompressManager {
    /// Permute the file list into the tour order that the distance matrix
    /// suggests.
    pub fn optimize(&mut self)
        requires
            mat_square(old(self).diff_mat@),
            old(self).diff_mat@.len() == old(self).files@.len(),
            0 < old(self).files@.len() <= u32::MAX,
        ensures
            final(self).file_data == old(self).file_data,
            final(self).lzma_level == old(self).lzma_level,
            final(self).files@.len() == old(self).files@.len(),
            exists|perm: Seq<usize>|
                is_perm(perm, old(self).files@.len() as int) && final(self).files@ =~= Seq::new(
                    old(self).files@.len(),
                    |k: int| old(self).files@[#[verifier::truncate] (perm[k] as int)],
                ),
    {
        let initial_path = nearest_neighbor_dual_end(&self.diff_mat);
        let optimized_path = two_opt_optimize(initial_path, &self.diff_mat);
        let n = self.files.len();
        let mut new_files: Vec<usize> = Vec::new();
        let mut k: usize = 0;
        while k < n
            invariant
                k <= n,
                n == self.files@.len(),
                optimized_path@.len() == n,
                is_perm(optimized_path@, n as int),
                new_files@.len() == k,
                forall|p: int|
                    0 <= p < k ==> (#[trigger] new_files@[p]) == self.files@[optimized_path@[
                        p
                    ] as int],
            decreases n - k,
        {
            new_files.push(self.files[optimized_path[k]]);
            k = k + 1;
        }
        proof {
            assert(new_files@ =~= Seq::new(
                self.files@.len(),
                |p: int| self.files@[#[verifier::truncate] (optimized_path@[p] as int)],
            ));
        }
        self.files = new_files;
    }

    /// Order the files by similarity and lay their contents out as one
    /// stream in that order.
    pub fn reorder(&mut self, inodes: &Vec<crate::inode::Inode>)
        requires
            files_loaded(inodes@, old(self).files@),
            old(self).files@.len() <= u32::MAX,
            forall|k: int|
                0 <= k < old(self).files@.len() ==> file_content(
                    inodes@,
                    #[trigger] old(self).files@[k] as int,
                ).len() <= 715827882,
        ensures
            final(self).lzma_level == old(self).lzma_level,
            final(self).files@.len() == old(self).files@.len(),
            files_loaded(inodes@, final(self).files@),
            final(self).file_data@ == concat_contents(inodes@, final(self).files@),
            exists|perm: Seq<usize>|
                is_perm(perm, old(self).files@.len() as int) && final(self).files@ =~= Seq::new(
                    old(self).files@.len(),
                    |k: int| old(self).files@[#[verifier::truncate] (perm[k] as int)],
                ),
    {
        self.construct_diff_map(inodes);
        if self.files.len() > 0 {
            self.optimize();
        } else {
            proof {
                let idperm = Seq::<usize>::empty();
                assert(is_perm(idperm, 0));
                assert(self.files@ =~= Seq::new(
                    0nat,
                    |k: int| self.files@[#[verifier::truncate] (idperm[k] as int)],
                ));
            }
        }
        proof {
            let perm0 = choose|perm: Seq<usize>|
                is_perm(perm, old(self).files@.len() as int) && self.files@ =~= Seq::new(
                    old(self).files@.len(),
                    |k: int| old(self).files@[#[verifier::truncate] (perm[k] as int)],
                );
            assert forall|k: int|
                0 <= k < self.files@.len() implies is_loaded_file(
                inodes@,
                #[trigger] self.files@[k] as int,
            ) by {
                assert(self.files@[k] == old(self).files@[perm0[k] as int]);
            }
        }
        self.load_stream(inodes);
    }
}


impl CompressManager {
    /// Concatenate the listed files' contents in their current order.
    pub fn load_stream(&mut self, inodes: &Vec<crate::inode::Inode>)
        requires
            files_loaded(inodes@, old(self).files@),
        ensures
            final(self).files == old(self).files,
            final(self).lzma_level == old(self).lzma_level,
            final(self).diff_mat == old(self).diff_mat,
            final(self).file_data@ == concat_contents(inodes@, final(self).files@),
    {
        let mut data: Vec<u8> = Vec::new();
        let mut k: usize = 0;
        while k < self.files.len()
            invariant
                k <= self.files@.len(),
                files_loaded(inodes@, self.files@),
                data@ == concat_contents(inodes@, self.files@.take(k as int)),
                *self == *old(self),
            decreases self.files@.len() - k,
        {
            let c = content_ref(inodes, self.files[k]);
            let mut piece: Vec<u8> = Vec::new();
            let mut b: usize = 0;
            while b < c.len()
                invariant
                    b <= c@.len(),
                    piece@ == c@.take(b as int),
                decreases c@.len() - b,
            {
                proof {
                    assert(c@.take(b + 1) =~= c@.take(b as int).push(c@[b as int]));
                }
                piece.push(c[b]);
                b = b + 1;
            }
            proof {
                assert(c@.take(c@.len() as int) =~= c@);
            }
            data.append(&mut piece);
            proof {
                assert(self.files@.take(k + 1).drop_last() =~= self.files@.take(k as int));
                assert(self.files@.take(k + 1).last() == self.files@[k as int]);
            }
            k = k + 1;
        }
        proof {
            assert(self.files@.take(self.files@.len() as int) =~= self.files@);
        }
        self.file_data = data;
    }
}

} // verus!
